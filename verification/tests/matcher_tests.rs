use double::matcher::all_of;
use double::matcher::any;
use double::matcher::any_of;
use double::matcher::between_exc;
use double::matcher::between_inc;
use double::matcher::contains;
use double::matcher::ends_with;
use double::matcher::eq;
use double::matcher::eq_nocase;
use double::matcher::ge;
use double::matcher::gt;
use double::matcher::has_substr;
use double::matcher::is_empty;
use double::matcher::is_err;
use double::matcher::is_ok;
use double::matcher::is_some;
use double::matcher::le;
use double::matcher::lt;
use double::matcher::ne;
use double::matcher::ne_nocase;
use double::matcher::not;
use double::matcher::starts_with;

#[test]
fn any_matcher() {
    assert!(any(&1));
    assert!(any(&Some(42)));
    assert!(any(&42.2));
    assert!(any(&vec![1, 2, 3, 4, 5]));
}

#[test]
fn eq_matcher() {
    let matcher1 = |arg: &i32| eq(arg, 1);
    assert!(matcher1(&1));
    assert!(!matcher1(&2));

    let matcher2 = |arg: &&str| eq(arg, "hello");
    assert!(matcher2(&"hello"));
    assert!(!matcher2(&"bye_bye"));

    let vec_arg1 = vec![1, 2, 3, 4];
    let vec_arg2 = vec![1, 2, 3, 5];
    let matcher3 = |arg: &Vec<i32>| eq(arg, vec![1, 2, 3, 4]);
    assert!(matcher3(&vec_arg1));
    assert!(!matcher3(&vec_arg2));
}

#[test]
fn ne_matcher() {
    let matcher1 = |arg: &i32| ne(arg, 1);
    assert!(!matcher1(&1));
    assert!(matcher1(&2));

    let matcher2 = |arg: &&str| ne(arg, "hello");
    assert!(!matcher2(&"hello"));
    assert!(matcher2(&"bye_bye"));

    let vec_arg1 = vec![1, 2, 3, 4];
    let vec_arg2 = vec![1, 2, 3, 5];
    let matcher3 = |arg: &Vec<i32>| ne(arg, vec![1, 2, 3, 4]);
    assert!(!matcher3(&vec_arg1));
    assert!(matcher3(&vec_arg2));
}

#[test]
fn lt_matcher() {
    let matcher1 = |arg: &i32| lt(arg, 10);
    assert!(matcher1(&9));
    assert!(!matcher1(&10));
    assert!(!matcher1(&11));

    let matcher2 = |arg: &&str| lt(arg, "hello1");
    assert!(matcher2(&"hello0"));
    assert!(!matcher2(&"hello1"));
    assert!(!matcher2(&"hello2"));
}

#[test]
fn le_matcher() {
    let matcher1 = |arg: &i32| le(arg, 10);
    assert!(matcher1(&9));
    assert!(matcher1(&10));
    assert!(!matcher1(&11));

    let matcher2 = |arg: &&str| le(arg, "hello1");
    assert!(matcher2(&"hello0"));
    assert!(matcher2(&"hello1"));
    assert!(!matcher2(&"hello2"));
}

#[test]
fn gt_matcher() {
    let matcher1 = |arg: &i32| gt(arg, 10);
    assert!(!matcher1(&9));
    assert!(!matcher1(&10));
    assert!(matcher1(&11));

    let matcher2 = |arg: &&str| gt(arg, "hello1");
    assert!(!matcher2(&"hello0"));
    assert!(!matcher2(&"hello1"));
    assert!(matcher2(&"hello2"));
}

#[test]
fn ge_matcher() {
    let matcher1 = |arg: &i32| ge(arg, 10);
    assert!(!matcher1(&9));
    assert!(matcher1(&10));
    assert!(matcher1(&11));

    let matcher2 = |arg: &&str| ge(arg, "hello1");
    assert!(!matcher2(&"hello0"));
    assert!(matcher2(&"hello1"));
    assert!(matcher2(&"hello2"));
}

#[test]
fn between_exc_matcher() {
    let matcher = |arg: &i32| between_exc(arg, 9, 11);
    assert!(!matcher(&8));
    assert!(!matcher(&9));
    assert!(matcher(&10));
    assert!(!matcher(&11));
    assert!(!matcher(&12));
}

#[test]
fn between_inc_matcher() {
    let matcher = |arg: &i32| between_inc(arg, 9, 11);
    assert!(!matcher(&8));
    assert!(matcher(&9));
    assert!(matcher(&10));
    assert!(matcher(&11));
    assert!(!matcher(&12));
}

#[test]
fn is_some_matcher() {
    let inner: fn(&i32) -> bool = |arg| gt(arg, 5);
    let matcher = |arg: &Option<i32>| is_some(arg, &inner);
    assert!(matcher(&Some(10)));
    assert!(!matcher(&Some(3)));
    assert!(!matcher(&None));
}

#[test]
fn is_ok_matcher() {
    let inner: fn(&i32) -> bool = |arg| gt(arg, 5);
    let matcher = |arg: &Result<i32, &str>| is_ok(arg, &inner);
    assert!(matcher(&Ok(10)));
    assert!(!matcher(&Ok(3)));
    assert!(!matcher(&Err("boo")));
}

#[test]
fn is_err_matcher() {
    let inner: fn(&i32) -> bool = |arg| gt(arg, 0);
    let matcher = |arg: &Result<f64, i32>| is_err(arg, &inner);
    assert!(matcher(&Err(8)));
    assert!(!matcher(&Err(0)));
    assert!(!matcher(&Ok(150.75)));
}

#[test]
fn ne_nocase_matcher() {
    let matcher = |arg: &str| ne_nocase(arg, "foo");
    assert!(matcher(""));
    assert!(!matcher("FOo"));
    assert!(!matcher("FOO"));
    assert!(!matcher("foo"));
    assert!(matcher("barfoo"));
    assert!(matcher("barFOO"));
}

#[test]
fn is_empty_matcher() {
    let empty_vec: Vec<i32> = vec![];
    assert!(is_empty(&empty_vec));
    assert!(!is_empty(&vec![42]));
    assert!(!is_empty(&vec![42, 84, 100]));
}

#[test]
fn contains_matcher() {
    let inner: fn(&i32) -> bool = |arg| ge(arg, 5);
    let matcher = |arg: &Vec<i32>| contains(arg, &inner);
    assert!(!matcher(&vec![1, 2, 3]));
    assert!(matcher(&vec![1, 5, 3]));
    assert!(matcher(&vec![5, 6, 7]));
}

#[test]
fn has_substr_matcher() {
    let empty_matcher = |arg: &str| has_substr(arg, "");
    assert!(empty_matcher(""));
    assert!(empty_matcher("foo"));
    assert!(empty_matcher("barfooban"));
    assert!(empty_matcher("ban"));

    let matcher = |arg: &str| has_substr(arg, "foo");
    assert!(!matcher(""));
    assert!(matcher("foo"));
    assert!(matcher("barfooban"));
    assert!(!matcher("ban"));
}

#[test]
fn starts_with_matcher() {
    let empty_matcher = |arg: &str| starts_with(arg, "");
    assert!(empty_matcher(""));
    assert!(empty_matcher("foo"));
    assert!(empty_matcher("barfooban"));
    assert!(empty_matcher("ban"));

    let matcher = |arg: &str| starts_with(arg, "foo");
    assert!(!matcher(""));
    assert!(matcher("foo"));
    assert!(!matcher("barfooban"));
    assert!(!matcher("ban"));
}

#[test]
fn ends_with_matcher() {
    let empty_matcher = |arg: &str| ends_with(arg, "");
    assert!(empty_matcher(""));
    assert!(empty_matcher("foo"));
    assert!(empty_matcher("barfooban"));
    assert!(empty_matcher("ban"));

    let matcher = |arg: &str| ends_with(arg, "ban");
    assert!(!matcher(""));
    assert!(!matcher("banfoo"));
    assert!(matcher("barfooban"));
    assert!(matcher("ban"));
}

#[test]
fn eq_nocase_matcher() {
    let matcher = |arg: &str| eq_nocase(arg, "foo");
    assert!(!matcher(""));
    assert!(matcher("FOo"));
    assert!(matcher("FOO"));
    assert!(matcher("foo"));
    assert!(!matcher("barfoo"));
    assert!(!matcher("barFOO"));
}

#[test]
fn not_matcher() {
    let inner: fn(&i32) -> bool = |arg| eq(arg, 10);
    let matcher = |arg: &i32| not(arg, &inner);
    assert!(matcher(&0));
    assert!(matcher(&5));
    assert!(!matcher(&10));
    assert!(matcher(&15));
}

#[test]
fn all_of_matcher() {
    let ge0: fn(&i32) -> bool = |arg| ge(arg, 0);
    let le10: fn(&i32) -> bool = |arg| le(arg, 10);
    let matcher = |arg: &i32| all_of(arg, vec![ge0, le10]);
    assert!(!matcher(&-5));
    assert!(matcher(&0));
    assert!(matcher(&5));
    assert!(matcher(&10));
    assert!(!matcher(&15));
}

#[test]
fn any_of_matcher() {
    let eq26: fn(&i32) -> bool = |arg| eq(arg, 26);
    let le40: fn(&i32) -> bool = |arg| le(arg, 40);
    let matcher = |arg: &i32| any_of(arg, vec![eq26, le40]);
    assert!(matcher(&0));
    assert!(matcher(&26));
    assert!(matcher(&30));
    assert!(!matcher(&42));
}
