use double::Mock;
use double::generate_permutations;
use double::is_strictly_increasing;
use double::matcher::each;
use double::matcher::ge;
use double::matcher::gt;
use double::matcher::is_length;
use double::matcher::unordered_elements_are;
use double::matcher::when_sorted;

#[test]
fn generate_permutations_no_constraints() {
    let constraints: Vec<Vec<usize>> = vec![];
    let permutations = generate_permutations(&constraints);
    let no_permutations_expected: Vec<Vec<usize>> = vec![];
    assert_eq!(no_permutations_expected, permutations);
}

#[test]
fn generate_permutations_one_constraint_one_value() {
    let constraints = vec![vec![42]];
    let permutations = generate_permutations(&constraints);
    assert_eq!(vec![vec![42]], permutations);
}

#[test]
fn generate_permutations_one_constraint_multiple_values() {
    let constraints = vec![vec![42, 84, 0]];
    let permutations = generate_permutations(&constraints);
    assert_eq!(vec![vec![42], vec![84], vec![0]], permutations);
}

#[test]
fn generate_permutations_various_constraints() {
    let constraints = vec![vec![0], vec![0, 1], vec![0], vec![2, 3, 4]];
    let permutations = generate_permutations(&constraints);
    assert_eq!(
        permutations,
        vec![
            vec![0, 0, 0, 2],
            vec![0, 0, 0, 3],
            vec![0, 0, 0, 4],
            vec![0, 1, 0, 2],
            vec![0, 1, 0, 3],
            vec![0, 1, 0, 4]
        ]
    );
}

#[test]
fn is_strictly_increasing_empty_sequence() {
    let sequence: Vec<usize> = vec![];
    assert!(is_strictly_increasing(sequence.as_slice()));
}

#[test]
fn is_strictly_increasing_sequence_with_one_element() {
    let sequence: Vec<usize> = vec![42];
    assert!(is_strictly_increasing(sequence.as_slice()));
}

#[test]
fn is_strictly_increasing_sequence_with_multiple_elements() {
    let sequence: Vec<usize> = vec![42, 43, 44, 46, 80, 15000];
    assert!(is_strictly_increasing(sequence.as_slice()));
}

#[test]
fn is_strictly_increasing_sequence_value_stays_the_same() {
    let sequence: Vec<usize> = vec![42, 43, 44, 44, 80, 15000];
    assert!(!is_strictly_increasing(sequence.as_slice()));
}

#[test]
fn is_strictly_increasing_sequence_value_goes_down() {
    let sequence: Vec<usize> = vec![42, 43, 44, 1, 80, 15000];
    assert!(!is_strictly_increasing(sequence.as_slice()));
}

#[test]
fn fresh_mock_returns_default_value_for_any_call() {
    let mut mock = Mock::<i32, i64>::new(42);
    assert_eq!(mock.call(5), 42);
    assert_eq!(mock.call(0), 42);
    assert_eq!(mock.call(-17), 42);
}

#[test]
fn call_history_records_calls_in_order() {
    let mut mock = Mock::<&str, i32>::new(0);
    assert!(!mock.called());
    assert_eq!(mock.num_calls(), 0);
    mock.call("first");
    mock.call("second");
    mock.call("third");
    assert!(mock.called());
    assert_eq!(mock.num_calls(), 3);
    assert_eq!(mock.calls(), vec!["first", "second", "third"]);
}

#[test]
fn reset_calls_clears_history_but_not_stubbing() {
    let mut mock = Mock::<&str, i32>::new(7);
    mock.return_value_for("banana", 100);
    mock.call("first");
    mock.call("second");
    assert!(mock.called());
    assert!(mock.called_with("first"));
    mock.reset_calls();
    assert!(!mock.called());
    assert_eq!(mock.num_calls(), 0);
    assert!(!mock.called_with("first"));
    assert!(!mock.called_with("second"));
    assert_eq!(mock.call("banana"), 100);
    assert_eq!(mock.call("other"), 7);
}

#[test]
fn precedence_argument_value_beats_sequence() {
    let mut mock = Mock::<&str, i32>::new(0);
    mock.return_values(vec![1, 2]);
    mock.return_value_for("key", 99);
    assert_eq!(mock.call("key"), 99);
    assert_eq!(mock.call("other"), 1);
    assert_eq!(mock.call("other"), 2);
    assert_eq!(mock.call("other"), 0);
}

#[test]
fn return_values_round_trip_then_default() {
    let mut mock = Mock::<&str, &str>::new("default");
    mock.return_values(vec!["one", "two"]);
    assert_eq!(mock.call("hello"), "one");
    assert_eq!(mock.call("bye"), "two");
    assert_eq!(mock.call("farewell"), "default");
}

#[test]
fn return_value_replaces_default() {
    let mut mock = Mock::<&str, &str>::new("original value");
    mock.return_value("new value");
    assert_eq!(mock.call("something"), "new value");
}

#[test]
fn use_fn_and_use_closure_are_exclusive() {
    fn add_two(x: i64) -> i64 {
        x + 2
    }
    let mut mock = Mock::<i64, i64>::new(10);
    mock.use_fn(add_two);
    assert_eq!(mock.call(1), 3);
    assert_eq!(mock.call(10), 12);
    mock.use_closure(|x| x * 3);
    assert_eq!(mock.call(10), 30);
    mock.use_fn(add_two);
    assert_eq!(mock.call(10), 12);
}

#[test]
fn per_argument_overrides_beat_defaults() {
    fn add_two(x: i64) -> i64 {
        x + 2
    }
    let mut mock = Mock::<i64, i64>::new(42);
    mock.use_fn_for(5, add_two);
    assert_eq!(mock.call(1), 42);
    assert_eq!(mock.call(5), 7);
    mock.use_closure_for(5, |x| x * 10);
    assert_eq!(mock.call(5), 50);
    mock.return_value_for(6, 1000);
    assert_eq!(mock.call(6), 1000);
}

#[test]
fn default_mock_returns_zero_values() {
    let mut int_mock = Mock::<i64, i64>::default();
    assert_eq!(int_mock.call(10), 0);
    let mut string_mock = Mock::<i64, String>::default();
    assert_eq!(string_mock.call(1), "");
    let mut option_mock = Mock::<i64, Option<bool>>::default();
    assert_eq!(option_mock.call(10), None);
}

#[test]
fn return_some_and_return_none() {
    let mut mock = Mock::<i64, Option<i64>>::new(None);
    mock.return_some(10);
    assert_eq!(mock.call(0), Some(10));
    mock.return_none();
    assert_eq!(mock.call(0), None);
}

#[test]
fn return_ok_and_return_err() {
    let mut mock = Mock::<i64, Result<&str, &str>>::new(Err("oh no"));
    mock.return_ok("success");
    assert_eq!(mock.call(0), Ok("success"));
    mock.return_err("boom");
    assert_eq!(mock.call(0), Err("boom"));
}

#[test]
fn called_with_finds_recorded_arguments() {
    let mut mock = Mock::<&str, ()>::new(());
    mock.call("foo");
    mock.call("bar");
    assert!(mock.called_with("foo"));
    assert!(mock.called_with("bar"));
    assert!(!mock.called_with("baz"));
}

#[test]
fn has_calls_matches_in_any_order() {
    let mut mock = Mock::<&str, ()>::new(());
    mock.call("foo");
    mock.call("bar");
    assert!(mock.has_calls(vec!["foo", "bar"]));
    assert!(mock.has_calls(vec!["bar", "foo"]));
    assert!(mock.has_calls(vec!["foo"]));
    assert!(mock.has_calls(vec![]));
    assert!(!mock.has_calls(vec!["not_in_calls"]));
    assert!(!mock.has_calls(vec!["foo", "not_in_calls"]));
}

#[test]
fn has_calls_in_order_requires_increasing_matches() {
    let mut mock = Mock::<(i32, i32), ()>::new(());
    mock.call((42, 0));
    mock.call((42, 1));
    mock.call((42, 0));
    assert!(mock.has_calls_in_order(vec![(42, 0)]));
    assert!(mock.has_calls_in_order(vec![(42, 1)]));
    assert!(mock.has_calls_in_order(vec![(42, 0), (42, 1)]));
    assert!(mock.has_calls_in_order(vec![(42, 1), (42, 0)]));
    assert!(mock.has_calls_in_order(vec![(42, 0), (42, 1), (42, 0)]));
    assert!(!mock.has_calls_in_order(vec![(42, 0), (42, 0), (42, 1)]));
    assert!(!mock.has_calls_in_order(vec![(84, 0)]));
    assert!(!mock.has_calls_in_order(vec![(42, 0), (84, 0)]));
    assert!(!mock.has_calls_in_order(vec![]));
}

#[test]
fn has_calls_exactly_requires_matching_counts() {
    let mut mock = Mock::<(i32, i32), ()>::new(());
    mock.call((42, 0));
    mock.call((42, 1));
    mock.call((42, 0));
    assert!(!mock.has_calls_exactly(vec![(42, 0)]));
    assert!(!mock.has_calls_exactly(vec![(42, 1)]));
    assert!(!mock.has_calls_exactly(vec![(84, 0)]));
    assert!(!mock.has_calls_exactly(vec![(42, 0), (42, 1)]));
    assert!(!mock.has_calls_exactly(vec![(42, 1), (42, 0)]));
    assert!(mock.has_calls_exactly(vec![(42, 0), (42, 0), (42, 1)]));
    assert!(mock.has_calls_exactly(vec![(42, 0), (42, 1), (42, 0)]));
    assert!(!mock.has_calls_exactly(vec![(42, 0), (42, 1), (84, 0)]));
}

#[test]
fn has_calls_exactly_in_order_requires_order_and_counts() {
    let mut mock = Mock::<(i32, i32), ()>::new(());
    mock.call((42, 0));
    mock.call((42, 1));
    mock.call((42, 0));
    assert!(mock.has_calls_exactly_in_order(vec![(42, 0), (42, 1), (42, 0)]));
    assert!(!mock.has_calls_exactly_in_order(vec![(42, 0), (42, 0), (42, 1)]));
    assert!(!mock.has_calls_exactly_in_order(vec![(42, 0), (42, 1)]));
    assert!(!mock.has_calls_exactly_in_order(vec![(42, 0)]));
}

#[test]
fn called_with_pattern_checks_each_call() {
    let mut mock = Mock::<(i32, i32), ()>::new(());
    mock.call((42, 0));
    mock.call((42, 1));
    let pattern1: fn(&(i32, i32)) -> bool = |args| args.0 == 42 && args.1 != 0;
    let pattern2: fn(&(i32, i32)) -> bool = |args| args.0 == 42 && args.1 == 0;
    let pattern3: fn(&(i32, i32)) -> bool = |args| args.0 == 84;
    assert!(mock.called_with_pattern(&pattern1));
    assert!(mock.called_with_pattern(&pattern2));
    assert!(!mock.called_with_pattern(&pattern3));
}

#[test]
fn has_patterns_matches_in_any_order() {
    let mut mock = Mock::<(i32, i32), ()>::new(());
    mock.call((42, 0));
    mock.call((42, 1));
    let pattern1: fn(&(i32, i32)) -> bool = |args| args.0 == 42 && args.1 != 0;
    let pattern2: fn(&(i32, i32)) -> bool = |args| args.0 == 42 && args.1 == 0;
    let pattern3: fn(&(i32, i32)) -> bool = |args| args.0 == 84;
    assert!(mock.has_patterns(vec![pattern1]));
    assert!(mock.has_patterns(vec![pattern2]));
    assert!(mock.has_patterns(vec![pattern1, pattern2]));
    assert!(mock.has_patterns(vec![pattern2, pattern1]));
    assert!(!mock.has_patterns(vec![pattern3]));
    assert!(!mock.has_patterns(vec![pattern1, pattern3]));
}

#[test]
fn has_patterns_in_order_requires_increasing_matches() {
    let mut mock = Mock::<(i32, i32), ()>::new(());
    mock.call((42, 0));
    mock.call((42, 1));
    mock.call((42, 0));
    let pattern1: fn(&(i32, i32)) -> bool = |args| args.0 == 42 && args.1 != 0;
    let pattern2: fn(&(i32, i32)) -> bool = |args| args.0 == 42 && args.1 == 0;
    let pattern3: fn(&(i32, i32)) -> bool = |args| args.0 == 84;
    assert!(mock.has_patterns_in_order(vec![pattern1]));
    assert!(mock.has_patterns_in_order(vec![pattern2]));
    assert!(mock.has_patterns_in_order(vec![pattern1, pattern2]));
    assert!(mock.has_patterns_in_order(vec![pattern2, pattern1]));
    assert!(mock.has_patterns_in_order(vec![pattern2, pattern1, pattern2]));
    assert!(!mock.has_patterns_in_order(vec![pattern1, pattern2, pattern1]));
    assert!(!mock.has_patterns_in_order(vec![pattern1, pattern1, pattern2]));
    assert!(!mock.has_patterns_in_order(vec![pattern2, pattern2, pattern1]));
    assert!(!mock.has_patterns_in_order(vec![pattern3]));
    assert!(!mock.has_patterns_in_order(vec![pattern1, pattern3]));
}

#[test]
fn has_patterns_exactly_requires_matching_counts() {
    let mut mock = Mock::<(i32, i32), ()>::new(());
    mock.call((42, 0));
    mock.call((42, 1));
    mock.call((42, 0));
    let pattern1: fn(&(i32, i32)) -> bool = |args| args.0 == 42 && args.1 != 0;
    let pattern2: fn(&(i32, i32)) -> bool = |args| args.0 == 42 && args.1 == 0;
    let pattern3: fn(&(i32, i32)) -> bool = |args| args.0 == 84;
    assert!(!mock.has_patterns_exactly(vec![pattern1]));
    assert!(!mock.has_patterns_exactly(vec![pattern2]));
    assert!(!mock.has_patterns_exactly(vec![pattern3]));
    assert!(!mock.has_patterns_exactly(vec![pattern1, pattern2]));
    assert!(!mock.has_patterns_exactly(vec![pattern2, pattern1]));
    assert!(mock.has_patterns_exactly(vec![pattern1, pattern1, pattern2]));
    assert!(mock.has_patterns_exactly(vec![pattern1, pattern2, pattern1]));
    assert!(!mock.has_patterns_exactly(vec![pattern1, pattern2, pattern3]));
}

#[test]
fn has_patterns_exactly_in_order_requires_order_and_counts() {
    let mut mock = Mock::<(i32, i32), ()>::new(());
    mock.call((42, 0));
    mock.call((42, 1));
    mock.call((42, 0));
    let pattern1: fn(&(i32, i32)) -> bool = |args| args.0 == 42 && args.1 != 0;
    let pattern2: fn(&(i32, i32)) -> bool = |args| args.0 == 42 && args.1 == 0;
    let pattern3: fn(&(i32, i32)) -> bool = |args| args.0 == 84;
    assert!(!mock.has_patterns_exactly_in_order(vec![pattern1]));
    assert!(!mock.has_patterns_exactly_in_order(vec![pattern2]));
    assert!(!mock.has_patterns_exactly_in_order(vec![pattern1, pattern2]));
    assert!(!mock.has_patterns_exactly_in_order(vec![pattern2, pattern1]));
    assert!(mock.has_patterns_exactly_in_order(vec![pattern2, pattern1, pattern2]));
    assert!(!mock.has_patterns_exactly_in_order(vec![pattern1, pattern2, pattern1]));
    assert!(!mock.has_patterns_exactly_in_order(vec![pattern1, pattern1, pattern2]));
    assert!(!mock.has_patterns_exactly_in_order(vec![pattern2, pattern2, pattern1]));
    assert!(!mock.has_patterns_exactly_in_order(vec![pattern3]));
    assert!(!mock.has_patterns_exactly_in_order(vec![pattern1, pattern3]));
}

#[test]
fn queries_never_mutate_recorded_state() {
    let mut mock = Mock::<(i32, i32), i32>::new(5);
    mock.call((42, 0));
    mock.call((42, 1));
    mock.return_values(vec![1]);
    let before = mock.calls();
    let pattern: fn(&(i32, i32)) -> bool = |args| args.0 == 42;
    assert!(mock.called_with((42, 0)));
    assert!(mock.has_calls(vec![(42, 1)]));
    assert!(mock.has_calls_in_order(vec![(42, 0), (42, 1)]));
    assert!(mock.has_calls_exactly(vec![(42, 0), (42, 1)]));
    assert!(mock.has_calls_exactly_in_order(vec![(42, 0), (42, 1)]));
    assert!(mock.called_with_pattern(&pattern));
    assert!(mock.has_patterns(vec![pattern]));
    assert!(mock.has_patterns_in_order(vec![pattern]));
    assert!(mock.called());
    assert_eq!(mock.num_calls(), 2);
    assert_eq!(mock.calls(), before);
    assert_eq!(mock.call((0, 0)), 1);
}

#[test]
fn unordered_elements_are_matcher_checks_multiplicity() {
    assert!(unordered_elements_are(&vec![1, 2, 3], vec![3, 1, 2]));
    assert!(unordered_elements_are(&vec![1, 2, 2], vec![2, 1, 2]));
    assert!(!unordered_elements_are(&vec![1, 2, 2], vec![1, 1, 2]));
    assert!(!unordered_elements_are(&vec![1, 2], vec![1, 2, 3]));
    let empty: Vec<i32> = vec![];
    assert!(unordered_elements_are(&empty, vec![]));
}

#[test]
fn when_sorted_matcher_checks_sorted_form() {
    assert!(when_sorted(&vec![1, 2, 3], vec![1, 2, 3]));
    assert!(when_sorted(&vec![3, 1, 2], vec![1, 2, 3]));
    assert!(!when_sorted(&vec![1, 2, 3], vec![3, 2, 1]));
    assert!(!when_sorted(&vec![3, 1, 4], vec![1, 2, 3]));
    assert!(when_sorted(&vec![2, 1, 2], vec![1, 2, 2]));
}

#[test]
fn is_length_matcher_applies_to_count() {
    let inner: fn(&usize) -> bool = |n| gt(n, 1usize);
    let empty_vec: Vec<i32> = vec![];
    assert!(!is_length(&empty_vec, &inner));
    assert!(!is_length(&vec![1], &inner));
    assert!(is_length(&vec![1, 2], &inner));
    assert!(is_length(&vec![1, 2, 3], &inner));
}

#[test]
fn each_matcher_requires_all_elements() {
    let inner: fn(&i32) -> bool = |arg| ge(arg, 5);
    assert!(!each(&vec![1, 2, 3], &inner));
    assert!(!each(&vec![1, 5, 3], &inner));
    assert!(each(&vec![5, 6, 7], &inner));
}

#[test]
fn empty_expectation_lists() {
    let mut mock = Mock::<i32, i32>::new(0);
    assert!(mock.has_calls(vec![]));
    assert!(!mock.has_calls_in_order(vec![]));
    assert!(mock.has_calls_exactly(vec![]));
    assert!(!mock.has_calls_exactly_in_order(vec![]));
    let no_patterns: Vec<fn(&i32) -> bool> = vec![];
    assert!(mock.has_patterns(no_patterns.clone()));
    assert!(!mock.has_patterns_in_order(no_patterns.clone()));
    assert!(mock.has_patterns_exactly(no_patterns.clone()));
    assert!(!mock.has_patterns_exactly_in_order(no_patterns));
    mock.call(1);
    assert!(mock.has_calls(vec![]));
    assert!(!mock.has_calls_exactly(vec![]));
}
