//! The library of individual predicate functions used as patterns in
//! verification queries: comparison, string, container and composite
//! matchers over a single argument value.

use vstd::prelude::*;
use vstd::multiset::Multiset;
use vstd::seq_lib::lemma_multiset_commutative;
use vstd::std_specs::cmp::PartialEqSpec;
use vstd::std_specs::cmp::PartialOrdSpec;
use vstd::std_specs::cmp::OrdSpec;
use core::cmp::Ordering;
use crate::equality::eq_is_structural;

verus! {

// ===========================================================================
// * Comparison matchers
// ===========================================================================

/// Matches any argument value.
pub fn any<T>(_arg: &T) -> (r: bool)
    ensures
        r == true,
{
    true
}

/// Matches iff `arg` equals `target_val`.
pub fn eq<T: PartialEq>(arg: &T, target_val: T) -> (r: bool)
    ensures
        T::obeys_eq_spec() ==> r == arg.eq_spec(&target_val),
        eq_is_structural::<T>() ==> r == (*arg == target_val),
{
    *arg == target_val
}

/// Matches iff `arg` does not equal `target_val`.
pub fn ne<T: PartialEq>(arg: &T, target_val: T) -> (r: bool)
    ensures
        T::obeys_eq_spec() ==> r == !arg.eq_spec(&target_val),
        eq_is_structural::<T>() ==> r == (*arg != target_val),
{
    *arg != target_val
}

/// Matches iff `arg` is less than `target_val`.
pub fn lt<T: PartialOrd>(arg: &T, target_val: T) -> (r: bool)
    ensures
        T::obeys_partial_cmp_spec() ==> r == (arg.partial_cmp_spec(&target_val) == Some(
            Ordering::Less,
        )),
{
    *arg < target_val
}

/// Matches iff `arg` is less than or equal to `target_val`.
pub fn le<T: PartialEq + PartialOrd>(arg: &T, target_val: T) -> (r: bool)
    ensures
        T::obeys_partial_cmp_spec() ==> r == (arg.partial_cmp_spec(&target_val) matches Some(
            Ordering::Less
            | Ordering::Equal,
        )),
{
    *arg <= target_val
}

/// Matches iff `arg` is greater than `target_val`.
pub fn gt<T: PartialOrd>(arg: &T, target_val: T) -> (r: bool)
    ensures
        T::obeys_partial_cmp_spec() ==> r == (arg.partial_cmp_spec(&target_val) == Some(
            Ordering::Greater,
        )),
{
    *arg > target_val
}

/// Matches iff `arg` is greater than or equal to `target_val`.
pub fn ge<T: PartialEq + PartialOrd>(arg: &T, target_val: T) -> (r: bool)
    ensures
        T::obeys_partial_cmp_spec() ==> r == (arg.partial_cmp_spec(&target_val) matches Some(
            Ordering::Greater
            | Ordering::Equal,
        )),
{
    *arg >= target_val
}

/// Matches iff `arg` lies in the exclusive range `(low, high)`.
pub fn between_exc<T: PartialOrd>(arg: &T, low: T, high: T) -> (r: bool)
    ensures
        T::obeys_partial_cmp_spec() ==> r == ((low.partial_cmp_spec(arg) == Some(Ordering::Less))
            && (arg.partial_cmp_spec(&high) == Some(Ordering::Less))),
{
    low < *arg && *arg < high
}

/// Matches iff `arg` lies in the inclusive range `[low, high]`.
pub fn between_inc<T: PartialEq + PartialOrd>(arg: &T, low: T, high: T) -> (r: bool)
    ensures
        T::obeys_partial_cmp_spec() ==> r == ((low.partial_cmp_spec(arg) matches Some(
            Ordering::Less
            | Ordering::Equal,
        )) && (arg.partial_cmp_spec(&high) matches Some(
            Ordering::Less
            | Ordering::Equal,
        ))),
{
    low <= *arg && *arg <= high
}

/// Matches iff `arg` is `Some` of a value that satisfies `matcher`.
pub fn is_some<T, M: Fn(&T) -> bool>(arg: &Option<T>, matcher: &M) -> (r: bool)
    requires
        forall|x: &T| #[trigger] call_requires(*matcher, (x,)),
    ensures
        arg is None ==> r == false,
        arg matches Some(x) ==> call_ensures(*matcher, (&x,), r),
{
    match arg {
        Some(x) => (*matcher)(x),
        None => false,
    }
}

/// Matches iff `arg` is `Ok` of a value that satisfies `matcher`.
pub fn is_ok<T, U, M: Fn(&T) -> bool>(arg: &Result<T, U>, matcher: &M) -> (r: bool)
    requires
        forall|x: &T| #[trigger] call_requires(*matcher, (x,)),
    ensures
        arg is Err ==> r == false,
        arg matches Ok(x) ==> call_ensures(*matcher, (&x,), r),
{
    match arg {
        Ok(x) => (*matcher)(x),
        Err(_) => false,
    }
}

/// Matches iff `arg` is `Err` of a value that satisfies `matcher`.
pub fn is_err<T, U, M: Fn(&U) -> bool>(arg: &Result<T, U>, matcher: &M) -> (r: bool)
    requires
        forall|x: &U| #[trigger] call_requires(*matcher, (x,)),
    ensures
        arg is Ok ==> r == false,
        arg matches Err(x) ==> call_ensures(*matcher, (&x,), r),
{
    match arg {
        Ok(_) => false,
        Err(x) => (*matcher)(x),
    }
}

// ===========================================================================
// * String matchers
// ===========================================================================

/// Some contiguous run of `text` is exactly `pattern`.
pub open spec fn has_substring(text: Seq<char>, pattern: Seq<char>) -> bool {
    exists|i: int|
        #![trigger text.subrange(i, i + pattern.len())]
        0 <= i <= text.len() - pattern.len() && text.subrange(i, i + pattern.len()) == pattern
}

/// Relies on str::contains with a &str pattern: true iff the pattern occurs
/// as a contiguous substring.
#[verifier::external_body]
fn str_contains(arg: &str, string: &str) -> (r: bool)
    ensures
        r == has_substring(arg@, string@),
{
    arg.contains(string)
}

/// Relies on str::starts_with with a &str pattern: true iff the string
/// begins with the pattern.
#[verifier::external_body]
fn str_starts_with(arg: &str, prefix: &str) -> (r: bool)
    ensures
        r == prefix@.is_prefix_of(arg@),
{
    arg.starts_with(prefix)
}

/// Relies on str::ends_with with a &str pattern: true iff the string ends
/// with the pattern.
#[verifier::external_body]
fn str_ends_with(arg: &str, suffix: &str) -> (r: bool)
    ensures
        r == suffix@.is_suffix_of(arg@),
{
    arg.ends_with(suffix)
}

/// What `str::to_lowercase` returns: a function of the characters alone.
pub uninterp spec fn lower_of(s: Seq<char>) -> Seq<char>;

/// Relies on str::to_lowercase: the result depends on the characters alone.
#[verifier::external_body]
fn lowercase(s: &str) -> (r: String)
    ensures
        r@ == lower_of(s@),
{
    s.to_lowercase()
}

/// Matches iff `arg` contains `string` as a contiguous substring.
pub fn has_substr(arg: &str, string: &str) -> (r: bool)
    ensures
        r == has_substring(arg@, string@),
{
    str_contains(arg, string)
}

/// Matches iff `arg` starts with `prefix`.
pub fn starts_with(arg: &str, prefix: &str) -> (r: bool)
    ensures
        r == prefix@.is_prefix_of(arg@),
{
    str_starts_with(arg, prefix)
}

/// Matches iff `arg` ends with `suffix`.
pub fn ends_with(arg: &str, suffix: &str) -> (r: bool)
    ensures
        r == suffix@.is_suffix_of(arg@),
{
    str_ends_with(arg, suffix)
}

/// Matches iff `arg`, lowercased, equals `string`.
pub fn eq_nocase(arg: &str, string: &str) -> (r: bool)
    ensures
        r == (lower_of(arg@) == string@),
{
    let lowered = lowercase(arg);
    lowered == string.to_owned()
}

/// Matches iff `arg`, even lowercased, differs from `string`.
pub fn ne_nocase(arg: &str, string: &str) -> (r: bool)
    ensures
        r == (lower_of(arg@) != string@),
{
    let lowered = lowercase(arg);
    !(lowered == string.to_owned())
}

// ===========================================================================
// * Container matchers
// ===========================================================================

/// Matches iff `arg` has no elements.
pub fn is_empty<T>(arg: &Vec<T>) -> (r: bool)
    ensures
        r == (arg@.len() == 0),
{
    arg.is_empty()
}

/// Matches iff the number of elements of `arg` satisfies `matcher`.
pub fn is_length<T, M: Fn(&usize) -> bool>(arg: &Vec<T>, matcher: &M) -> (r: bool)
    requires
        forall|x: &usize| #[trigger] call_requires(*matcher, (x,)),
    ensures
        exists|n: usize| n == arg@.len() && call_ensures(*matcher, (&n,), r),
{
    let n = arg.len();
    (*matcher)(&n)
}

/// Matches iff at least one element of `arg` satisfies `matcher`.
pub fn contains<T, M: Fn(&T) -> bool>(arg: &Vec<T>, matcher: &M) -> (r: bool)
    requires
        forall|x: &T| #[trigger] call_requires(*matcher, (x,)),
    ensures
        r ==> exists|i: int| 0 <= i < arg@.len() && call_ensures(*matcher, (&arg@[i],), true),
        !r ==> forall|i: int| 0 <= i < arg@.len() ==> call_ensures(*matcher, (&arg@[i],), false),
{
    let mut i: usize = 0;
    while i < arg.len()
        invariant
            i <= arg@.len(),
            forall|x: &T| #[trigger] call_requires(*matcher, (x,)),
            forall|i2: int| 0 <= i2 < i ==> call_ensures(*matcher, (&arg@[i2],), false),
        decreases arg@.len() - i,
    {
        if (*matcher)(&arg[i]) {
            return true;
        }
        i = i + 1;
    }
    false
}

/// Matches iff every element of `arg` satisfies `matcher`.
pub fn each<T, M: Fn(&T) -> bool>(arg: &Vec<T>, matcher: &M) -> (r: bool)
    requires
        forall|x: &T| #[trigger] call_requires(*matcher, (x,)),
    ensures
        r ==> forall|i: int| 0 <= i < arg@.len() ==> call_ensures(*matcher, (&arg@[i],), true),
        !r ==> exists|i: int| 0 <= i < arg@.len() && call_ensures(*matcher, (&arg@[i],), false),
{
    let mut i: usize = 0;
    while i < arg.len()
        invariant
            i <= arg@.len(),
            forall|x: &T| #[trigger] call_requires(*matcher, (x,)),
            forall|i2: int| 0 <= i2 < i ==> call_ensures(*matcher, (&arg@[i2],), true),
        decreases arg@.len() - i,
    {
        if !(*matcher)(&arg[i]) {
            return false;
        }
        i = i + 1;
    }
    true
}

/// Finds an element of `v` equal to `x`.
fn index_of_equal<T: PartialEq>(v: &Vec<T>, x: &T) -> (r: Option<usize>)
    ensures
        eq_is_structural::<T>() ==> match r {
            Some(j) => j < v@.len() && v@[j as int] == *x,
            None => forall|j2: int| 0 <= j2 < v@.len() ==> v@[j2] != *x,
        },
        r matches Some(j) ==> j < v@.len(),
{
    let mut j: usize = 0;
    while j < v.len()
        invariant
            j <= v@.len(),
            eq_is_structural::<T>() ==> forall|j2: int| 0 <= j2 < j ==> v@[j2] != *x,
        decreases v@.len() - j,
    {
        if v[j] == *x {
            return Some(j);
        }
        j = j + 1;
    }
    None
}

/// Consumes `expected`, matching each element of `actual` against the first
/// remaining equal element; decides multiset equality.
fn multiset_matches<T: PartialEq>(actual: &Vec<T>, expected: Vec<T>) -> (r: bool)
    ensures
        eq_is_structural::<T>() ==> r == (actual@.to_multiset() == expected@.to_multiset()),
{
    broadcast use vstd::seq_lib::group_to_multiset_ensures;

    if actual.len() != expected.len() {
        proof {
            if eq_is_structural::<T>() {
                assert(actual@.to_multiset().len() == actual@.len());
                assert(expected@.to_multiset().len() == expected@.len());
            }
        }
        return false;
    }
    let ghost exp0 = expected@;
    let mut rem = expected;
    let mut i: usize = 0;
    while i < actual.len()
        invariant
            i <= actual@.len(),
            exp0 == expected@,
            rem@.len() + i == exp0.len(),
            exp0.len() == actual@.len(),
            eq_is_structural::<T>() ==> exp0.to_multiset() == rem@.to_multiset().add(
                actual@.take(i as int).to_multiset(),
            ),
        decreases actual@.len() - i,
    {
        match index_of_equal(&rem, &actual[i]) {
            None => {
                proof {
                    broadcast use vstd::seq_lib::group_to_multiset_ensures;
                    broadcast use vstd::multiset::group_multiset_axioms;

                    if eq_is_structural::<T>() {
                        let x = actual@[i as int];
                        assert(!rem@.contains(x));
                        assert(rem@.to_multiset().count(x) == 0);
                        assert(actual@ =~= actual@.take(i as int) + actual@.skip(i as int));
                        lemma_multiset_commutative(
                            actual@.take(i as int),
                            actual@.skip(i as int),
                        );
                        assert(actual@.skip(i as int)[0] == x);
                        assert(actual@.skip(i as int).contains(x));
                        assert(actual@.skip(i as int).to_multiset().count(x) > 0);
                        assert(actual@.take(i as int).to_multiset().add(
                            actual@.skip(i as int).to_multiset(),
                        ).count(x) == actual@.take(i as int).to_multiset().count(x)
                            + actual@.skip(i as int).to_multiset().count(x));
                        assert(rem@.to_multiset().add(
                            actual@.take(i as int).to_multiset(),
                        ).count(x) == rem@.to_multiset().count(x) + actual@.take(
                            i as int,
                        ).to_multiset().count(x));
                        assert(actual@.to_multiset() == (actual@.take(i as int) + actual@.skip(
                            i as int,
                        )).to_multiset());
                        assert(actual@.to_multiset().count(x) == actual@.take(
                            i as int,
                        ).to_multiset().count(x) + actual@.skip(i as int).to_multiset().count(x));
                        assert(exp0.to_multiset().count(x) == actual@.take(
                            i as int,
                        ).to_multiset().count(x));
                        assert(actual@.to_multiset().count(x) > exp0.to_multiset().count(x));
                        assert(exp0 == expected@);
                        assert(actual@.to_multiset() != expected@.to_multiset());
                    }
                }
                return false;
            },
            Some(j) => {
                let ghost rem_before = rem@;
                let _ = rem.remove(j);
                proof {
                    broadcast use vstd::seq_lib::group_to_multiset_ensures;
                    broadcast use vstd::multiset::group_multiset_axioms;

                    if eq_is_structural::<T>() {
                        let x = actual@[i as int];
                        assert(rem_before[j as int] == x);
                        assert(rem@.to_multiset() =~= rem_before.to_multiset().remove(x));
                        assert(rem_before.contains(x));
                        assert(rem_before.to_multiset().count(x) > 0);
                        assert(actual@.take(i as int + 1) =~= actual@.take(i as int).push(x));
                        assert(actual@.take(i as int + 1).to_multiset() =~= actual@.take(
                            i as int,
                        ).to_multiset().insert(x));
                        assert(exp0.to_multiset() =~= rem@.to_multiset().add(
                            actual@.take(i as int + 1).to_multiset(),
                        ));
                    }
                }
            },
        }
        i = i + 1;
    }
    proof {
        broadcast use vstd::seq_lib::group_to_multiset_ensures;
        broadcast use vstd::multiset::group_multiset_axioms;

        if eq_is_structural::<T>() {
            assert(rem@.to_multiset().len() == 0);
            assert(rem@.to_multiset() =~= Multiset::<T>::empty());
            assert(actual@.take(actual@.len() as int) =~= actual@);
            assert(exp0.to_multiset() =~= actual@.to_multiset());
        }
    }
    true
}

/// Matches iff `arg` holds exactly the elements of `expected_elems`, with
/// the same multiplicities, in any order.
pub fn unordered_elements_are<T: PartialEq>(arg: &Vec<T>, expected_elems: Vec<T>) -> (r: bool)
    ensures
        eq_is_structural::<T>() ==> r == (arg@.to_multiset() == expected_elems@.to_multiset()),
{
    multiset_matches(arg, expected_elems)
}

/// Adjacent elements of `s` never decrease under `Ord`.
pub open spec fn sorted_ascending<T: Ord>(s: Seq<T>) -> bool {
    forall|i: int|
        #![trigger s[i].cmp_spec(&s[i + 1])]
        0 <= i && i + 1 < s.len() ==> s[i].cmp_spec(&s[i + 1]) != Ordering::Greater
}

/// Matches iff `arg`, once put in ascending order, is exactly `expected`:
/// `expected` is itself ascending and holds the same elements with the same
/// multiplicities.
pub fn when_sorted<T: PartialEq + Ord>(arg: &Vec<T>, expected: Vec<T>) -> (r: bool)
    ensures
        (eq_is_structural::<T>() && T::obeys_cmp_spec()) ==> r == (sorted_ascending(expected@)
            && arg@.to_multiset() == expected@.to_multiset()),
{
    let mut i: usize = 1;
    while i < expected.len()
        invariant
            1 <= i,
            T::obeys_cmp_spec() ==> forall|i2: int|
                #![trigger expected@[i2].cmp_spec(&expected@[i2 + 1])]
                0 <= i2 && i2 + 1 < i && i2 + 1 < expected@.len() ==> expected@[i2].cmp_spec(
                    &expected@[i2 + 1],
                ) != Ordering::Greater,
        decreases expected@.len() - i,
    {
        match expected[i - 1].cmp(&expected[i]) {
            Ordering::Greater => {
                proof {
                    if T::obeys_cmp_spec() {
                        assert(expected@[i - 1].cmp_spec(&expected@[i - 1 + 1])
                            == Ordering::Greater);
                    }
                }
                return false;
            },
            _ => {},
        }
        i = i + 1;
    }
    multiset_matches(arg, expected)
}

// ===========================================================================
// * Composite matchers
// ===========================================================================

/// Matches iff `arg` does not satisfy `matcher`.
pub fn not<T, M: Fn(&T) -> bool>(arg: &T, matcher: &M) -> (r: bool)
    requires
        call_requires(*matcher, (arg,)),
    ensures
        call_ensures(*matcher, (arg,), !r),
{
    !(*matcher)(arg)
}

/// Matches iff `arg` satisfies all of `matchers`; stops at the first that
/// rejects it.
pub fn all_of<T, M: Fn(&T) -> bool>(arg: &T, matchers: Vec<M>) -> (r: bool)
    requires
        forall|j: int| #![trigger matchers@[j]] 0 <= j < matchers@.len() ==> call_requires(
            matchers@[j],
            (arg,),
        ),
    ensures
        r ==> forall|j: int| #![trigger matchers@[j]] 0 <= j < matchers@.len() ==> call_ensures(
            matchers@[j],
            (arg,),
            true,
        ),
        !r ==> exists|j: int| #![trigger matchers@[j]] 0 <= j < matchers@.len() && call_ensures(
            matchers@[j],
            (arg,),
            false,
        ),
{
    let mut j: usize = 0;
    while j < matchers.len()
        invariant
            j <= matchers@.len(),
            forall|j2: int| #![trigger matchers@[j2]] 0 <= j2 < matchers@.len() ==> call_requires(
                matchers@[j2],
                (arg,),
            ),
            forall|j2: int| #![trigger matchers@[j2]] 0 <= j2 < j ==> call_ensures(
                matchers@[j2],
                (arg,),
                true,
            ),
        decreases matchers@.len() - j,
    {
        if !(matchers[j])(arg) {
            return false;
        }
        j = j + 1;
    }
    true
}

/// Matches iff `arg` satisfies at least one of `matchers`; stops at the
/// first that accepts it.
pub fn any_of<T, M: Fn(&T) -> bool>(arg: &T, matchers: Vec<M>) -> (r: bool)
    requires
        forall|j: int| #![trigger matchers@[j]] 0 <= j < matchers@.len() ==> call_requires(
            matchers@[j],
            (arg,),
        ),
    ensures
        r ==> exists|j: int| #![trigger matchers@[j]] 0 <= j < matchers@.len() && call_ensures(
            matchers@[j],
            (arg,),
            true,
        ),
        !r ==> forall|j: int| #![trigger matchers@[j]] 0 <= j < matchers@.len() ==> call_ensures(
            matchers@[j],
            (arg,),
            false,
        ),
{
    let mut j: usize = 0;
    while j < matchers.len()
        invariant
            j <= matchers@.len(),
            forall|j2: int| #![trigger matchers@[j2]] 0 <= j2 < matchers@.len() ==> call_requires(
                matchers@[j2],
                (arg,),
            ),
            forall|j2: int| #![trigger matchers@[j2]] 0 <= j2 < j ==> call_ensures(
                matchers@[j2],
                (arg,),
                false,
            ),
        decreases matchers@.len() - j,
    {
        if (matchers[j])(arg) {
            return true;
        }
        j = j + 1;
    }
    false
}

} // verus!
