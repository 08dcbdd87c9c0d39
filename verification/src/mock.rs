//! The call-recording and value-resolution engine, and the verification
//! queries over its recorded call history.

use vstd::prelude::*;
use vstd::pervasive::cloned;
use vstd::pervasive::VecAdditionalExecFns;
use crate::equality::eq_is_structural;
use crate::order::generate_permutations;
use crate::order::is_strictly_increasing;

verus! {

// ===========================================================================
// * Association lists
// ===========================================================================
// The per-argument override tables are association lists keyed by the call
// arguments; a lookup returns the value of the first entry whose key equals
// the probed key.

/// The value stored under `key`, if any entry carries it.
pub open spec fn assoc_lookup<K, V>(entries: Seq<(K, V)>, key: K) -> Option<V>
    decreases entries.len(),
{
    if entries.len() == 0 {
        None
    } else if entries[0].0 == key {
        Some(entries[0].1)
    } else {
        assoc_lookup(entries.drop_first(), key)
    }
}

proof fn lemma_assoc_lookup_none<K, V>(entries: Seq<(K, V)>, key: K)
    requires
        forall|j: int| 0 <= j < entries.len() ==> entries[j].0 != key,
    ensures
        assoc_lookup(entries, key) is None,
    decreases entries.len(),
{
    if entries.len() > 0 {
        assert(forall|j: int|
            0 <= j < entries.drop_first().len() ==> entries.drop_first()[j] == entries[j + 1]);
        lemma_assoc_lookup_none(entries.drop_first(), key);
    }
}

proof fn lemma_assoc_lookup_first<K, V>(entries: Seq<(K, V)>, key: K, i: int)
    requires
        0 <= i < entries.len(),
        entries[i].0 == key,
        forall|j: int| 0 <= j < i ==> entries[j].0 != key,
    ensures
        assoc_lookup(entries, key) == Some(entries[i].1),
    decreases i,
{
    if i > 0 {
        assert(forall|j: int|
            0 <= j < entries.drop_first().len() ==> entries.drop_first()[j] == entries[j + 1]);
        lemma_assoc_lookup_first(entries.drop_first(), key, i - 1);
    }
}

proof fn lemma_assoc_lookup_update_first<K, V>(entries: Seq<(K, V)>, key: K, value: V, i: int)
    requires
        0 <= i < entries.len(),
        entries[i].0 == key,
        forall|j: int| 0 <= j < i ==> entries[j].0 != key,
    ensures
        forall|k2: K| #[trigger] assoc_lookup(entries.update(i, (key, value)), k2) == (if k2 == key {
            Some(value)
        } else {
            assoc_lookup(entries, k2)
        }),
    decreases i,
{
    let updated = entries.update(i, (key, value));
    if i == 0 {
        assert forall|k2: K| #[trigger] assoc_lookup(updated, k2) == (if k2 == key {
            Some(value)
        } else {
            assoc_lookup(entries, k2)
        }) by {
            if k2 != key {
                assert(updated.drop_first() =~= entries.drop_first());
            }
        }
    } else {
        assert(forall|j: int|
            0 <= j < entries.drop_first().len() ==> entries.drop_first()[j] == entries[j + 1]);
        lemma_assoc_lookup_update_first(entries.drop_first(), key, value, i - 1);
        assert forall|k2: K| #[trigger] assoc_lookup(updated, k2) == (if k2 == key {
            Some(value)
        } else {
            assoc_lookup(entries, k2)
        }) by {
            assert(updated.drop_first() =~= entries.drop_first().update(i - 1, (key, value)));
            assert(updated[0] == entries[0]);
            assert(assoc_lookup(entries.drop_first().update(i - 1, (key, value)), k2) == (if k2
                == key {
                Some(value)
            } else {
                assoc_lookup(entries.drop_first(), k2)
            }));
        }
    }
}

proof fn lemma_assoc_lookup_push<K, V>(entries: Seq<(K, V)>, key: K, value: V)
    ensures
        forall|k2: K| #[trigger] assoc_lookup(entries.push((key, value)), k2) == (if assoc_lookup(
            entries,
            k2,
        ) is Some {
            assoc_lookup(entries, k2)
        } else if k2 == key {
            Some(value)
        } else {
            None
        }),
    decreases entries.len(),
{
    let pushed = entries.push((key, value));
    if entries.len() == 0 {
        assert forall|k2: K| #[trigger] assoc_lookup(pushed, k2) == (if assoc_lookup(
            entries,
            k2,
        ) is Some {
            assoc_lookup(entries, k2)
        } else if k2 == key {
            Some(value)
        } else {
            None
        }) by {
            assert(pushed.len() == 1);
            assert(pushed[0] == (key, value));
            if k2 == key {
                assert(assoc_lookup(pushed, k2) == Some(value));
            } else {
                assert(pushed.drop_first() =~= Seq::<(K, V)>::empty());
                assert(assoc_lookup(Seq::<(K, V)>::empty(), k2) is None);
                assert(assoc_lookup(pushed, k2) is None);
            }
        }
    } else {
        lemma_assoc_lookup_push(entries.drop_first(), key, value);
        assert forall|k2: K| #[trigger] assoc_lookup(pushed, k2) == (if assoc_lookup(
            entries,
            k2,
        ) is Some {
            assoc_lookup(entries, k2)
        } else if k2 == key {
            Some(value)
        } else {
            None
        }) by {
            assert(pushed[0] == entries[0]);
            assert(pushed.drop_first() =~= entries.drop_first().push((key, value)));
            assert(assoc_lookup(entries.drop_first().push((key, value)), k2) == (if assoc_lookup(
                entries.drop_first(),
                k2,
            ) is Some {
                assoc_lookup(entries.drop_first(), k2)
            } else if k2 == key {
                Some(value)
            } else {
                None
            }));
        }
    }
}

/// Finds the first entry whose key equals `key`.
fn assoc_find<K: PartialEq, V>(entries: &Vec<(K, V)>, key: &K) -> (r: Option<usize>)
    ensures
        eq_is_structural::<K>() ==> match r {
            Some(i) => i < entries@.len() && entries@[i as int].0 == *key && (forall|j: int|
                0 <= j < i ==> entries@[j].0 != *key),
            None => assoc_lookup(entries@, *key) is None,
        },
        r matches Some(i) ==> i < entries@.len(),
{
    let mut i: usize = 0;
    while i < entries.len()
        invariant
            i <= entries.len(),
            eq_is_structural::<K>() ==> forall|j: int| 0 <= j < i ==> entries@[j].0 != *key,
        decreases entries.len() - i,
    {
        if entries[i].0 == *key {
            return Some(i);
        }
        i = i + 1;
    }
    proof {
        if eq_is_structural::<K>() {
            lemma_assoc_lookup_none(entries@, *key);
        }
    }
    None
}

/// Replaces the value of the first entry stored under `key`, or appends a new
/// entry when none is.
fn assoc_upsert<K: PartialEq, V>(entries: &mut Vec<(K, V)>, key: K, value: V)
    ensures
        eq_is_structural::<K>() ==> forall|k2: K| #[trigger] assoc_lookup(final(entries)@, k2) == (
        if k2 == key {
            Some(value)
        } else {
            assoc_lookup(old(entries)@, k2)
        }),
        forall|i: int|
            0 <= i < final(entries)@.len() ==> final(entries)@[i].1 == value || (exists|j: int|
                0 <= j < old(entries)@.len() && old(entries)@[j].1 == final(entries)@[i].1),
{
    let found = assoc_find(entries, &key);
    match found {
        Some(i) => {
            entries.set(i, (key, value));
            proof {
                if eq_is_structural::<K>() {
                    lemma_assoc_lookup_update_first(old(entries)@, key, value, i as int);
                }
                assert forall|i2: int| 0 <= i2 < entries@.len() implies entries@[i2].1 == value
                    || (exists|j: int|
                    0 <= j < old(entries)@.len() && old(entries)@[j].1 == entries@[i2].1) by {
                    if i2 != i {
                        assert(old(entries)@[i2].1 == entries@[i2].1);
                    }
                }
            }
        },
        None => {
            entries.push((key, value));
            proof {
                if eq_is_structural::<K>() {
                    lemma_assoc_lookup_push(old(entries)@, key, value);
                }
                assert forall|i2: int| 0 <= i2 < entries@.len() implies entries@[i2].1 == value
                    || (exists|j: int|
                    0 <= j < old(entries)@.len() && old(entries)@[j].1 == entries@[i2].1) by {
                    if i2 < old(entries)@.len() {
                        assert(old(entries)@[i2].1 == entries@[i2].1);
                    }
                }
            }
        },
    }
}

// ===========================================================================
// * The mock itself
// ===========================================================================

/// Tracks the arguments of every invocation of a stubbed callable and
/// resolves each invocation's return value.
///
/// Every inspection and verification method borrows the mock immutably, so
/// no query can ever change the recorded calls or any resolution tier; only
/// `call` appends to the history, and only `call` consumes one-shot values.
///
/// `C` is the argument tuple of the stubbed callable and `R` its return
/// type; `F` is the type of the stored default and per-argument functions,
/// `G` the type of the stored default and per-argument closures. Both
/// default to plain function pointers.
pub struct Mock<C, R, F = fn(C) -> R, G = fn(C) -> R> {
    /// The fallback of last resort, always present.
    pub default_return_value: R,
    /// One-shot return values, stored in reverse so that popping from the
    /// back hands them out in the order they were specified.
    pub return_value_sequence: Vec<R>,
    /// The default function, exclusive with the default closure.
    pub default_fn: Option<F>,
    /// The default closure, exclusive with the default function.
    pub default_closure: Option<G>,
    /// Per-argument return-value overrides.
    pub return_values: Vec<(C, R)>,
    /// Per-argument function overrides.
    pub fns: Vec<(C, F)>,
    /// Per-argument closure overrides.
    pub closures: Vec<(C, G)>,
    /// The recorded call history, in call order.
    pub calls: Vec<C>,
}

/// Which of the seven precedence tiers resolves one invocation.
pub enum Tier {
    ArgumentClosure,
    ArgumentFn,
    ArgumentValue,
    DefaultClosure,
    DefaultFn,
    SequenceValue,
    DefaultValue,
}

impl<C, R, F, G> Mock<C, R, F, G> where
    C: Clone + PartialEq,
    R: Clone,
    F: Fn(C) -> R,
    G: Fn(C) -> R,
 {
    /// Every stored function and closure can be invoked on any argument
    /// value, and at most one of the two default behaviours is active.
    pub open spec fn wf(self) -> bool {
        &&& !(self.default_fn is Some && self.default_closure is Some)
        &&& (self.default_fn matches Some(f) ==> forall|a: C| #[trigger] call_requires(f, (a,)))
        &&& (self.default_closure matches Some(g) ==> forall|a: C| #[trigger] call_requires(
            g,
            (a,),
        ))
        &&& (forall|i: int, a: C|
            0 <= i < self.fns@.len() ==> #[trigger] call_requires(self.fns@[i].1, (a,)))
        &&& (forall|i: int, a: C|
            0 <= i < self.closures@.len() ==> #[trigger] call_requires(self.closures@[i].1, (a,)))
    }

    /// The one-shot values still pending, first to be handed out first.
    pub open spec fn pending_values(self) -> Seq<R> {
        self.return_value_sequence@.reverse()
    }

    /// The tier from which a call with `args` draws its return value,
    /// by decreasing specificity.
    pub open spec fn chosen_tier(self, args: C) -> Tier {
        if assoc_lookup(self.closures@, args) is Some {
            Tier::ArgumentClosure
        } else if assoc_lookup(self.fns@, args) is Some {
            Tier::ArgumentFn
        } else if assoc_lookup(self.return_values@, args) is Some {
            Tier::ArgumentValue
        } else if self.default_closure is Some {
            Tier::DefaultClosure
        } else if self.default_fn is Some {
            Tier::DefaultFn
        } else if self.return_value_sequence@.len() > 0 {
            Tier::SequenceValue
        } else {
            Tier::DefaultValue
        }
    }

    /// All stubbing state is the same in `self` and `other`; only the call
    /// history and the pending one-shot values may differ.
    pub open spec fn stubbing_preserved(self, other: Self) -> bool {
        &&& other.default_return_value == self.default_return_value
        &&& other.default_fn == self.default_fn
        &&& other.default_closure == self.default_closure
        &&& other.return_values@ == self.return_values@
        &&& other.fns@ == self.fns@
        &&& other.closures@ == self.closures@
    }

    /// How the return value `r` of a call with `args`, and the pending
    /// one-shot values after it, relate to the state `m` before the call.
    pub open spec fn call_resolution(m: Self, m2: Self, args: C, r: R) -> bool {
        match m.chosen_tier(args) {
            Tier::ArgumentClosure => {
                &&& m2.pending_values() == m.pending_values()
                &&& exists|a2: C|
                    #[trigger] cloned(args, a2) && call_ensures(
                        assoc_lookup(m.closures@, args)->Some_0,
                        (a2,),
                        r,
                    )
            },
            Tier::ArgumentFn => {
                &&& m2.pending_values() == m.pending_values()
                &&& exists|a2: C|
                    #[trigger] cloned(args, a2) && call_ensures(
                        assoc_lookup(m.fns@, args)->Some_0,
                        (a2,),
                        r,
                    )
            },
            Tier::ArgumentValue => {
                &&& m2.pending_values() == m.pending_values()
                &&& cloned(assoc_lookup(m.return_values@, args)->Some_0, r)
            },
            Tier::DefaultClosure => {
                &&& m2.pending_values() == m.pending_values()
                &&& exists|a2: C|
                    #[trigger] cloned(args, a2) && call_ensures(
                        m.default_closure->Some_0,
                        (a2,),
                        r,
                    )
            },
            Tier::DefaultFn => {
                &&& m2.pending_values() == m.pending_values()
                &&& exists|a2: C|
                    #[trigger] cloned(args, a2) && call_ensures(m.default_fn->Some_0, (a2,), r)
            },
            Tier::SequenceValue => {
                &&& r == m.pending_values().first()
                &&& m2.pending_values() == m.pending_values().drop_first()
            },
            Tier::DefaultValue => {
                &&& m2.pending_values() == m.pending_values()
                &&& cloned(m.default_return_value, r)
            },
        }
    }

    /// Creates a new mock that falls back to `return_value`.
    pub fn new(return_value: R) -> (m: Self)
        ensures
            m.wf(),
            m.default_return_value == return_value,
            m.return_value_sequence@ == Seq::<R>::empty(),
            m.default_fn is None,
            m.default_closure is None,
            m.return_values@ == Seq::<(C, R)>::empty(),
            m.fns@ == Seq::<(C, F)>::empty(),
            m.closures@ == Seq::<(C, G)>::empty(),
            m.calls@ == Seq::<C>::empty(),
    {
        Mock {
            default_return_value: return_value,
            return_value_sequence: Vec::new(),
            default_fn: None,
            default_closure: None,
            return_values: Vec::new(),
            fns: Vec::new(),
            closures: Vec::new(),
            calls: Vec::new(),
        }
    }

    /// Records `args` in the call history and resolves a return value by the
    /// precedence tiers: per-argument closure, function, then value; default
    /// closure or function; next pending one-shot value; default value.
    pub fn call(&mut self, args: C) -> (r: R)
        requires
            old(self).wf(),
        ensures
            final(self).wf(),
            final(self).calls@ == old(self).calls@.push(args),
            old(self).stubbing_preserved(*final(self)),
            final(self).pending_values() == old(self).pending_values()
                || final(self).pending_values() == old(self).pending_values().drop_first(),
            eq_is_structural::<C>() ==> Self::call_resolution(*old(self), *final(self), args, r),
    {
        let closure_idx = assoc_find(&self.closures, &args);
        let fn_idx = assoc_find(&self.fns, &args);
        let value_idx = assoc_find(&self.return_values, &args);
        let args2 = args.clone();
        proof {
            assert(cloned(args, args2));
        }
        self.calls.push(args);
        if let Some(i) = closure_idx {
            proof {
                if eq_is_structural::<C>() {
                    lemma_assoc_lookup_first(self.closures@, args, i as int);
                }
            }
            (self.closures[i].1)(args2)
        } else if let Some(i) = fn_idx {
            proof {
                if eq_is_structural::<C>() {
                    lemma_assoc_lookup_first(self.fns@, args, i as int);
                }
            }
            (self.fns[i].1)(args2)
        } else if let Some(i) = value_idx {
            proof {
                if eq_is_structural::<C>() {
                    lemma_assoc_lookup_first(self.return_values@, args, i as int);
                }
            }
            let r = self.return_values[i].1.clone();
            proof {
                assert(cloned(self.return_values@[i as int].1, r));
            }
            r
        } else {
            match &self.default_closure {
                Some(g) => g(args2),
                None => match &self.default_fn {
                    Some(f) => f(args2),
                    None => {
                        let popped = self.return_value_sequence.pop();
                        match popped {
                            Some(v) => {
                                proof {
                                    let s = old(self).return_value_sequence@;
                                    assert(s.last() == s.reverse().first());
                                    assert(s.drop_last().reverse() =~= s.reverse().drop_first());
                                }
                                v
                            },
                            None => self.default_return_value.clone(),
                        }
                    },
                },
            }
        }
    }

    /// Overrides the default return value, the tier of last resort.
    pub fn return_value(&mut self, value: R)
        ensures
            final(self).default_return_value == value,
            final(self).calls@ == old(self).calls@,
            final(self).pending_values() == old(self).pending_values(),
            final(self).default_fn == old(self).default_fn,
            final(self).default_closure == old(self).default_closure,
            final(self).return_values@ == old(self).return_values@,
            final(self).fns@ == old(self).fns@,
            final(self).closures@ == old(self).closures@,
            old(self).wf() ==> final(self).wf(),
    {
        self.default_return_value = value;
    }

    /// Replaces the pending one-shot values; they are handed out in the
    /// order they appear in `values`.
    pub fn return_values(&mut self, values: Vec<R>)
        ensures
            final(self).pending_values() == values@,
            final(self).calls@ == old(self).calls@,
            final(self).default_return_value == old(self).default_return_value,
            final(self).default_fn == old(self).default_fn,
            final(self).default_closure == old(self).default_closure,
            final(self).return_values@ == old(self).return_values@,
            final(self).fns@ == old(self).fns@,
            final(self).closures@ == old(self).closures@,
            old(self).wf() ==> final(self).wf(),
    {
        let mut vals = values;
        let mut rev: Vec<R> = Vec::new();
        while vals.len() > 0
            invariant
                rev@.len() + vals@.len() == values@.len(),
                forall|i: int| 0 <= i < vals@.len() ==> vals@[i] == values@[i],
                forall|i: int| 0 <= i < rev@.len() ==> rev@[i] == values@[values@.len() - 1 - i],
            decreases vals.len(),
        {
            match vals.pop() {
                Some(v) => {
                    rev.push(v);
                },
                None => {},
            }
        }
        self.return_value_sequence = rev;
        proof {
            assert(rev@.reverse() =~= values@);
        }
    }

    /// Overrides the return value for one exact argument value.
    pub fn return_value_for(&mut self, args: C, return_value: R)
        ensures
            final(self).calls@ == old(self).calls@,
            final(self).pending_values() == old(self).pending_values(),
            final(self).default_return_value == old(self).default_return_value,
            final(self).default_fn == old(self).default_fn,
            final(self).default_closure == old(self).default_closure,
            final(self).fns@ == old(self).fns@,
            final(self).closures@ == old(self).closures@,
            eq_is_structural::<C>() ==> forall|k: C| #[trigger] assoc_lookup(
                final(self).return_values@,
                k,
            ) == (if k == args {
                Some(return_value)
            } else {
                assoc_lookup(old(self).return_values@, k)
            }),
            old(self).wf() ==> final(self).wf(),
    {
        assoc_upsert(&mut self.return_values, args, return_value);
    }

    /// Makes `default_fn` decide the return value when no per-argument
    /// override applies; clears any default closure.
    pub fn use_fn(&mut self, default_fn: F)
        requires
            forall|a: C| #[trigger] call_requires(default_fn, (a,)),
        ensures
            final(self).default_fn == Some(default_fn),
            final(self).default_closure is None,
            final(self).calls@ == old(self).calls@,
            final(self).pending_values() == old(self).pending_values(),
            final(self).default_return_value == old(self).default_return_value,
            final(self).return_values@ == old(self).return_values@,
            final(self).fns@ == old(self).fns@,
            final(self).closures@ == old(self).closures@,
            old(self).wf() ==> final(self).wf(),
    {
        self.default_closure = None;
        self.default_fn = Some(default_fn);
    }

    /// Makes `function` decide the return value when the call arguments
    /// equal `args`.
    pub fn use_fn_for(&mut self, args: C, function: F)
        requires
            forall|a: C| #[trigger] call_requires(function, (a,)),
        ensures
            final(self).calls@ == old(self).calls@,
            final(self).pending_values() == old(self).pending_values(),
            final(self).default_return_value == old(self).default_return_value,
            final(self).default_fn == old(self).default_fn,
            final(self).default_closure == old(self).default_closure,
            final(self).return_values@ == old(self).return_values@,
            final(self).closures@ == old(self).closures@,
            eq_is_structural::<C>() ==> forall|k: C| #[trigger] assoc_lookup(final(self).fns@, k)
                == (if k == args {
                Some(function)
            } else {
                assoc_lookup(old(self).fns@, k)
            }),
            old(self).wf() ==> final(self).wf(),
    {
        assoc_upsert(&mut self.fns, args, function);
        proof {
            if old(self).wf() {
                assert forall|i: int, a: C| 0 <= i < self.fns@.len() implies #[trigger] call_requires(
                    self.fns@[i].1,
                    (a,),
                ) by {
                    if self.fns@[i].1 != function {
                        let j = choose|j: int|
                            0 <= j < old(self).fns@.len() && old(self).fns@[j].1 == self.fns@[i].1;
                        assert(call_requires(old(self).fns@[j].1, (a,)));
                    }
                }
            }
        }
    }

    /// Makes `default_closure` decide the return value when no per-argument
    /// override applies; clears any default function.
    pub fn use_closure(&mut self, default_closure: G)
        requires
            forall|a: C| #[trigger] call_requires(default_closure, (a,)),
        ensures
            final(self).default_closure == Some(default_closure),
            final(self).default_fn is None,
            final(self).calls@ == old(self).calls@,
            final(self).pending_values() == old(self).pending_values(),
            final(self).default_return_value == old(self).default_return_value,
            final(self).return_values@ == old(self).return_values@,
            final(self).fns@ == old(self).fns@,
            final(self).closures@ == old(self).closures@,
            old(self).wf() ==> final(self).wf(),
    {
        self.default_fn = None;
        self.default_closure = Some(default_closure);
    }

    /// Makes `closure` decide the return value when the call arguments
    /// equal `args`.
    pub fn use_closure_for(&mut self, args: C, closure: G)
        requires
            forall|a: C| #[trigger] call_requires(closure, (a,)),
        ensures
            final(self).calls@ == old(self).calls@,
            final(self).pending_values() == old(self).pending_values(),
            final(self).default_return_value == old(self).default_return_value,
            final(self).default_fn == old(self).default_fn,
            final(self).default_closure == old(self).default_closure,
            final(self).return_values@ == old(self).return_values@,
            final(self).fns@ == old(self).fns@,
            eq_is_structural::<C>() ==> forall|k: C| #[trigger] assoc_lookup(
                final(self).closures@,
                k,
            ) == (if k == args {
                Some(closure)
            } else {
                assoc_lookup(old(self).closures@, k)
            }),
            old(self).wf() ==> final(self).wf(),
    {
        assoc_upsert(&mut self.closures, args, closure);
        proof {
            if old(self).wf() {
                assert forall|i: int, a: C| 0 <= i < self.closures@.len() implies #[trigger] call_requires(
                    self.closures@[i].1,
                    (a,),
                ) by {
                    if self.closures@[i].1 != closure {
                        let j = choose|j: int|
                            0 <= j < old(self).closures@.len() && old(self).closures@[j].1
                                == self.closures@[i].1;
                        assert(call_requires(old(self).closures@[j].1, (a,)));
                    }
                }
            }
        }
    }

    /// True iff the mock has been called at least once.
    pub fn called(&self) -> (r: bool)
        ensures
            r == (self.calls@.len() > 0),
    {
        !self.calls.is_empty()
    }

    /// The number of recorded calls.
    pub fn num_calls(&self) -> (r: usize)
        ensures
            r == self.calls@.len(),
    {
        self.calls.len()
    }

    /// A defensive copy of the call history, in call order.
    pub fn calls(&self) -> (r: Vec<C>)
        ensures
            r@.len() == self.calls@.len(),
            forall|i: int| 0 <= i < r@.len() ==> cloned(self.calls@[i], r@[i]),
    {
        self.calls.clone()
    }

    /// Clears the call history; every resolution tier is left untouched.
    pub fn reset_calls(&mut self)
        ensures
            final(self).calls@ == Seq::<C>::empty(),
            final(self).pending_values() == old(self).pending_values(),
            final(self).default_return_value == old(self).default_return_value,
            final(self).default_fn == old(self).default_fn,
            final(self).default_closure == old(self).default_closure,
            final(self).return_values@ == old(self).return_values@,
            final(self).fns@ == old(self).fns@,
            final(self).closures@ == old(self).closures@,
            old(self).wf() ==> final(self).wf(),
    {
        self.calls.clear()
    }

    /// Compares each expected argument value against every recorded call by
    /// equality and collects, per expectation, the indices of the calls that
    /// equal it.
    pub fn get_match_info(&self, expected_calls: &Vec<C>) -> (info: MatchInfo)
        ensures
            info.num_expectations == expected_calls@.len(),
            info.num_actual_calls == self.calls@.len(),
            info.match_indices@.len() == expected_calls@.len(),
            eq_is_structural::<C>() ==> forall|j: int, u: usize|
                0 <= j < expected_calls@.len() ==> (#[trigger] info.match_indices.deep_view()[j].contains(u)
                    <==> u < self.calls@.len() && self.calls@[u as int] == expected_calls@[j]),
    {
        let mut match_indices: Vec<Vec<usize>> = Vec::new();
        let mut j: usize = 0;
        while j < expected_calls.len()
            invariant
                j <= expected_calls@.len(),
                match_indices@.len() == j,
                eq_is_structural::<C>() ==> forall|j2: int, u: usize|
                    0 <= j2 < j ==> (#[trigger] match_indices.deep_view()[j2].contains(u) <==> u
                        < self.calls@.len() && self.calls@[u as int] == expected_calls@[j2]),
            decreases expected_calls@.len() - j,
        {
            let mut matching: Vec<usize> = Vec::new();
            let mut u: usize = 0;
            while u < self.calls.len()
                invariant
                    u <= self.calls@.len(),
                    j < expected_calls@.len(),
                    eq_is_structural::<C>() ==> forall|w: usize|
                        #[trigger] matching@.contains(w) <==> w < u && self.calls@[w as int]
                            == expected_calls@[j as int],
                decreases self.calls@.len() - u,
            {
                let ghost pre = matching@;
                if self.calls[u] == expected_calls[j] {
                    matching.push(u);
                }
                proof {
                    if eq_is_structural::<C>() {
                        assert forall|w: usize| #[trigger] matching@.contains(w) <==> w < u + 1
                            && self.calls@[w as int] == expected_calls@[j as int] by {
                            if matching@ != pre {
                                assert(matching@ == pre.push(u));
                                assert(matching@.contains(w) <==> (pre.contains(w) || w == u)) by {
                                    if matching@.contains(w) {
                                        let x = choose|x: int|
                                            0 <= x < matching@.len() && matching@[x] == w;
                                        if x < pre.len() {
                                            assert(pre[x] == w);
                                        }
                                    }
                                    if pre.contains(w) {
                                        let x = choose|x: int|
                                            0 <= x < pre.len() && pre[x] == w;
                                        assert(matching@[x] == w);
                                    }
                                    assert(matching@[pre.len() as int] == u);
                                }
                            }
                        }
                    }
                }
                u = u + 1;
            }
            let ghost before = match_indices.deep_view();
            let ghost prev = match_indices@;
            match_indices.push(matching);
            proof {
                if eq_is_structural::<C>() {
                    assert forall|j2: int, w: usize|
                        0 <= j2 < j + 1 implies (#[trigger] match_indices.deep_view()[j2].contains(
                        w,
                    ) <==> w < self.calls@.len() && self.calls@[w as int] == expected_calls@[j2])
                        by {
                        lemma_deep_view_index(&match_indices, j2);
                        if j2 < j {
                            assert(match_indices@[j2] == prev[j2]);
                            assert(match_indices.deep_view()[j2] == before[j2]);
                            assert(before[j2].contains(w) <==> w < self.calls@.len()
                                && self.calls@[w as int] == expected_calls@[j2]);
                        } else {
                            assert(match_indices@[j2]@ == matching@);
                        }
                    }
                }
            }
            j = j + 1;
        }
        MatchInfo {
            num_expectations: expected_calls.len(),
            num_actual_calls: self.calls.len(),
            match_indices,
        }
    }

    /// True iff some recorded call equals `args`.
    pub fn called_with(&self, args: C) -> (r: bool)
        ensures
            eq_is_structural::<C>() ==> r == self.calls@.contains(args),
    {
        let expected: Vec<C> = vec![args];
        let info = self.get_match_info(&expected);
        let r = info.expectations_matched();
        proof {
            if eq_is_structural::<C>() {
                let ms = info.match_indices.deep_view();
                if self.calls@.contains(expected@[0]) {
                    assert(self.calls@.len() == self.calls.len());
                    let i = choose|i: int|
                        0 <= i < self.calls@.len() && self.calls@[i] == expected@[0];
                    assert(ms[0].contains(i as usize));
                }
                if ms[0].len() > 0 {
                    assert(ms[0].contains(ms[0][0]));
                    assert(self.calls@[ms[0][0] as int] == expected@[0]);
                    assert(self.calls@.contains(expected@[0]));
                }
            }
        }
        r
    }

    /// True iff every element of `calls` equals at least one recorded call,
    /// in any order; each expectation is matched independently.
    pub fn has_calls(&self, calls: Vec<C>) -> (r: bool)
        ensures
            eq_is_structural::<C>() ==> r == spec_has_calls(self.calls@, calls@),
    {
        let info = self.get_match_info(&calls);
        let r = info.expectations_matched();
        proof {
            if eq_is_structural::<C>() {
                self.lemma_match_info_bridges(&info, calls@);
            }
        }
        r
    }

    /// True iff every element of `calls` equals at least one recorded call
    /// and the matches can be chosen in the order the expectations are
    /// given.
    pub fn has_calls_in_order(&self, calls: Vec<C>) -> (r: bool)
        ensures
            eq_is_structural::<C>() ==> r == spec_has_calls_in_order(self.calls@, calls@),
    {
        let info = self.get_match_info(&calls);
        let r = info.expectations_matched_in_order();
        proof {
            if eq_is_structural::<C>() {
                self.lemma_match_info_bridges(&info, calls@);
            }
        }
        r
    }

    /// True iff every element of `calls` equals at least one recorded call
    /// and the mock was called exactly as many times as there are
    /// expectations.
    pub fn has_calls_exactly(&self, calls: Vec<C>) -> (r: bool)
        ensures
            eq_is_structural::<C>() ==> r == spec_has_calls_exactly(self.calls@, calls@),
    {
        let info = self.get_match_info(&calls);
        let r = info.expectations_matched_exactly();
        proof {
            if eq_is_structural::<C>() {
                self.lemma_match_info_bridges(&info, calls@);
            }
        }
        r
    }

    /// True iff the recorded calls equal the expectations one for one, in
    /// the order the expectations are given.
    pub fn has_calls_exactly_in_order(&self, calls: Vec<C>) -> (r: bool)
        ensures
            eq_is_structural::<C>() ==> r == spec_has_calls_exactly_in_order(self.calls@, calls@),
    {
        let info = self.get_match_info(&calls);
        let r = info.expectations_matched_in_order_exactly();
        proof {
            if eq_is_structural::<C>() {
                self.lemma_match_info_bridges(&info, calls@);
            }
        }
        r
    }

    /// Relates the per-expectation match lists back to the recorded call
    /// history: matching, and matching in order, mean the same thing on
    /// both sides.
    proof fn lemma_match_info_bridges(&self, info: &MatchInfo, expected: Seq<C>)
        requires
            info.match_indices@.len() == expected.len(),
            forall|j: int, u: usize|
                0 <= j < expected.len() ==> (#[trigger] info.match_indices.deep_view()[j].contains(
                    u,
                ) <==> u < self.calls@.len() && self.calls@[u as int] == expected[j]),
        ensures
            all_expectations_matched(info.match_indices.deep_view()) == spec_has_calls(
                self.calls@,
                expected,
            ),
            ordered_pick_exists(info.match_indices.deep_view()) == increasing_match_exists(
                self.calls@,
                expected,
            ),
    {
        let ms = info.match_indices.deep_view();
        assert(ms.len() == expected.len());
        if all_expectations_matched(ms) {
            assert forall|j: int| 0 <= j < expected.len() implies self.calls@.contains(
                expected[j],
            ) by {
                assert(ms[j].contains(ms[j][0]));
                assert(self.calls@[ms[j][0] as int] == expected[j]);
            }
        }
        if spec_has_calls(self.calls@, expected) {
            assert(self.calls@.len() == self.calls.len());
            assert forall|j: int| 0 <= j < ms.len() implies ms[j].len() > 0 by {
                let i = choose|i: int| 0 <= i < self.calls@.len() && self.calls@[i] == expected[j];
                assert(ms[j].contains(i as usize));
            }
        }
        if ordered_pick_exists(ms) {
            let asn = choose|asn: Seq<usize>| is_ordered_pick(ms, asn);
            assert(is_increasing_match(self.calls@, expected, asn));
        }
        if increasing_match_exists(self.calls@, expected) {
            let asn = choose|asn: Seq<usize>| is_increasing_match(self.calls@, expected, asn);
            assert(is_ordered_pick(ms, asn)) by {
                assert forall|j: int| 0 <= j < ms.len() implies ms[j].contains(asn[j]) by {
                    assert(asn[j] < self.calls@.len() && self.calls@[asn[j] as int] == expected[j]);
                }
            }
        }
    }

    /// Compares each pattern against every recorded call and collects, per
    /// pattern, the indices of the calls it accepts.
    pub fn get_match_info_pattern<P: Fn(&C) -> bool>(&self, patterns: &Vec<P>) -> (info: MatchInfo)
        requires
            forall|j: int, a: &C|
                0 <= j < patterns@.len() ==> #[trigger] call_requires(patterns@[j], (a,)),
        ensures
            info.num_expectations == patterns@.len(),
            info.num_actual_calls == self.calls@.len(),
            info.match_indices@.len() == patterns@.len(),
            forall|j: int, u: usize|
                0 <= j < patterns@.len() && u < self.calls@.len() ==> call_ensures(
                    patterns@[j],
                    (&self.calls@[u as int],),
                    #[trigger] info.match_indices.deep_view()[j].contains(u),
                ),
            forall|j: int, u: usize|
                0 <= j < patterns@.len() && #[trigger] info.match_indices.deep_view()[j].contains(
                    u,
                ) ==> u < self.calls@.len(),
    {
        let mut match_indices: Vec<Vec<usize>> = Vec::new();
        let mut j: usize = 0;
        while j < patterns.len()
            invariant
                j <= patterns@.len(),
                match_indices@.len() == j,
                forall|j2: int, a: &C|
                    0 <= j2 < patterns@.len() ==> #[trigger] call_requires(patterns@[j2], (a,)),
                forall|j2: int, u: usize|
                    0 <= j2 < j && u < self.calls@.len() ==> call_ensures(
                        patterns@[j2],
                        (&self.calls@[u as int],),
                        #[trigger] match_indices.deep_view()[j2].contains(u),
                    ),
                forall|j2: int, u: usize|
                    0 <= j2 < j && #[trigger] match_indices.deep_view()[j2].contains(u) ==> u
                        < self.calls@.len(),
            decreases patterns@.len() - j,
        {
            let mut matching: Vec<usize> = Vec::new();
            let mut u: usize = 0;
            while u < self.calls.len()
                invariant
                    u <= self.calls@.len(),
                    j < patterns@.len(),
                    forall|a: &C| #[trigger] call_requires(patterns@[j as int], (a,)),
                    forall|w: usize| #[trigger] matching@.contains(w) ==> w < u,
                    forall|w: usize|
                        w < u ==> call_ensures(
                            patterns@[j as int],
                            (&self.calls@[w as int],),
                            #[trigger] matching@.contains(w),
                        ),
                decreases self.calls@.len() - u,
            {
                let ghost pre = matching@;
                let accepted = (patterns[j])(&self.calls[u]);
                if accepted {
                    matching.push(u);
                }
                proof {
                    assert forall|w: usize| #[trigger] matching@.contains(w) <==> (pre.contains(w)
                        || (accepted && w == u)) by {
                        if matching@ != pre {
                            if matching@.contains(w) {
                                let x = choose|x: int|
                                    0 <= x < matching@.len() && matching@[x] == w;
                                if x < pre.len() {
                                    assert(pre[x] == w);
                                }
                            }
                            if pre.contains(w) {
                                let x = choose|x: int| 0 <= x < pre.len() && pre[x] == w;
                                assert(matching@[x] == w);
                            }
                            assert(matching@[pre.len() as int] == u);
                        }
                    }
                }
                u = u + 1;
            }
            let ghost before = match_indices.deep_view();
            let ghost prev = match_indices@;
            match_indices.push(matching);
            proof {
                assert forall|j2: int, w: usize|
                    0 <= j2 < j + 1 && w < self.calls@.len() implies call_ensures(
                    patterns@[j2],
                    (&self.calls@[w as int],),
                    #[trigger] match_indices.deep_view()[j2].contains(w),
                ) by {
                    lemma_deep_view_index(&match_indices, j2);
                    if j2 < j {
                        assert(match_indices@[j2] == prev[j2]);
                        assert(match_indices.deep_view()[j2] == before[j2]);
                    } else {
                        assert(match_indices@[j2]@ == matching@);
                    }
                }
                assert forall|j2: int, w: usize|
                    0 <= j2 < j + 1 && #[trigger] match_indices.deep_view()[j2].contains(w) implies w
                    < self.calls@.len() by {
                    lemma_deep_view_index(&match_indices, j2);
                    if j2 < j {
                        assert(match_indices@[j2] == prev[j2]);
                        assert(match_indices.deep_view()[j2] == before[j2]);
                    } else {
                        assert(match_indices@[j2]@ == matching@);
                    }
                }
            }
            j = j + 1;
        }
        MatchInfo {
            num_expectations: patterns.len(),
            num_actual_calls: self.calls.len(),
            match_indices,
        }
    }

    /// True iff some recorded call satisfies `pattern`.
    pub fn called_with_pattern<P: Fn(&C) -> bool>(&self, pattern: &P) -> (r: bool)
        requires
            forall|a: &C| #[trigger] call_requires(*pattern, (a,)),
        ensures
            r ==> exists|i: int|
                0 <= i < self.calls@.len() && call_ensures(*pattern, (&self.calls@[i],), true),
            !r ==> forall|i: int|
                0 <= i < self.calls@.len() ==> call_ensures(*pattern, (&self.calls@[i],), false),
    {
        let mut i: usize = 0;
        while i < self.calls.len()
            invariant
                i <= self.calls@.len(),
                forall|a: &C| #[trigger] call_requires(*pattern, (a,)),
                forall|i2: int|
                    0 <= i2 < i ==> call_ensures(*pattern, (&self.calls@[i2],), false),
            decreases self.calls@.len() - i,
        {
            if (*pattern)(&self.calls[i]) {
                return true;
            }
            i = i + 1;
        }
        false
    }

    /// True iff every pattern accepts at least one recorded call, in any
    /// order; the same call may satisfy several patterns.
    pub fn has_patterns<P: Fn(&C) -> bool>(&self, patterns: Vec<P>) -> (r: bool)
        requires
            forall|j: int, a: &C|
                0 <= j < patterns@.len() ==> #[trigger] call_requires(patterns@[j], (a,)),
        ensures
            r ==> forall|j: int|
                #![trigger patterns@[j]]
                0 <= j < patterns@.len() ==> some_call_accepted(self.calls@, patterns@[j]),
            !r ==> exists|j: int|
                #![trigger patterns@[j]]
                0 <= j < patterns@.len() && all_calls_rejected(self.calls@, patterns@[j]),
    {
        let info = self.get_match_info_pattern(&patterns);
        let r = info.expectations_matched();
        proof {
            self.lemma_pattern_matched_bridges(&info, patterns@);
        }
        r
    }

    /// True iff every pattern accepts at least one recorded call and the
    /// accepting calls can be chosen in the order the patterns are given.
    pub fn has_patterns_in_order<P: Fn(&C) -> bool>(&self, patterns: Vec<P>) -> (r: bool)
        requires
            forall|j: int, a: &C|
                0 <= j < patterns@.len() ==> #[trigger] call_requires(patterns@[j], (a,)),
        ensures
            r ==> patterns@.len() > 0 && (exists|asn: Seq<usize>|
                is_increasing_pattern_match(self.calls@, patterns@, asn)),
            !r ==> patterns@.len() == 0 || (forall|asn: Seq<usize>|
                #![auto]
                (asn.len() == patterns@.len() && (forall|j: int|
                    0 <= j < asn.len() ==> asn[j] < self.calls@.len())
                    && crate::order::strictly_increasing(asn)) ==> exists|j: int|
                    0 <= j < patterns@.len() && call_ensures(
                        patterns@[j],
                        (&self.calls@[asn[j] as int],),
                        false,
                    )),
    {
        let info = self.get_match_info_pattern(&patterns);
        let r = info.expectations_matched_in_order();
        proof {
            self.lemma_pattern_info_bridges(&info, patterns@, r);
        }
        r
    }

    /// True iff every pattern accepts at least one recorded call and the
    /// mock was called exactly as many times as there are patterns.
    pub fn has_patterns_exactly<P: Fn(&C) -> bool>(&self, patterns: Vec<P>) -> (r: bool)
        requires
            forall|j: int, a: &C|
                0 <= j < patterns@.len() ==> #[trigger] call_requires(patterns@[j], (a,)),
        ensures
            r ==> patterns@.len() == self.calls@.len() && (forall|j: int|
                #![trigger patterns@[j]]
                0 <= j < patterns@.len() ==> some_call_accepted(self.calls@, patterns@[j])),
            !r ==> patterns@.len() != self.calls@.len() || (exists|j: int|
                #![trigger patterns@[j]]
                0 <= j < patterns@.len() && all_calls_rejected(self.calls@, patterns@[j])),
    {
        let info = self.get_match_info_pattern(&patterns);
        let r = info.expectations_matched_exactly();
        proof {
            self.lemma_pattern_matched_bridges(&info, patterns@);
        }
        r
    }

    /// True iff the recorded calls satisfy the patterns one for one, in the
    /// order the patterns are given.
    pub fn has_patterns_exactly_in_order<P: Fn(&C) -> bool>(&self, patterns: Vec<P>) -> (r: bool)
        requires
            forall|j: int, a: &C|
                0 <= j < patterns@.len() ==> #[trigger] call_requires(patterns@[j], (a,)),
        ensures
            r ==> patterns@.len() == self.calls@.len() && patterns@.len() > 0 && (exists|
                asn: Seq<usize>,
            |
                is_increasing_pattern_match(self.calls@, patterns@, asn)),
            !r ==> patterns@.len() != self.calls@.len() || patterns@.len() == 0 || (forall|
                asn: Seq<usize>,
            |
                #![auto]
                (asn.len() == patterns@.len() && (forall|j: int|
                    0 <= j < asn.len() ==> asn[j] < self.calls@.len())
                    && crate::order::strictly_increasing(asn)) ==> exists|j: int|
                    0 <= j < patterns@.len() && call_ensures(
                        patterns@[j],
                        (&self.calls@[asn[j] as int],),
                        false,
                    )),
    {
        let info = self.get_match_info_pattern(&patterns);
        let r = info.expectations_matched_in_order_exactly();
        proof {
            self.lemma_pattern_info_bridges(&info, patterns@, info.match_indices@.len() > 0
                && ordered_pick_exists(info.match_indices.deep_view()));
        }
        r
    }

    /// Relates the per-pattern match lists back to the recorded calls: a
    /// non-empty list means some call was accepted, an empty one that every
    /// call was rejected.
    proof fn lemma_pattern_matched_bridges<P: Fn(&C) -> bool>(
        &self,
        info: &MatchInfo,
        patterns: Seq<P>,
    )
        requires
            info.match_indices@.len() == patterns.len(),
            forall|j: int, u: usize|
                0 <= j < patterns.len() && u < self.calls@.len() ==> call_ensures(
                    patterns[j],
                    (&self.calls@[u as int],),
                    #[trigger] info.match_indices.deep_view()[j].contains(u),
                ),
            forall|j: int, u: usize|
                0 <= j < patterns.len() && #[trigger] info.match_indices.deep_view()[j].contains(
                    u,
                ) ==> u < self.calls@.len(),
        ensures
            all_expectations_matched(info.match_indices.deep_view()) ==> forall|j: int|
                #![trigger patterns[j]]
                0 <= j < patterns.len() ==> some_call_accepted(self.calls@, patterns[j]),
            !all_expectations_matched(info.match_indices.deep_view()) ==> exists|j: int|
                #![trigger patterns[j]]
                0 <= j < patterns.len() && all_calls_rejected(self.calls@, patterns[j]),
    {
        let ms = info.match_indices.deep_view();
        if all_expectations_matched(ms) {
            assert forall|j: int| #![trigger patterns[j]] 0 <= j < patterns.len() implies
                some_call_accepted(self.calls@, patterns[j]) by {
                let u = ms[j][0];
                assert(ms[j].contains(u));
                assert(call_ensures(patterns[j], (&self.calls@[u as int],), true));
                assert(0 <= u as int && (u as int) < self.calls@.len() && call_ensures(
                    patterns[j],
                    (&self.calls@[u as int],),
                    true,
                ));
            }
        } else {
            let j0 = choose|j0: int| 0 <= j0 < ms.len() && !(ms[j0].len() > 0);
            assert(all_calls_rejected(self.calls@, patterns[j0])) by {
                assert(self.calls@.len() == self.calls.len());
                assert forall|i: int| 0 <= i < self.calls@.len() implies call_ensures(
                    patterns[j0],
                    (&self.calls@[i],),
                    false,
                ) by {
                    assert(!ms[j0].contains(i as usize));
                }
            }
        }
    }

    /// Relates the per-pattern match lists back to the recorded calls: an
    /// ordered pick among the lists is an ordered pattern match, and the
    /// absence of one refutes every candidate assignment.
    proof fn lemma_pattern_info_bridges<P: Fn(&C) -> bool>(
        &self,
        info: &MatchInfo,
        patterns: Seq<P>,
        r: bool,
    )
        requires
            info.match_indices@.len() == patterns.len(),
            forall|j: int, u: usize|
                0 <= j < patterns.len() && u < self.calls@.len() ==> call_ensures(
                    patterns[j],
                    (&self.calls@[u as int],),
                    #[trigger] info.match_indices.deep_view()[j].contains(u),
                ),
            forall|j: int, u: usize|
                0 <= j < patterns.len() && #[trigger] info.match_indices.deep_view()[j].contains(
                    u,
                ) ==> u < self.calls@.len(),
            r == (info.match_indices@.len() > 0 && ordered_pick_exists(
                info.match_indices.deep_view(),
            )),
        ensures
            r ==> patterns.len() > 0 && (exists|asn: Seq<usize>|
                is_increasing_pattern_match(self.calls@, patterns, asn)),
            !r ==> patterns.len() == 0 || (forall|asn: Seq<usize>|
                #![auto]
                (asn.len() == patterns.len() && (forall|j: int|
                    0 <= j < asn.len() ==> asn[j] < self.calls@.len())
                    && crate::order::strictly_increasing(asn)) ==> exists|j: int|
                    0 <= j < patterns.len() && call_ensures(
                        patterns[j],
                        (&self.calls@[asn[j] as int],),
                        false,
                    )),
    {
        let ms = info.match_indices.deep_view();
        if r {
            let asn = choose|asn: Seq<usize>| is_ordered_pick(ms, asn);
            assert(is_increasing_pattern_match(self.calls@, patterns, asn)) by {
                assert forall|j: int| 0 <= j < patterns.len() implies asn[j] < self.calls@.len()
                    && call_ensures(patterns[j], (&self.calls@[asn[j] as int],), true) by {
                    assert(ms[j].contains(asn[j]));
                }
            }
        } else {
            if patterns.len() > 0 {
                assert forall|asn: Seq<usize>|
                    #![auto]
                    (asn.len() == patterns.len() && (forall|j: int|
                        0 <= j < asn.len() ==> asn[j] < self.calls@.len())
                        && crate::order::strictly_increasing(asn)) implies exists|j: int|
                    0 <= j < patterns.len() && call_ensures(
                        patterns[j],
                        (&self.calls@[asn[j] as int],),
                        false,
                    ) by {
                    assert(!is_ordered_pick(ms, asn));
                    let j0 = choose|j0: int| 0 <= j0 < ms.len() && !ms[j0].contains(asn[j0]);
                    assert(call_ensures(
                        patterns[j0],
                        (&self.calls@[asn[j0] as int],),
                        false,
                    ));
                }
            }
        }
    }
}


// ===========================================================================
// * Query specifications
// ===========================================================================

/// Every expectation is satisfied by at least one recorded call.
pub open spec fn all_expectations_matched(ms: Seq<Seq<usize>>) -> bool {
    forall|j: int| 0 <= j < ms.len() ==> ms[j].len() > 0
}

/// `asn` picks one entry from each list of `ms`, in strictly increasing
/// order.
pub open spec fn is_ordered_pick(ms: Seq<Seq<usize>>, asn: Seq<usize>) -> bool {
    &&& asn.len() == ms.len()
    &&& forall|j: int| #![trigger asn[j]] 0 <= j < ms.len() ==> ms[j].contains(asn[j])
    &&& crate::order::strictly_increasing(asn)
}

/// Some choice of one entry per list is strictly increasing.
pub open spec fn ordered_pick_exists(ms: Seq<Seq<usize>>) -> bool {
    exists|asn: Seq<usize>| is_ordered_pick(ms, asn)
}

/// Every expected value equals at least one recorded call.
pub open spec fn spec_has_calls<C>(calls: Seq<C>, expected: Seq<C>) -> bool {
    forall|j: int| 0 <= j < expected.len() ==> calls.contains(expected[j])
}

/// `asn` assigns to each expected value a call index, strictly increasing,
/// at which the recorded call equals the expected value.
pub open spec fn is_increasing_match<C>(calls: Seq<C>, expected: Seq<C>, asn: Seq<usize>) -> bool {
    &&& asn.len() == expected.len()
    &&& forall|j: int|
        #![trigger asn[j]]
        0 <= j < expected.len() ==> asn[j] < calls.len() && calls[asn[j] as int] == expected[j]
    &&& crate::order::strictly_increasing(asn)
}

/// Some assignment of one call index per expected value is strictly
/// increasing and equality holds at every assigned index.
pub open spec fn increasing_match_exists<C>(calls: Seq<C>, expected: Seq<C>) -> bool {
    exists|asn: Seq<usize>| is_increasing_match(calls, expected, asn)
}

/// At least one of the recorded calls satisfies `pattern`.
pub open spec fn some_call_accepted<C, P: Fn(&C) -> bool>(calls: Seq<C>, pattern: P) -> bool {
    exists|i: int| 0 <= i < calls.len() && call_ensures(pattern, (&calls[i],), true)
}

/// Every recorded call was rejected by `pattern`.
pub open spec fn all_calls_rejected<C, P: Fn(&C) -> bool>(calls: Seq<C>, pattern: P) -> bool {
    forall|i: int| 0 <= i < calls.len() ==> call_ensures(pattern, (&calls[i],), false)
}

/// `asn` assigns to each pattern a call index, strictly increasing, at which
/// the pattern accepted the recorded call.
pub open spec fn is_increasing_pattern_match<C, P: Fn(&C) -> bool>(
    calls: Seq<C>,
    patterns: Seq<P>,
    asn: Seq<usize>,
) -> bool {
    &&& asn.len() == patterns.len()
    &&& forall|j: int|
        #![trigger asn[j]]
        0 <= j < patterns.len() ==> asn[j] < calls.len() && call_ensures(
            patterns[j],
            (&calls[asn[j] as int],),
            true,
        )
    &&& crate::order::strictly_increasing(asn)
}

/// The expected values appear among the calls in the order given (an
/// order-preserving assignment exists); an empty expectation list is not
/// considered in order.
pub open spec fn spec_has_calls_in_order<C>(calls: Seq<C>, expected: Seq<C>) -> bool {
    expected.len() > 0 && increasing_match_exists(calls, expected)
}

/// `spec_has_calls` and the call count equals the expectation count.
pub open spec fn spec_has_calls_exactly<C>(calls: Seq<C>, expected: Seq<C>) -> bool {
    spec_has_calls(calls, expected) && calls.len() == expected.len()
}

/// `spec_has_calls_in_order` and the call count equals the expectation count.
pub open spec fn spec_has_calls_exactly_in_order<C>(calls: Seq<C>, expected: Seq<C>) -> bool {
    spec_has_calls_in_order(calls, expected) && calls.len() == expected.len()
}

// ===========================================================================
// * MatchInfo
// ===========================================================================

proof fn lemma_deep_view_index(vs: &Vec<Vec<usize>>, j: int)
    requires
        0 <= j < vs@.len(),
    ensures
        vs.deep_view()[j] == vs@[j]@,
{
    assert(vs.deep_view()[j] =~= vs@[j]@);
}

/// The result of comparing a list of expectations against the recorded call
/// history: for each expectation, the indices of the calls that satisfy it,
/// in increasing order.
pub struct MatchInfo {
    /// How many expectations were compared.
    pub num_expectations: usize,
    /// How many calls were recorded when the comparison was made.
    pub num_actual_calls: usize,
    /// For each expectation, the indices of the calls satisfying it.
    pub match_indices: Vec<Vec<usize>>,
}

impl MatchInfo {
    /// True iff every expectation is satisfied by at least one recorded
    /// call; the same call may satisfy several expectations.
    pub fn expectations_matched(&self) -> (r: bool)
        ensures
            r == all_expectations_matched(self.match_indices.deep_view()),
    {
        let mut j: usize = 0;
        while j < self.match_indices.len()
            invariant
                j <= self.match_indices@.len(),
                forall|j2: int| 0 <= j2 < j ==> self.match_indices.deep_view()[j2].len() > 0,
            decreases self.match_indices@.len() - j,
        {
            if self.match_indices[j].is_empty() {
                proof {
                    lemma_deep_view_index(&self.match_indices, j as int);
                }
                return false;
            }
            proof {
                lemma_deep_view_index(&self.match_indices, j as int);
            }
            j = j + 1;
        }
        true
    }

    /// True iff some choice of one matching call index per expectation is
    /// strictly increasing; an empty expectation list yields false.
    pub fn matches_are_in_order(&self) -> (r: bool)
        ensures
            r == (self.match_indices@.len() > 0 && ordered_pick_exists(
                self.match_indices.deep_view(),
            )),
    {
        let ghost ms = self.match_indices.deep_view();
        if !self.expectations_matched() {
            proof {
                let j0 = choose|j0: int| 0 <= j0 < ms.len() && !(ms[j0].len() > 0);
                if ms.len() > 0 && ordered_pick_exists(ms) {
                    let asn = choose|asn: Seq<usize>| is_ordered_pick(ms, asn);
                    assert(ms[j0].contains(asn[j0]));
                }
            }
            return false;
        }
        let permutations = generate_permutations(&self.match_indices);
        let mut k: usize = 0;
        while k < permutations.len()
            invariant
                k <= permutations@.len(),
                ms == self.match_indices.deep_view(),
                permutations.deep_view() == crate::order::cartesian_product(ms),
                forall|k2: int|
                    0 <= k2 < k ==> !crate::order::strictly_increasing(
                        permutations.deep_view()[k2],
                    ),
            decreases permutations@.len() - k,
        {
            if is_strictly_increasing(permutations[k].as_slice()) {
                proof {
                    lemma_deep_view_index(&permutations, k as int);
                    let asn = permutations.deep_view()[k as int];
                    assert(crate::order::cartesian_product(ms).contains(asn));
                    crate::order::lemma_cartesian_product_contains(ms, asn);
                    assert(is_ordered_pick(ms, asn));
                }
                return true;
            }
            proof {
                lemma_deep_view_index(&permutations, k as int);
            }
            k = k + 1;
        }
        proof {
            if ms.len() > 0 && ordered_pick_exists(ms) {
                let asn = choose|asn: Seq<usize>| is_ordered_pick(ms, asn);
                crate::order::lemma_cartesian_product_contains(ms, asn);
                assert(crate::order::cartesian_product(ms).contains(asn));
                let k0 = choose|k0: int|
                    0 <= k0 < crate::order::cartesian_product(ms).len()
                        && crate::order::cartesian_product(ms)[k0] == asn;
                assert(!crate::order::strictly_increasing(permutations.deep_view()[k0]));
            }
        }
        false
    }

    /// True iff every expectation matched and a strictly increasing
    /// assignment of call indices exists.
    pub fn expectations_matched_in_order(&self) -> (r: bool)
        ensures
            r == (self.match_indices@.len() > 0 && ordered_pick_exists(
                self.match_indices.deep_view(),
            )),
    {
        let matched = self.expectations_matched();
        let in_order = self.matches_are_in_order();
        proof {
            let ms = self.match_indices.deep_view();
            if !all_expectations_matched(ms) && ms.len() > 0 && ordered_pick_exists(ms) {
                let j0 = choose|j0: int| 0 <= j0 < ms.len() && !(ms[j0].len() > 0);
                let asn = choose|asn: Seq<usize>| is_ordered_pick(ms, asn);
                assert(ms[j0].contains(asn[j0]));
            }
        }
        matched && in_order
    }

    /// True iff every expectation matched and the expectation count equals
    /// the recorded call count.
    pub fn expectations_matched_exactly(&self) -> (r: bool)
        ensures
            r == (all_expectations_matched(self.match_indices.deep_view())
                && self.num_expectations == self.num_actual_calls),
    {
        self.expectations_matched() && self.num_expectations_equal_num_actual_calls()
    }

    /// True iff the expectations matched in order and the expectation count
    /// equals the recorded call count.
    pub fn expectations_matched_in_order_exactly(&self) -> (r: bool)
        ensures
            r == (self.match_indices@.len() > 0 && ordered_pick_exists(
                self.match_indices.deep_view(),
            ) && self.num_expectations == self.num_actual_calls),
    {
        self.expectations_matched_in_order() && self.num_expectations_equal_num_actual_calls()
    }

    fn num_expectations_equal_num_actual_calls(&self) -> (r: bool)
        ensures
            r == (self.num_expectations == self.num_actual_calls),
    {
        self.num_expectations == self.num_actual_calls
    }
}


impl<C, S, F, G> Mock<C, Option<S>, F, G> where
    C: Clone + PartialEq,
    S: Clone,
    F: Fn(C) -> Option<S>,
    G: Fn(C) -> Option<S>,
 {
    /// Makes the mock return `Some(return_value)` by default.
    pub fn return_some(&mut self, return_value: S)
        ensures
            final(self).default_return_value == Some(return_value),
            final(self).calls@ == old(self).calls@,
            final(self).pending_values() == old(self).pending_values(),
            final(self).default_fn == old(self).default_fn,
            final(self).default_closure == old(self).default_closure,
            final(self).return_values@ == old(self).return_values@,
            final(self).fns@ == old(self).fns@,
            final(self).closures@ == old(self).closures@,
            old(self).wf() ==> final(self).wf(),
    {
        self.return_value(Some(return_value))
    }

    /// Makes the mock return `None` by default.
    pub fn return_none(&mut self)
        ensures
            final(self).default_return_value == None::<S>,
            final(self).calls@ == old(self).calls@,
            final(self).pending_values() == old(self).pending_values(),
            final(self).default_fn == old(self).default_fn,
            final(self).default_closure == old(self).default_closure,
            final(self).return_values@ == old(self).return_values@,
            final(self).fns@ == old(self).fns@,
            final(self).closures@ == old(self).closures@,
            old(self).wf() ==> final(self).wf(),
    {
        self.return_value(None)
    }
}

impl<C, O, E, F, G> Mock<C, Result<O, E>, F, G> where
    C: Clone + PartialEq,
    O: Clone,
    E: Clone,
    F: Fn(C) -> Result<O, E>,
    G: Fn(C) -> Result<O, E>,
 {
    /// Makes the mock return `Ok(return_value)` by default.
    pub fn return_ok(&mut self, return_value: O)
        ensures
            final(self).default_return_value == Ok::<O, E>(return_value),
            final(self).calls@ == old(self).calls@,
            final(self).pending_values() == old(self).pending_values(),
            final(self).default_fn == old(self).default_fn,
            final(self).default_closure == old(self).default_closure,
            final(self).return_values@ == old(self).return_values@,
            final(self).fns@ == old(self).fns@,
            final(self).closures@ == old(self).closures@,
            old(self).wf() ==> final(self).wf(),
    {
        self.return_value(Ok(return_value))
    }

    /// Makes the mock return `Err(return_value)` by default.
    pub fn return_err(&mut self, return_value: E)
        ensures
            final(self).default_return_value == Err::<O, E>(return_value),
            final(self).calls@ == old(self).calls@,
            final(self).pending_values() == old(self).pending_values(),
            final(self).default_fn == old(self).default_fn,
            final(self).default_closure == old(self).default_closure,
            final(self).return_values@ == old(self).return_values@,
            final(self).fns@ == old(self).fns@,
            final(self).closures@ == old(self).closures@,
            old(self).wf() ==> final(self).wf(),
    {
        self.return_value(Err(return_value))
    }
}

impl<C, R, F, G> Default for Mock<C, R, F, G> where
    C: Clone + PartialEq,
    R: Clone + Default,
    F: Fn(C) -> R,
    G: Fn(C) -> R,
 {
    /// A mock whose fallback value is `R`'s default value.
    fn default() -> (m: Self)
        ensures
            m.wf(),
            m.return_value_sequence@ == Seq::<R>::empty(),
            m.default_fn is None,
            m.default_closure is None,
            m.return_values@ == Seq::<(C, R)>::empty(),
            m.fns@ == Seq::<(C, F)>::empty(),
            m.closures@ == Seq::<(C, G)>::empty(),
            m.calls@ == Seq::<C>::empty(),
            call_ensures(<R as Default>::default, (), m.default_return_value),
    {
        Mock::new(R::default())
    }
}

// ===========================================================================
// * Laws
// ===========================================================================

/// The call history after performing the invocations of `made` in order,
/// starting from the history `initial`: each invocation appends its
/// arguments, as `Mock::call` ensures.
pub open spec fn history_after<C>(initial: Seq<C>, made: Seq<C>) -> Seq<C>
    decreases made.len(),
{
    if made.len() == 0 {
        initial
    } else {
        history_after(initial.push(made.first()), made.drop_first())
    }
}

/// Performing a sequence of invocations in order appends exactly their
/// arguments to the call history; starting from a fresh or reset mock the
/// history is exactly the sequence of invocations made, and its length their
/// number.
pub proof fn lemma_history_accumulates<C>(initial: Seq<C>, made: Seq<C>)
    ensures
        history_after(initial, made) == initial + made,
    decreases made.len(),
{
    if made.len() == 0 {
        assert(initial + made =~= initial);
    } else {
        lemma_history_accumulates(initial.push(made.first()), made.drop_first());
        assert(initial.push(made.first()) + made.drop_first() =~= initial + made);
    }
}

/// A freshly constructed mock, with no stubbing applied, resolves every call
/// from its default return value: the caller gets that value back (up to
/// `Clone`) and the mock's one-shot sequence stays empty.
pub proof fn lemma_fresh_mock_returns_default<C, R, F, G>(
    m: Mock<C, R, F, G>,
    m2: Mock<C, R, F, G>,
    args: C,
    r: R,
) where C: Clone + PartialEq, R: Clone, F: Fn(C) -> R, G: Fn(C) -> R
    requires
        m.return_value_sequence@.len() == 0,
        m.default_fn is None,
        m.default_closure is None,
        m.return_values@.len() == 0,
        m.fns@.len() == 0,
        m.closures@.len() == 0,
        Mock::call_resolution(m, m2, args, r),
    ensures
        m.chosen_tier(args) == Tier::DefaultValue,
        cloned(m.default_return_value, r),
        m2.pending_values() == Seq::<R>::empty(),
{
    assert(m.pending_values() =~= Seq::<R>::empty());
    assert(m2.pending_values() =~= Seq::<R>::empty());
}

/// Precedence: a per-argument return value beats the one-shot sequence. A
/// call whose arguments carry an override returns the overriding value (up
/// to `Clone`) and leaves the pending one-shot values alone.
pub proof fn lemma_argument_value_beats_sequence<C, R, F, G>(
    m: Mock<C, R, F, G>,
    m2: Mock<C, R, F, G>,
    k: C,
    v: R,
    r: R,
) where C: Clone + PartialEq, R: Clone, F: Fn(C) -> R, G: Fn(C) -> R
    requires
        assoc_lookup(m.return_values@, k) == Some(v),
        assoc_lookup(m.fns@, k) is None,
        assoc_lookup(m.closures@, k) is None,
        Mock::call_resolution(m, m2, k, r),
    ensures
        m.chosen_tier(k) == Tier::ArgumentValue,
        cloned(v, r),
        m2.pending_values() == m.pending_values(),
{
}

/// Round trip of the one-shot sequence: with values `[a, b]` pending and no
/// stubbing that applies to the arguments used, three successive calls
/// return `a`, then `b`, then fall back to the default return value, and no
/// one-shot value is left.
pub proof fn lemma_pending_values_drain<C, R, F, G>(
    m0: Mock<C, R, F, G>,
    m1: Mock<C, R, F, G>,
    m2: Mock<C, R, F, G>,
    m3: Mock<C, R, F, G>,
    a: R,
    b: R,
    c1: C,
    c2: C,
    c3: C,
    r1: R,
    r2: R,
    r3: R,
) where C: Clone + PartialEq, R: Clone, F: Fn(C) -> R, G: Fn(C) -> R
    requires
        m0.pending_values() == seq![a, b],
        m0.default_fn is None,
        m0.default_closure is None,
        assoc_lookup(m0.return_values@, c1) is None,
        assoc_lookup(m0.fns@, c1) is None,
        assoc_lookup(m0.closures@, c1) is None,
        assoc_lookup(m0.return_values@, c2) is None,
        assoc_lookup(m0.fns@, c2) is None,
        assoc_lookup(m0.closures@, c2) is None,
        assoc_lookup(m0.return_values@, c3) is None,
        assoc_lookup(m0.fns@, c3) is None,
        assoc_lookup(m0.closures@, c3) is None,
        m0.stubbing_preserved(m1),
        m1.stubbing_preserved(m2),
        m2.stubbing_preserved(m3),
        Mock::call_resolution(m0, m1, c1, r1),
        Mock::call_resolution(m1, m2, c2, r2),
        Mock::call_resolution(m2, m3, c3, r3),
    ensures
        r1 == a,
        r2 == b,
        cloned(m0.default_return_value, r3),
        m3.pending_values() == Seq::<R>::empty(),
{
    assert(m0.return_value_sequence@.len() == 2);
    assert(m0.chosen_tier(c1) == Tier::SequenceValue);
    assert(m1.pending_values() =~= seq![b]);
    assert(m1.return_value_sequence@.len() == 1);
    assert(m1.chosen_tier(c2) == Tier::SequenceValue);
    assert(m2.pending_values() =~= Seq::<R>::empty());
    assert(m2.return_value_sequence@.len() == 0);
    assert(m2.chosen_tier(c3) == Tier::DefaultValue);
    assert(m3.pending_values() =~= Seq::<R>::empty());
}

} // verus!
