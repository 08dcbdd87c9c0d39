//! The ordering-verification core: enumerating the Cartesian product of
//! per-expectation match-index lists, and testing a candidate assignment of
//! call indices for strict monotonicity.

use vstd::prelude::*;
use vstd::pervasive::cloned;
use vstd::pervasive::VecAdditionalExecFns;

verus! {

/// A sequence of call indices is strictly increasing when every element is
/// smaller than all later ones.
pub open spec fn strictly_increasing(s: Seq<usize>) -> bool {
    forall|i: int, j: int| 0 <= i < j < s.len() ==> s[i] < s[j]
}

/// Every way of prepending one value of `vals` (in order) to one tail of
/// `tails` (in order): the building block of the Cartesian product below.
pub open spec fn expand(vals: Seq<usize>, tails: Seq<Seq<usize>>) -> Seq<Seq<usize>>
    decreases vals.len(),
{
    if vals.len() == 0 {
        Seq::empty()
    } else {
        expand(vals.drop_last(), tails) + tails.map_values(
            (|t: Seq<usize>| seq![vals.last()] + t),
        )
    }
}

/// All ways of choosing one value from each of `cs[i]`, `cs[i+1]`, ...,
/// in lexicographic order of the choice positions.
pub open spec fn product_from(cs: Seq<Seq<usize>>, i: int) -> Seq<Seq<usize>>
    decreases cs.len() - i when 0 <= i <= cs.len()
{
    if i >= cs.len() {
        seq![Seq::<usize>::empty()]
    } else {
        expand(cs[i], product_from(cs, i + 1))
    }
}

/// The full Cartesian product of the choice lists `cs`, except that, like the
/// executable enumeration, an empty family of lists yields no choices at all.
pub open spec fn cartesian_product(cs: Seq<Seq<usize>>) -> Seq<Seq<usize>> {
    if cs.len() == 0 {
        Seq::empty()
    } else {
        product_from(cs, 0)
    }
}

/// Each tail of `tails`, with `prefix` prepended.
pub open spec fn with_prefix(prefix: Seq<usize>, tails: Seq<Seq<usize>>) -> Seq<Seq<usize>> {
    tails.map_values((|t: Seq<usize>| prefix + t))
}

proof fn lemma_expand_contains(vals: Seq<usize>, tails: Seq<Seq<usize>>, x: Seq<usize>)
    ensures
        expand(vals, tails).contains(x) <==> (x.len() >= 1 && vals.contains(x[0])
            && tails.contains(x.drop_first())),
    decreases vals.len(),
{
    if vals.len() == 0 {
    } else {
        let rest = expand(vals.drop_last(), tails);
        let mapped = tails.map_values((|t: Seq<usize>| seq![vals.last()] + t));
        lemma_expand_contains(vals.drop_last(), tails, x);
        if expand(vals, tails).contains(x) {
            let k = choose|k: int|
                0 <= k < expand(vals, tails).len() && expand(vals, tails)[k] == x;
            if k < rest.len() {
                assert(rest[k] == x);
                assert(rest.contains(x));
                let m = choose|m: int|
                    0 <= m < vals.drop_last().len() && vals.drop_last()[m] == x[0];
                assert(vals[m] == x[0]);
            } else {
                assert(x == seq![vals.last()] + tails[k - rest.len()]);
                assert(x[0] == vals.last());
                assert(x.drop_first() =~= tails[k - rest.len()]);
            }
        }
        if x.len() >= 1 && vals.contains(x[0]) && tails.contains(x.drop_first()) {
            let m = choose|m: int| 0 <= m < vals.len() && vals[m] == x[0];
            let k = choose|k: int| 0 <= k < tails.len() && tails[k] == x.drop_first();
            if m == vals.len() - 1 {
                assert(mapped[k] == seq![vals.last()] + tails[k]);
                assert(seq![vals.last()] + tails[k] =~= x);
                assert(expand(vals, tails)[rest.len() + k] == x);
            } else {
                assert(vals.drop_last()[m] == x[0]);
                assert(vals.drop_last().contains(x[0]));
                assert(rest.contains(x));
                let j = choose|j: int| 0 <= j < rest.len() && rest[j] == x;
                assert(expand(vals, tails)[j] == x);
            }
        }
    }
}

proof fn lemma_product_from_contains(cs: Seq<Seq<usize>>, i: int, x: Seq<usize>)
    requires
        0 <= i <= cs.len(),
    ensures
        product_from(cs, i).contains(x) <==> (x.len() == cs.len() - i && forall|j: int|
            0 <= j < x.len() ==> cs[i + j].contains(x[j])),
    decreases cs.len() - i,
{
    if i >= cs.len() {
        if product_from(cs, i).contains(x) {
            assert(x == product_from(cs, i)[0]);
        }
        if x.len() == 0 {
            assert(x =~= Seq::<usize>::empty());
            assert(product_from(cs, i)[0] == x);
        }
    } else {
        lemma_expand_contains(cs[i], product_from(cs, i + 1), x);
        lemma_product_from_contains(cs, i + 1, x.drop_first());
        if product_from(cs, i).contains(x) {
            assert forall|j: int| 0 <= j < x.len() implies cs[i + j].contains(x[j]) by {
                if j > 0 {
                    assert(x.drop_first()[j - 1] == x[j]);
                }
            }
        }
        if x.len() == cs.len() - i && (forall|j: int|
            0 <= j < x.len() ==> cs[i + j].contains(x[j])) {
            assert(cs[i + 0].contains(x[0]));
            assert forall|j: int| 0 <= j < x.drop_first().len() implies cs[i + 1 + j].contains(
                x.drop_first()[j],
            ) by {
                assert(x.drop_first()[j] == x[j + 1]);
            }
        }
    }
}

/// What it means to find `x` in the enumerated product: one entry per
/// constraint list, each drawn from its list.
pub proof fn lemma_cartesian_product_contains(cs: Seq<Seq<usize>>, x: Seq<usize>)
    ensures
        cartesian_product(cs).contains(x) <==> (cs.len() > 0 && x.len() == cs.len() && forall|
            j: int,
        |
            0 <= j < x.len() ==> cs[j].contains(x[j])),
{
    if cs.len() > 0 {
        lemma_product_from_contains(cs, 0, x);
    }
}

/// Returns true iff `sequence` is strictly increasing.
pub fn is_strictly_increasing(sequence: &[usize]) -> (r: bool)
    ensures
        r == strictly_increasing(sequence@),
{
    let mut k: usize = 1;
    while k < sequence.len()
        invariant
            1 <= k,
            forall|i: int, j: int|
                0 <= i < j < k && j < sequence@.len() ==> sequence@[i] < sequence@[j],
        decreases sequence.len() - k,
    {
        if sequence[k - 1] >= sequence[k] {
            return false;
        }
        k = k + 1;
    }
    true
}

fn generate_permutations_impl(
    output_permutations: &mut Vec<Vec<usize>>,
    permutation_buffer: &mut Vec<usize>,
    constraints: &Vec<Vec<usize>>,
    current_index: usize,
)
    requires
        old(permutation_buffer).len() == constraints.len(),
        current_index <= constraints.len(),
    ensures
        final(permutation_buffer).len() == constraints.len(),
        final(permutation_buffer)@.take(current_index as int) == old(permutation_buffer)@.take(
            current_index as int,
        ),
        final(output_permutations).deep_view() == old(output_permutations).deep_view()
            + with_prefix(
            old(permutation_buffer)@.take(current_index as int),
            product_from(constraints.deep_view(), current_index as int),
        ),
    decreases constraints.len() - current_index,
{
    let ghost cs = constraints.deep_view();
    let ghost ci = current_index as int;
    let ghost prefix0 = old(permutation_buffer)@.take(ci);
    let ghost out0 = old(output_permutations).deep_view();
    let ghost tails = product_from(cs, ci + 1);
    if current_index < permutation_buffer.len() {
        let n = constraints[current_index].len();
        assert(n == cs[ci].len());
        let mut vi: usize = 0;
        while vi < n
            invariant
                vi <= n,
                n == cs[ci].len(),
                cs == constraints.deep_view(),
                ci == current_index as int,
                prefix0 == old(permutation_buffer)@.take(ci),
                out0 == old(output_permutations).deep_view(),
                tails == product_from(cs, ci + 1),
                current_index < constraints.len(),
                permutation_buffer.len() == constraints.len(),
                permutation_buffer@.take(ci) == prefix0,
                output_permutations.deep_view() == out0 + with_prefix(
                    prefix0,
                    expand(cs[ci].take(vi as int), tails),
                ),
            decreases n - vi,
        {
            let val = constraints[current_index][vi];
            assert(val == cs[ci][vi as int]);
            let ghost out_entry = output_permutations.deep_view();
            permutation_buffer.set(current_index, val);
            assert(permutation_buffer@.take(ci) =~= prefix0);
            assert(permutation_buffer@.take(ci + 1) =~= prefix0.push(val));
            generate_permutations_impl(
                output_permutations,
                permutation_buffer,
                constraints,
                current_index + 1,
            );
            proof {
                let vals1 = cs[ci].take(vi as int + 1);
                assert(vals1.drop_last() =~= cs[ci].take(vi as int));
                assert(vals1.last() == val);
                assert(expand(vals1, tails) == expand(cs[ci].take(vi as int), tails)
                    + tails.map_values((|t: Seq<usize>| seq![val] + t)));
                assert(output_permutations.deep_view() =~~= out0 + with_prefix(
                    prefix0,
                    expand(vals1, tails),
                )) by {
                    assert(output_permutations.deep_view() == out_entry + with_prefix(
                        prefix0.push(val),
                        tails,
                    ));
                    assert forall|k: int|
                        0 <= k < tails.len() implies with_prefix(prefix0.push(val), tails)[k]
                        =~= with_prefix(prefix0, expand(vals1, tails))[out_entry.len() - out0.len()
                        + k] by {
                        assert(with_prefix(prefix0.push(val), tails)[k] == prefix0.push(val)
                            + tails[k]);
                        assert(expand(vals1, tails)[expand(cs[ci].take(vi as int), tails).len()
                            + k] == seq![val] + tails[k]);
                        assert(prefix0.push(val) + tails[k] =~= prefix0 + (seq![val] + tails[k]));
                    }
                }
            }
            vi = vi + 1;
        }
        proof {
            assert(cs[ci].take(n as int) =~= cs[ci]);
            assert(product_from(cs, ci) == expand(cs[ci], tails));
        }
    } else {
        let copy = permutation_buffer.clone();
        assert(copy@ =~= permutation_buffer@) by {
            assert forall|k: int| 0 <= k < copy@.len() implies copy@[k] == permutation_buffer@[k]
                by {
                assert(cloned::<usize>(permutation_buffer@[k], copy@[k]));
            }
        }
        output_permutations.push(copy);
        proof {
            assert(permutation_buffer@.take(ci) =~= permutation_buffer@);
            assert(output_permutations.deep_view() =~~= out0 + with_prefix(
                prefix0,
                product_from(cs, ci),
            )) by {
                assert(with_prefix(prefix0, product_from(cs, ci))[0] == prefix0 + Seq::<
                    usize,
                >::empty());
                assert(prefix0 + Seq::<usize>::empty() =~= permutation_buffer@);
            }
        }
    }
}

/// Enumerates, in lexicographic order of choice positions, every way of
/// choosing one entry from each constraint list. An empty family of
/// constraint lists yields no choices.
pub fn generate_permutations(constraints: &Vec<Vec<usize>>) -> (output: Vec<Vec<usize>>)
    ensures
        output.deep_view() == cartesian_product(constraints.deep_view()),
{
    let mut output: Vec<Vec<usize>> = Vec::new();
    if !constraints.is_empty() {
        let mut permutation_buffer: Vec<usize> = Vec::new();
        while permutation_buffer.len() < constraints.len()
            invariant
                permutation_buffer.len() <= constraints.len(),
            decreases constraints.len() - permutation_buffer.len(),
        {
            permutation_buffer.push(0);
        }
        let ghost buf0 = permutation_buffer@;
        generate_permutations_impl(&mut output, &mut permutation_buffer, constraints, 0);
        proof {
            let cs = constraints.deep_view();
            assert(output.deep_view() =~~= product_from(cs, 0)) by {
                assert forall|k: int| 0 <= k < product_from(cs, 0).len() implies with_prefix(
                    buf0.take(0),
                    product_from(cs, 0),
                )[k] =~= product_from(cs, 0)[k] by {
                    assert(buf0.take(0) + product_from(cs, 0)[k] =~= product_from(cs, 0)[k]);
                }
            }
        }
    }
    output
}

} // verus!
