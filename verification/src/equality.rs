//! What the contracts of this crate assume about `==` on a type parameter.

use vstd::prelude::*;
use vstd::std_specs::cmp::PartialEqSpec;

verus! {

/// Equality on `T` through the `==` operator is fully described: the
/// `PartialEq` implementation agrees with its own specification, and that
/// specification coincides with structural equality. This holds for the
/// primitive types, references and tuples of them; contracts that depend on
/// comparing recorded arguments are stated under this assumption.
pub open spec fn eq_is_structural<T: PartialEq>() -> bool {
    &&& T::obeys_eq_spec()
    &&& forall|a: T, b: T| #[trigger] a.eq_spec(&b) <==> a == b
}

} // verus!
