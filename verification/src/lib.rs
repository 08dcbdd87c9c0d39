//! A test-double engine: a `Mock` records every invocation's arguments,
//! resolves a return value according to a layered precedence policy, and
//! answers queries about what was called, in what order, and whether the
//! recorded argument sets satisfy value-equality or predicate patterns.

pub mod equality;
pub mod matcher;
pub mod mock;
pub mod order;

pub use mock::Mock;
pub use order::generate_permutations;
pub use order::is_strictly_increasing;
