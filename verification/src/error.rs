use vstd::prelude::*;

verus! {

/// Errors surfaced before any hashing work starts.
#[derive(Clone, Copy, Debug, PartialEq, Eq, Structural)]
pub enum RainbowError {
    /// A run configuration that cannot be executed: a zero job count where
    /// one is required, or a digit width whose keyspace does not fit in the
    /// 64-bit id space.
    InvalidConfiguration,
}

} // verus!
