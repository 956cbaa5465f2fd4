use vstd::prelude::*;

verus! {

/// Why a computation on a complex or a matrix was given up.
#[derive(Debug, Clone, Copy, PartialEq, Eq, Structural)]
pub enum Error {
    /// The input holds no simplex, or a simplex without vertices.
    InputMalformed,
    /// An exact integer result, or a size, exceeded its representation.
    Overflow,
    /// A quantity that the theory guarantees did not hold of the data.
    InternalInvariant,
}

} // verus!
