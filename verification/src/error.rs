use vstd::prelude::*;

verus! {

/// The ways in which a computation of this library can fail.
#[derive(Clone, Copy, Debug, PartialEq, Eq, Structural)]
pub enum Error {
    /// An entry is out of place: its id is not its position in the list, or
    /// one of its parents does not come before it.
    InvalidPedigreeOrder,
    /// A parent id names nobody in the pedigree.
    UnknownIndividual,
    /// The blocks handed to a composition do not fit together.
    DimensionMismatch,
    /// The normal equations have no unique solution.
    SingularSystem,
    /// The result is beyond what the machine holds exactly: a relationship
    /// that is no whole multiple of the unit of a fixed-point cell, or a
    /// matrix with more rows, columns or cells than a `usize` counts.
    LimitExceeded,
}

} // verus!
