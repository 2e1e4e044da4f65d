use vstd::prelude::*;

verus! {

/// Why a cost estimate or a partition could not be computed.
#[derive(Debug, Clone, Copy, PartialEq, Eq, Structural)]
pub enum PartitionError {
    /// No records were supplied.
    EmptyInput,
    /// A record (or a segment) with `n == 0` or `r > n`.
    InvalidRecord,
    /// Record times that are not strictly increasing.
    UnorderedTimes,
    /// A cost that does not fit in 64 bits.
    Overflow,
}

} // verus!
