use vstd::prelude::*;

verus! {

/// What went wrong, as plain mathematical values.
pub enum Failure {
    AlignmentFailure { offset: int },
    ShortRead { start: int, expected: int, got: int },
    MalformedRecord { offset: int, line: Seq<u8> },
    NumericOverflow { offset: int },
    CountOverflow { key: Seq<u8> },
}

/// A fatal failure of a run: every one of them aborts the whole job.
#[derive(Clone, Debug, PartialEq, Eq)]
pub enum RunError {
    /// No line terminator within the lookback window read at `offset`.
    AlignmentFailure { offset: u64 },
    /// A positioned read returned fewer bytes than the chunk holds.
    ShortRead { start: u64, expected: u64, got: u64 },
    /// The line starting at `offset` has no key delimiter.
    MalformedRecord { offset: u64, line: Vec<u8> },
    /// The reading starting at `offset` does not fit a 64-bit scaled integer.
    NumericOverflow { offset: u64 },
    /// Merging the statistics of station `key` would overflow its count.
    CountOverflow { key: Vec<u8> },
}

impl View for RunError {
    type V = Failure;

    open spec fn view(&self) -> Failure {
        match self {
            RunError::AlignmentFailure { offset } => Failure::AlignmentFailure { offset: *offset as int },
            RunError::ShortRead { start, expected, got } => Failure::ShortRead {
                start: *start as int,
                expected: *expected as int,
                got: *got as int,
            },
            RunError::MalformedRecord { offset, line } => Failure::MalformedRecord {
                offset: *offset as int,
                line: line@,
            },
            RunError::NumericOverflow { offset } => Failure::NumericOverflow { offset: *offset as int },
            RunError::CountOverflow { key } => Failure::CountOverflow { key: key@ },
        }
    }
}

} // verus!
