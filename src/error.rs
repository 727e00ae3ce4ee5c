//! The errors of loading an index and of fetching from it.
use vstd::prelude::*;

verus! {

/// Error types for FASTA operations
#[derive(Debug)]
pub enum FastaError {
    /// The path of a source cannot be used.
    InvalidPath(String),
    /// The source could not be read.
    IndexLoadError(String),
    /// A reader could not be set up.
    ReaderCreationError,
    /// No record has this name.
    SequenceNotFound(String),
    /// The region text does not follow the region grammar.
    InvalidRegion(String),
    /// Memory could not be had.
    MemoryError,
    /// Reading the source failed.
    IoError(String),
    /// The source holds no quality values (FASTA).
    QualityNotAvailable,
    /// The named record is malformed: not uniformly wrapped, without its
    /// quality lines, or a repeated name.
    FormatError(String),
    /// Where a record should start, the source holds no header line.
    MissingHeader,
    /// The start of the range lies outside the named record.
    OutOfRange(String),
    /// A block-compressed source is not a chain of whole blocks that
    /// inflate to their declared sizes.
    CorruptBlock,
    /// Checkpoints cannot be set every 0 bytes.
    InvalidInterval,
}

} // verus!
