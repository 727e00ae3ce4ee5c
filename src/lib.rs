//! Indexed random access to the records of FASTA and FASTQ sources, plain or
//! BGZF-compressed.
//!
//! An index table is built once from a source and shared read-only through
//! `FastaIndex` handles; each thread opens its own `FastaReader` on a handle
//! and fetches bases and qualities by record name and range.
pub mod bgzf;
pub mod error;
pub mod fai;
pub mod handle;
pub mod index;
pub mod laws;
pub mod layout;
pub mod reader;
pub mod record;
pub mod region;
pub mod text;
