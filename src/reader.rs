//! Reading sessions: fetching bases and qualities by name and range.
use vstd::prelude::*;
use vstd::string::StringSliceAdditionalSpecFns;
use crate::error::FastaError;
use crate::handle::{FastaIndex, FastaResult};
use crate::record::{bases_of, quals_of, FastaFormat, RecordInfo};
use crate::region::{parse_region, region_parts, CoordinateMode};
use crate::text::{decoded, text_of};

verus! {

/// The part `[start, end)` of `s`, with `end` clamped to the length of `s`;
/// empty when `start` is not below the clamped end.
pub open spec fn span(s: Seq<u8>, start: int, end: int) -> Seq<u8> {
    let e = if end > s.len() {
        s.len() as int
    } else {
        end
    };
    if 0 <= start < e {
        s.subrange(start, e)
    } else {
        Seq::empty()
    }
}

/// A reading session over a shared index.
///
/// Each thread opens its own reader from a handle; a reader is never shared.
pub struct FastaReader {
    index: FastaIndex,
}

/// `e`, with the record name it carries replaced by `seqname` as given.
fn named_error(e: FastaError, seqname: &str) -> (r: FastaError)
    ensures
        match e {
            FastaError::SequenceNotFound(_) => r matches FastaError::SequenceNotFound(n) && n@
                == seqname@,
            FastaError::OutOfRange(_) => r matches FastaError::OutOfRange(n) && n@ == seqname@,
            _ => r == e,
        },
{
    match e {
        FastaError::SequenceNotFound(_) => FastaError::SequenceNotFound(seqname.to_owned()),
        FastaError::OutOfRange(_) => FastaError::OutOfRange(seqname.to_owned()),
        _ => e,
    }
}

impl FastaReader {
    /// The source bytes the reader reads from.
    pub closed spec fn source(&self) -> Seq<u8> {
        self.index.source()
    }

    /// The format of the source.
    pub closed spec fn format(&self) -> FastaFormat {
        self.index.format()
    }

    /// The source is kept block-compressed.
    pub closed spec fn compressed(&self) -> bool {
        self.index.compressed()
    }

    /// The records of the index.
    pub closed spec fn records(&self) -> Seq<RecordInfo> {
        self.index.records()
    }

    /// The record named `name`.
    pub open spec fn lookup(&self, name: Seq<u8>) -> Option<RecordInfo> {
        crate::handle::lookup_in(self.records(), name)
    }

    /// Create a new FASTA reader from an index
    pub fn new(index: &FastaIndex) -> (r: FastaResult<FastaReader>)
        ensures
            r matches Ok(rd) && rd.source() == index.source() && rd.format() == index.format()
                && rd.records() == index.records() && rd.compressed() == index.compressed(),
    {
        Ok(FastaReader { index: index.share() })
    }

    /// The shared index this reader reads through.
    pub fn index(&self) -> (r: &FastaIndex)
        ensures
            r.source() == self.source(),
            r.format() == self.format(),
            r.records() == self.records(),
            r.compressed() == self.compressed(),
    {
        &self.index
    }

    /// Bases `[start, end)` of the record named `name`, the bytes of the
    /// name given as they are.
    pub fn fetch_seq_bytes(&self, name: &[u8], start: i64, end: i64) -> (r: FastaResult<Vec<u8>>)
        ensures
            match self.lookup(name@) {
                None => r matches Err(FastaError::SequenceNotFound(n)) && n@ == decoded(name@),
                Some(rec) => if start < 0 || start > rec.length {
                    r matches Err(FastaError::OutOfRange(n)) && n@ == decoded(name@)
                } else {
                    (r matches Ok(v) && v@ == span(bases_of(self.source(), rec), start as int, end as int))
                },
            },
    {
        self.fetch_from(name, start, end, false)
    }

    /// Quality values `[start, end)` of the FASTQ record named `name`.
    pub fn fetch_qual_bytes(&self, name: &[u8], start: i64, end: i64) -> (r: FastaResult<Vec<u8>>)
        ensures
            self.format() == FastaFormat::Fasta ==> r matches Err(FastaError::QualityNotAvailable),
            self.format() == FastaFormat::Fastq ==> match self.lookup(name@) {
                None => r matches Err(FastaError::SequenceNotFound(n)) && n@ == decoded(name@),
                Some(rec) => if start < 0 || start > rec.length {
                    r matches Err(FastaError::OutOfRange(n)) && n@ == decoded(name@)
                } else {
                    (r matches Ok(v) && v@ == span(quals_of(self.source(), rec), start as int, end as int))
                },
            },
    {
        match self.index.format_of() {
            FastaFormat::Fasta => Err(FastaError::QualityNotAvailable),
            FastaFormat::Fastq => self.fetch_from(name, start, end, true),
        }
    }

    /// Fetch a sequence from the specified region
    ///
    /// `start` and `end` are zero-based, half-open. A `start` below zero or
    /// past the end of the record is `OutOfRange`; an `end` past the end of
    /// the record is clamped to it; a range with `start >= end` after that
    /// gives the empty string.
    pub fn fetch_seq(&self, seqname: &str, start: i64, end: i64) -> (r: FastaResult<String>)
        ensures
            match self.lookup(seqname.spec_bytes()) {
                None => r matches Err(FastaError::SequenceNotFound(n)) && n@ == seqname@,
                Some(rec) => if start < 0 || start > rec.length {
                    r matches Err(FastaError::OutOfRange(n)) && n@ == seqname@
                } else {
                    (r matches Ok(v) && v@ == decoded(
                        span(bases_of(self.source(), rec), start as int, end as int),
                    ))
                },
            },
    {
        match self.fetch_seq_bytes(seqname.as_bytes(), start, end) {
            Ok(v) => Ok(text_of(v.as_slice())),
            Err(e) => Err(named_error(e, seqname)),
        }
    }

    /// Fetch the entire sequence
    pub fn fetch_seq_all(&self, seqname: &str) -> (r: FastaResult<String>)
        ensures
            match self.lookup(seqname.spec_bytes()) {
                None => r matches Err(FastaError::SequenceNotFound(n)) && n@ == seqname@,
                Some(rec) => (r matches Ok(v) && v@ == decoded(bases_of(self.source(), rec))),
            },
    {
        let length = match self.index.sequence_length(seqname) {
            Some(n) => n,
            None => {
                return Err(FastaError::SequenceNotFound(seqname.to_owned()));
            },
        };
        let r = self.fetch_seq(seqname, 0, length);
        proof {
            match self.lookup(seqname.spec_bytes()) {
                Some(rec) => {
                    let b = bases_of(self.source(), rec);
                    assert(span(b, 0, length as int) =~= b);
                },
                None => {},
            }
        }
        r
    }

    /// Fetch quality scores for the specified region (FASTQ only)
    ///
    /// The range is read as `fetch_seq` reads it.
    pub fn fetch_qual(&self, seqname: &str, start: i64, end: i64) -> (r: FastaResult<String>)
        ensures
            self.format() == FastaFormat::Fasta ==> r matches Err(FastaError::QualityNotAvailable),
            self.format() == FastaFormat::Fastq ==> match self.lookup(seqname.spec_bytes()) {
                None => r matches Err(FastaError::SequenceNotFound(n)) && n@ == seqname@,
                Some(rec) => if start < 0 || start > rec.length {
                    r matches Err(FastaError::OutOfRange(n)) && n@ == seqname@
                } else {
                    (r matches Ok(v) && v@ == decoded(
                        span(quals_of(self.source(), rec), start as int, end as int),
                    ))
                },
            },
    {
        match self.fetch_qual_bytes(seqname.as_bytes(), start, end) {
            Ok(v) => Ok(text_of(v.as_slice())),
            Err(e) => Err(named_error(e, seqname)),
        }
    }

    /// Resolves region text in the convention `mode` and fetches it: a bare
    /// name is the whole record, `name:start-end` a range, `name:pos` one
    /// base.
    pub fn fetch_region_in(&self, region: &str, mode: CoordinateMode) -> (r: FastaResult<String>)
        ensures
            match region_parts(region.spec_bytes(), mode) {
                None => r matches Err(FastaError::InvalidRegion(t)) && t@ == region@,
                Some((name, range)) => match self.lookup(name) {
                    None => r matches Err(FastaError::SequenceNotFound(t)) && t@ == decoded(name),
                    Some(rec) => {
                        let (a, b) = match range {
                            None => (0int, rec.length as int),
                            Some((a, b)) => (a, b),
                        };
                        if a < 0 || a > rec.length {
                            r matches Err(FastaError::OutOfRange(t)) && t@ == decoded(name)
                        } else {
                            (r matches Ok(v) && v@ == decoded(
                                span(bases_of(self.source(), rec), a, b),
                            ))
                        }
                    },
                },
            },
    {
        let reg = match parse_region(&self.index, region.as_bytes(), mode) {
            Ok(reg) => reg,
            Err(FastaError::InvalidRegion(_)) => {
                return Err(FastaError::InvalidRegion(region.to_owned()));
            },
            Err(e) => {
                return Err(e);
            },
        };
        match self.fetch_seq_bytes(reg.name.as_slice(), reg.start, reg.end) {
            Ok(v) => Ok(text_of(v.as_slice())),
            Err(e) => Err(e),
        }
    }

    /// Parse a region string (e.g., "chr1:1000-2000") and fetch the sequence
    ///
    /// The numbers are one-based and inclusive, as `fetch_region_in` reads
    /// them with `CoordinateMode::OneBased`.
    pub fn fetch_region(&self, region: &str) -> (r: FastaResult<String>)
        ensures
            match region_parts(region.spec_bytes(), CoordinateMode::OneBased) {
                None => r matches Err(FastaError::InvalidRegion(t)) && t@ == region@,
                Some((name, range)) => match self.lookup(name) {
                    None => r matches Err(FastaError::SequenceNotFound(t)) && t@ == decoded(name),
                    Some(rec) => {
                        let (a, b) = match range {
                            None => (0int, rec.length as int),
                            Some((a, b)) => (a, b),
                        };
                        if a < 0 || a > rec.length {
                            r matches Err(FastaError::OutOfRange(t)) && t@ == decoded(name)
                        } else {
                            (r matches Ok(v) && v@ == decoded(
                                span(bases_of(self.source(), rec), a, b),
                            ))
                        }
                    },
                },
            },
    {
        self.fetch_region_in(region, CoordinateMode::OneBased)
    }

    fn fetch_from(&self, name: &[u8], start: i64, end: i64, qual: bool) -> (r: FastaResult<Vec<u8>>)
        requires
            qual ==> self.format() == FastaFormat::Fastq,
        ensures
            match self.lookup(name@) {
                None => r matches Err(FastaError::SequenceNotFound(n)) && n@ == decoded(name@),
                Some(rec) => if start < 0 || start > rec.length {
                    r matches Err(FastaError::OutOfRange(n)) && n@ == decoded(name@)
                } else {
                    (r matches Ok(v) && v@ == span(
                        if qual {
                            quals_of(self.source(), rec)
                        } else {
                            bases_of(self.source(), rec)
                        },
                        start as int,
                        end as int,
                    ))
                },
            },
    {
        match self.index.record_named(name) {
            None => Err(FastaError::SequenceNotFound(text_of(name))),
            Some(rec) => {
                let len = rec.length;
                if start < 0 || start as u128 > len as u128 {
                    return Err(FastaError::OutOfRange(text_of(name)));
                }
                let s = start as usize;
                let e: usize = if end as i128 > len as i128 {
                    len
                } else if end < start {
                    s
                } else {
                    end as usize
                };
                let v = if qual {
                    self.index.read_values(rec.qual_offset, rec.line_bases, rec.line_bytes, s, e)
                } else {
                    self.index.read_values(rec.offset, rec.line_bases, rec.line_bytes, s, e)
                };
                let ghost src = if qual {
                    quals_of(self.source(), rec@)
                } else {
                    bases_of(self.source(), rec@)
                };
                assert(v@ =~= span(src, start as int, end as int));
                Ok(v)
            },
        }
    }
}

} // verus!
