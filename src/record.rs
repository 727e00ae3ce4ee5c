//! The layout of one record of a source, and how it is read off the bytes.
use vstd::prelude::*;
use crate::layout::{
    base_at, check_layout, is_terminator, layout_ok, lemma_layout_bases, strip, terminator,
    wrapped_pos,
};

verus! {

/// The two kinds of source: FASTA (bases only) and FASTQ (bases and a
/// quality per base).
#[derive(Debug, Clone, Copy, PartialEq, Eq, Structural)]
pub enum FastaFormat {
    /// FASTA format
    Fasta,
    /// FASTQ format
    Fastq,
}

pub const NEWLINE: u8 = 10;

pub const FASTA_MARK: u8 = 62;

pub const FASTQ_MARK: u8 = 64;

pub const PLUS_MARK: u8 = 43;

/// The byte that opens a record's header line.
pub open spec fn header_mark(fmt: FastaFormat) -> u8 {
    match fmt {
        FastaFormat::Fasta => FASTA_MARK,
        FastaFormat::Fastq => FASTQ_MARK,
    }
}

/// The byte that opens the line ending a record's sequence lines.
pub open spec fn stop_mark(fmt: FastaFormat) -> u8 {
    match fmt {
        FastaFormat::Fasta => FASTA_MARK,
        FastaFormat::Fastq => PLUS_MARK,
    }
}

/// Bytes that end a record name: space, tab and the line terminators.
pub open spec fn ends_name(b: u8) -> bool {
    b == 32u8 || b == 9u8 || is_terminator(b)
}

/// Position of the first line feed at or after `p`, or the end of `d`.
pub open spec fn newline_from(d: Seq<u8>, p: int) -> int
    decreases d.len() - p,
{
    if p >= d.len() {
        d.len() as int
    } else if d[p] == NEWLINE {
        p
    } else {
        newline_from(d, p + 1)
    }
}

/// Position of the first byte at or after `p` that ends a name, or the end of `d`.
pub open spec fn name_end(d: Seq<u8>, p: int) -> int
    decreases d.len() - p,
{
    if p >= d.len() {
        d.len() as int
    } else if ends_name(d[p]) {
        p
    } else {
        name_end(d, p + 1)
    }
}

/// Position of the first line at or after `q` that starts with byte `m`, or
/// the end of `d`.
pub open spec fn marked_line_from(d: Seq<u8>, q: int, m: u8) -> int
    decreases d.len() - q,
{
    if q >= d.len() {
        d.len() as int
    } else if d[q] == m && (q == 0 || d[q - 1] == NEWLINE) {
        q
    } else {
        marked_line_from(d, q + 1, m)
    }
}

/// Start of the line after the one that holds position `p`.
pub open spec fn line_after(d: Seq<u8>, p: int) -> int {
    let n = newline_from(d, p);
    if n < d.len() {
        n + 1
    } else {
        d.len() as int
    }
}

/// What the index says of one record, as plain numbers.
pub ghost struct RecordInfo {
    pub name: Seq<u8>,
    pub length: nat,
    pub offset: int,
    pub line_bases: int,
    pub line_bytes: int,
    pub qual_offset: int,
}

/// Where the sequence lines of the record whose header is at `h` end.
pub open spec fn seq_end(d: Seq<u8>, h: int, fmt: FastaFormat) -> int {
    marked_line_from(d, line_after(d, h), stop_mark(fmt))
}

/// Where the first sequence line of the record at `h` ends.
pub open spec fn first_line_end(d: Seq<u8>, h: int, fmt: FastaFormat) -> int {
    let n = newline_from(d, line_after(d, h));
    let e = seq_end(d, h, fmt);
    if n < e {
        n
    } else {
        e
    }
}

/// The record whose header line starts at `h`: its name runs to the first
/// blank, its bases start on the next line, and the width of its first
/// sequence line gives the line geometry.
#[verifier::opaque]
pub open spec fn record_at(d: Seq<u8>, h: int, fmt: FastaFormat) -> RecordInfo {
    let offset = line_after(d, h);
    let fle = first_line_end(d, h, fmt);
    RecordInfo {
        name: d.subrange(h + 1, name_end(d, h + 1)),
        length: strip(d, offset, seq_end(d, h, fmt)).len(),
        offset,
        line_bases: strip(d, offset, fle).len() as int,
        line_bytes: fle - offset + 1,
        qual_offset: match fmt {
            FastaFormat::Fasta => 0,
            FastaFormat::Fastq => line_after(d, seq_end(d, h, fmt)),
        },
    }
}

/// Where the quality lines of a FASTQ record end: after the line that holds
/// its last quality value.
pub open spec fn qual_end(r: RecordInfo, d: Seq<u8>) -> int {
    if r.length == 0 {
        r.qual_offset
    } else {
        line_after(d, wrapped_pos(r.qual_offset, r.line_bases, r.line_bytes, r.length - 1))
    }
}

/// Where the record whose header is at `h` ends, which is where the next
/// record's header starts.
#[verifier::opaque]
pub open spec fn record_end(d: Seq<u8>, h: int, fmt: FastaFormat) -> int {
    match fmt {
        FastaFormat::Fasta => seq_end(d, h, fmt),
        FastaFormat::Fastq => qual_end(record_at(d, h, fmt), d),
    }
}

/// The record at `h` is well formed: its header opens with the format's
/// mark, its sequence lines are uniformly wrapped, and for FASTQ a `+` line
/// follows them and then as many quality values, wrapped the same way.
#[verifier::opaque]
pub open spec fn record_ok(d: Seq<u8>, h: int, fmt: FastaFormat) -> bool {
    let r = record_at(d, h, fmt);
    &&& 0 <= h < d.len()
    &&& d[h] == header_mark(fmt)
    &&& layout_ok(d, r.offset, seq_end(d, h, fmt), r.line_bases, r.line_bytes)
    &&& fmt == FastaFormat::Fastq ==> {
        &&& seq_end(d, h, fmt) < d.len()
        &&& r.length > 0 ==> wrapped_pos(r.qual_offset, r.line_bases, r.line_bytes, r.length - 1)
            < d.len()
        &&& layout_ok(d, r.qual_offset, qual_end(r, d), r.line_bases, r.line_bytes)
        &&& strip(d, r.qual_offset, qual_end(r, d)).len() == r.length
    }
}

/// The bases of record `r`, read off the source at their wrapped positions.
pub open spec fn bases_of(d: Seq<u8>, r: RecordInfo) -> Seq<u8> {
    Seq::new(r.length as nat, |i: int| d[wrapped_pos(r.offset, r.line_bases, r.line_bytes, i)])
}

/// The quality values of FASTQ record `r`, read off the same way.
pub open spec fn quals_of(d: Seq<u8>, r: RecordInfo) -> Seq<u8> {
    Seq::new(
        r.length as nat,
        |i: int| d[wrapped_pos(r.qual_offset, r.line_bases, r.line_bytes, i)],
    )
}

/// The next line feed lies between `p` and the end of the source.
pub proof fn lemma_newline_bounds(d: Seq<u8>, p: int)
    requires
        0 <= p <= d.len(),
    ensures
        p <= newline_from(d, p) <= d.len(),
    decreases d.len() - p,
{
    if p < d.len() && d[p] != NEWLINE {
        lemma_newline_bounds(d, p + 1);
    }
}

/// The next marked line lies between `q` and the end of the source.
pub proof fn lemma_marked_bounds(d: Seq<u8>, q: int, m: u8)
    requires
        0 <= q <= d.len(),
    ensures
        q <= marked_line_from(d, q, m) <= d.len(),
    decreases d.len() - q,
{
    if q < d.len() && !(d[q] == m && (q == 0 || d[q - 1] == NEWLINE)) {
        lemma_marked_bounds(d, q + 1, m);
    }
}

/// A span holds no more bases than bytes.
pub proof fn lemma_strip_len(d: Seq<u8>, p: int, q: int)
    requires
        p <= q,
    ensures
        strip(d, p, q).len() <= q - p,
    decreases q - p,
{
    if p < q {
        lemma_strip_len(d, p, q - 1);
    }
}

/// What a well-formed record guarantees: its bases are the stripped text of
/// its sequence lines, and every base and quality value lies in the source.
pub proof fn lemma_record_facts(d: Seq<u8>, h: int, fmt: FastaFormat)
    requires
        record_ok(d, h, fmt),
    ensures
        ({
            let r = record_at(d, h, fmt);
            &&& 0 <= r.offset <= seq_end(d, h, fmt) <= d.len()
            &&& 0 <= r.length <= d.len()
            &&& r.length > 0 ==> r.line_bases > 0
            &&& 0 <= r.line_bases < r.line_bytes
            &&& bases_of(d, r) == strip(d, r.offset, seq_end(d, h, fmt))
            &&& forall|i: int|
                0 <= i < r.length ==> 0 <= #[trigger] wrapped_pos(
                    r.offset,
                    r.line_bases,
                    r.line_bytes,
                    i,
                ) < d.len()
            &&& fmt == FastaFormat::Fastq ==> forall|i: int|
                0 <= i < r.length ==> 0 <= #[trigger] wrapped_pos(
                    r.qual_offset,
                    r.line_bases,
                    r.line_bytes,
                    i,
                ) < d.len()
        }),
{
    reveal(record_ok);
    reveal(record_at);
    let r = record_at(d, h, fmt);
    lemma_newline_bounds(d, h);
    let off = line_after(d, h);
    lemma_marked_bounds(d, off, stop_mark(fmt));
    let se = seq_end(d, h, fmt);
    lemma_strip_len(d, off, se);
    lemma_newline_bounds(d, off);
    lemma_strip_len(d, off, first_line_end(d, h, fmt));
    lemma_layout_bases(d, off, se, r.line_bases, r.line_bytes);
    assert(bases_of(d, r) =~= strip(d, off, se));
    if fmt == FastaFormat::Fastq {
        lemma_newline_bounds(d, se);
        let qo = r.qual_offset;
        let qe = qual_end(r, d);
        if r.length > 0 {
            let last = wrapped_pos(qo, r.line_bases, r.line_bytes, r.length - 1);
            assert(qo <= last) by (nonlinear_arith)
                requires
                    last == qo + ((r.length - 1) / r.line_bases) * r.line_bytes + (r.length - 1)
                        % r.line_bases,
                    r.line_bases > 0,
                    r.line_bytes >= 0,
                    r.length > 0,
            ;
            lemma_newline_bounds(d, last);
        }
        lemma_layout_bases(d, qo, qe, r.line_bases, r.line_bytes);
    }
}

/// Where one record lives in the source bytes.
#[derive(Debug)]
pub struct SeqRecord {
    /// Name of the record: its header line up to the first blank.
    pub name: Vec<u8>,
    /// Number of bases.
    pub length: usize,
    /// Byte position of the first base.
    pub offset: usize,
    /// Bases per full line.
    pub line_bases: usize,
    /// Bytes per full line, terminator included.
    pub line_bytes: usize,
    /// Byte position of the first quality value (FASTQ only; 0 for FASTA).
    pub qual_offset: usize,
}

impl View for SeqRecord {
    type V = RecordInfo;

    open spec fn view(&self) -> RecordInfo {
        RecordInfo {
            name: self.name@,
            length: self.length as nat,
            offset: self.offset as int,
            line_bases: self.line_bases as int,
            line_bytes: self.line_bytes as int,
            qual_offset: self.qual_offset as int,
        }
    }
}

/// The byte that opens a record's header line.
pub fn header_byte(fmt: FastaFormat) -> (r: u8)
    ensures
        r == header_mark(fmt),
{
    match fmt {
        FastaFormat::Fasta => FASTA_MARK,
        FastaFormat::Fastq => FASTQ_MARK,
    }
}

fn stop_byte(fmt: FastaFormat) -> (r: u8)
    ensures
        r == stop_mark(fmt),
{
    match fmt {
        FastaFormat::Fasta => FASTA_MARK,
        FastaFormat::Fastq => PLUS_MARK,
    }
}

fn find_newline(d: &Vec<u8>, p: usize) -> (r: usize)
    requires
        p <= d@.len(),
    ensures
        r == newline_from(d@, p as int),
        p <= r <= d@.len(),
{
    let mut j = p;
    while j < d.len() && d[j] != NEWLINE
        invariant
            p <= j <= d@.len(),
            newline_from(d@, p as int) == newline_from(d@, j as int),
        decreases d@.len() - j,
    {
        j = j + 1;
    }
    j
}

fn find_name_end(d: &Vec<u8>, p: usize) -> (r: usize)
    requires
        p <= d@.len(),
    ensures
        r == name_end(d@, p as int),
        p <= r <= d@.len(),
{
    let mut j = p;
    while j < d.len() && !(d[j] == 32u8 || d[j] == 9u8 || terminator(d[j]))
        invariant
            p <= j <= d@.len(),
            name_end(d@, p as int) == name_end(d@, j as int),
        decreases d@.len() - j,
    {
        j = j + 1;
    }
    j
}

fn find_marked_line(d: &Vec<u8>, q: usize, m: u8) -> (r: usize)
    requires
        q <= d@.len(),
    ensures
        r == marked_line_from(d@, q as int, m),
        q <= r <= d@.len(),
{
    let mut j = q;
    while j < d.len() && !(d[j] == m && (j == 0 || d[j - 1] == NEWLINE))
        invariant
            q <= j <= d@.len(),
            marked_line_from(d@, q as int, m) == marked_line_from(d@, j as int, m),
        decreases d@.len() - j,
    {
        j = j + 1;
    }
    j
}

fn next_line(d: &Vec<u8>, p: usize) -> (r: usize)
    requires
        p <= d@.len(),
    ensures
        r == line_after(d@, p as int),
        r <= d@.len(),
        p < d@.len() ==> p < r,
{
    let n = find_newline(d, p);
    if n < d.len() {
        n + 1
    } else {
        n
    }
}

/// Number of bases (bytes other than line terminators) in `d[p..q]`.
pub fn count_bases(d: &Vec<u8>, p: usize, q: usize) -> (r: usize)
    requires
        p <= q <= d@.len(),
    ensures
        r == strip(d@, p as int, q as int).len(),
{
    let mut j = p;
    let mut n: usize = 0;
    while j < q
        invariant
            p <= j <= q <= d@.len(),
            n == strip(d@, p as int, j as int).len(),
            n <= j - p,
        decreases q - j,
    {
        if !terminator(d[j]) {
            n = n + 1;
        }
        j = j + 1;
    }
    n
}

/// The bytes `d[p..q]` as a vector of their own.
pub fn copy_bytes(d: &[u8], p: usize, q: usize) -> (r: Vec<u8>)
    requires
        p <= q <= d@.len(),
    ensures
        r@ == d@.subrange(p as int, q as int),
{
    let mut out: Vec<u8> = Vec::new();
    let mut j = p;
    while j < q
        invariant
            p <= j <= q <= d@.len(),
            out@ == d@.subrange(p as int, j as int),
        decreases q - j,
    {
        out.push(d[j]);
        j = j + 1;
    }
    out
}

/// The name of the record whose header line starts at `h`.
pub fn record_name(d: &Vec<u8>, h: usize, fmt: FastaFormat) -> (r: Vec<u8>)
    requires
        h < d@.len() < usize::MAX,
    ensures
        r@ == record_at(d@, h as int, fmt).name,
{
    reveal(record_at);
    let ne = find_name_end(d, h + 1);
    copy_bytes(d.as_slice(), h + 1, ne)
}

/// Reads the record whose header line starts at `h`, and says where it
/// ends; `None` when the record is not well formed.
pub fn read_record(d: &Vec<u8>, h: usize, fmt: FastaFormat) -> (r: Option<(SeqRecord, usize)>)
    requires
        h < d@.len() < usize::MAX,
        d@[h as int] == header_mark(fmt),
    ensures
        match r {
            Some((rec, end)) => {
                &&& record_ok(d@, h as int, fmt)
                &&& rec@ == record_at(d@, h as int, fmt)
                &&& end == record_end(d@, h as int, fmt)
                &&& h < end <= d@.len()
            },
            None => !record_ok(d@, h as int, fmt),
        },
{
    reveal(record_at);
    reveal(record_end);
    reveal(record_ok);
    let ne = find_name_end(d, h + 1);
    let name = copy_bytes(d.as_slice(), h + 1, ne);
    let offset = next_line(d, h);
    let se = find_marked_line(d, offset, stop_byte(fmt));
    let nl = find_newline(d, offset);
    let fle = if nl < se {
        nl
    } else {
        se
    };
    let lb = count_bases(d, offset, fle);
    let lbytes = fle - offset + 1;
    let (ok, length) = check_layout(d, offset, se, lb, lbytes);
    if !ok {
        return None;
    }
    match fmt {
        FastaFormat::Fasta => {
            let rec = SeqRecord {
                name,
                length,
                offset,
                line_bases: lb,
                line_bytes: lbytes,
                qual_offset: 0,
            };
            Some((rec, se))
        },
        FastaFormat::Fastq => {
            if se >= d.len() {
                return None;
            }
            let qo = next_line(d, se);
            let qe = if length == 0 {
                qo
            } else {
                let last = base_at(qo, lb, lbytes, length - 1);
                if last >= d.len() as u128 {
                    return None;
                }
                next_line(d, last as usize)
            };
            let (okq, qlen) = check_layout(d, qo, qe, lb, lbytes);
            if !okq || qlen != length {
                return None;
            }
            let rec = SeqRecord {
                name,
                length,
                offset,
                line_bases: lb,
                line_bytes: lbytes,
                qual_offset: qo,
            };
            Some((rec, qe))
        },
    }
}

} // verus!
