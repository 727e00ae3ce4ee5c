//! The persisted form of an index table: one tab-separated line per record,
//! `name length offset line_bases line_bytes`, and for FASTQ the quality
//! offset after them.
use vstd::prelude::*;
use crate::index::infos;
use crate::record::{FastaFormat, RecordInfo, SeqRecord};

verus! {

pub const TAB: u8 = 9;

/// The decimal digits of `n`.
pub open spec fn decimal(n: nat) -> Seq<u8>
    decreases n,
{
    if n < 10 {
        seq![(48 + n) as u8]
    } else {
        decimal(n / 10).push((48 + n % 10) as u8)
    }
}

/// The line of the persisted table that describes record `r`.
pub open spec fn fai_line(r: RecordInfo, fmt: FastaFormat) -> Seq<u8> {
    let head = r.name + seq![TAB] + decimal(r.length as nat) + seq![TAB] + decimal(r.offset as nat)
        + seq![TAB] + decimal(r.line_bases as nat) + seq![TAB] + decimal(r.line_bytes as nat);
    match fmt {
        FastaFormat::Fasta => head + seq![10u8],
        FastaFormat::Fastq => head + seq![TAB] + decimal(r.qual_offset as nat) + seq![10u8],
    }
}

/// The persisted table of records `rs`, line after line.
pub open spec fn fai_lines(rs: Seq<RecordInfo>, fmt: FastaFormat) -> Seq<u8>
    decreases rs.len(),
{
    if rs.len() == 0 {
        Seq::empty()
    } else {
        fai_lines(rs.drop_last(), fmt) + fai_line(rs.last(), fmt)
    }
}

/// Appends the decimal digits of `n`.
pub fn push_decimal(out: &mut Vec<u8>, n: usize)
    ensures
        final(out)@ == old(out)@ + decimal(n as nat),
    decreases n,
{
    if n >= 10 {
        push_decimal(out, n / 10);
    }
    out.push(48u8 + (n % 10) as u8);
    assert(final(out)@ =~= old(out)@ + decimal(n as nat)) by {
        if n >= 10 {
            assert(decimal(n as nat) == decimal((n / 10) as nat).push((48 + n % 10) as u8));
        }
    }
}

fn push_all(out: &mut Vec<u8>, b: &Vec<u8>)
    ensures
        final(out)@ == old(out)@ + b@,
{
    let mut i: usize = 0;
    while i < b.len()
        invariant
            i <= b@.len(),
            out@ == old(out)@ + b@.subrange(0, i as int),
        decreases b@.len() - i,
    {
        out.push(b[i]);
        i = i + 1;
        assert(out@ =~= old(out)@ + b@.subrange(0, i as int));
    }
    assert(b@.subrange(0, b@.len() as int) =~= b@);
}

/// Appends the line that describes `r`.
pub fn push_fai_line(out: &mut Vec<u8>, r: &SeqRecord, fmt: FastaFormat)
    ensures
        final(out)@ == old(out)@ + fai_line(r@, fmt),
{
    push_all(out, &r.name);
    out.push(TAB);
    push_decimal(out, r.length);
    out.push(TAB);
    push_decimal(out, r.offset);
    out.push(TAB);
    push_decimal(out, r.line_bases);
    out.push(TAB);
    push_decimal(out, r.line_bytes);
    match fmt {
        FastaFormat::Fasta => {},
        FastaFormat::Fastq => {
            out.push(TAB);
            push_decimal(out, r.qual_offset);
        },
    }
    out.push(10u8);
    assert(out@ =~= old(out)@ + fai_line(r@, fmt));
}

/// The persisted table of `recs`.
pub fn fai_table(recs: &Vec<SeqRecord>, fmt: FastaFormat) -> (r: Vec<u8>)
    ensures
        r@ == fai_lines(infos(recs@), fmt),
{
    let mut out: Vec<u8> = Vec::new();
    let mut i: usize = 0;
    while i < recs.len()
        invariant
            i <= recs@.len(),
            out@ == fai_lines(infos(recs@.subrange(0, i as int)), fmt),
        decreases recs@.len() - i,
    {
        push_fai_line(&mut out, &recs[i], fmt);
        let ghost done = infos(recs@.subrange(0, i + 1));
        assert(done.drop_last() =~= infos(recs@.subrange(0, i as int)));
        assert(done.last() == recs@[i as int]@);
        i = i + 1;
    }
    assert(recs@.subrange(0, recs@.len() as int) =~= recs@);
    out
}

} // verus!
verus! {

/// Reads a decimal field that runs from `p` to the first `stop` byte: its
/// digits must be the decimal digits of a `usize`, written without leading
/// zeros.
fn parse_field(b: &[u8], p: usize, stop: u8) -> (r: Option<(usize, usize)>)
    ensures
        r matches Some((v, e)) ==> p < e < b@.len() && b@[e as int] == stop && b@.subrange(
            p as int,
            e as int,
        ) == decimal(v as nat),
{
    let n = b.len();
    let mut j = p;
    let mut v: u128 = 0;
    while j < n && b[j] >= 48u8 && b[j] <= 57u8
        invariant
            p <= j,
            n == b@.len(),
            v <= 0xffff_ffff_ffff_ffffu128,
        decreases n - j,
    {
        assert(v * 10 <= 0xffff_ffff_ffff_ffffu128 * 10) by (nonlinear_arith)
            requires
                v <= 0xffff_ffff_ffff_ffffu128,
        ;
        v = v * 10 + (b[j] - 48u8) as u128;
        if v > usize::MAX as u128 {
            return None;
        }
        j = j + 1;
    }
    if j == p || j >= n || b[j] != stop {
        return None;
    }
    let value = v as usize;
    let mut rendered: Vec<u8> = Vec::new();
    push_decimal(&mut rendered, value);
    let field = crate::record::copy_bytes(b, p, j);
    if !crate::index::bytes_eq(rendered.as_slice(), field.as_slice()) {
        return None;
    }
    Some((value, j))
}

/// Reads one line of a persisted table, starting at `p`.
fn parse_fai_line(b: &[u8], p: usize, fmt: FastaFormat) -> (r: Option<(SeqRecord, usize)>)
    ensures
        r matches Some((rec, e)) ==> p < e <= b@.len() && b@.subrange(p as int, e as int)
            == fai_line(rec@, fmt),
{
    let n = b.len();
    let mut t = p;
    while t < n && b[t] != TAB
        invariant
            p <= t,
            n == b@.len(),
        decreases n - t,
    {
        t = t + 1;
    }
    if t >= n {
        return None;
    }
    let name = crate::record::copy_bytes(b, p, t);
    let (length, e1) = match parse_field(b, t + 1, TAB) {
        Some(f) => f,
        None => {
            return None;
        },
    };
    let (offset, e2) = match parse_field(b, e1 + 1, TAB) {
        Some(f) => f,
        None => {
            return None;
        },
    };
    let (line_bases, e3) = match parse_field(b, e2 + 1, TAB) {
        Some(f) => f,
        None => {
            return None;
        },
    };
    let ghost head = b@.subrange(p as int, t as int) + seq![TAB] + decimal(length as nat) + seq![TAB]
        + decimal(offset as nat) + seq![TAB] + decimal(line_bases as nat) + seq![TAB];
    assert(b@.subrange(p as int, e3 + 1) =~= head);
    match fmt {
        FastaFormat::Fasta => {
            let (line_bytes, e4) = match parse_field(b, e3 + 1, 10u8) {
                Some(f) => f,
                None => {
                    return None;
                },
            };
            let rec = SeqRecord { name, length, offset, line_bases, line_bytes, qual_offset: 0 };
            assert(b@.subrange(p as int, e4 + 1) =~= head + decimal(line_bytes as nat) + seq![10u8]);
            assert(b@.subrange(p as int, e4 + 1) =~= fai_line(rec@, fmt));
            Some((rec, e4 + 1))
        },
        FastaFormat::Fastq => {
            let (line_bytes, e4) = match parse_field(b, e3 + 1, TAB) {
                Some(f) => f,
                None => {
                    return None;
                },
            };
            let (qual_offset, e5) = match parse_field(b, e4 + 1, 10u8) {
                Some(f) => f,
                None => {
                    return None;
                },
            };
            let rec = SeqRecord { name, length, offset, line_bases, line_bytes, qual_offset };
            assert(b@.subrange(p as int, e5 + 1) =~= head + decimal(line_bytes as nat) + seq![TAB]
                + decimal(qual_offset as nat) + seq![10u8]);
            assert(b@.subrange(p as int, e5 + 1) =~= fai_line(rec@, fmt));
            Some((rec, e5 + 1))
        },
    }
}

/// Reads a persisted table back: when it succeeds, the records read persist
/// to exactly the bytes given.
pub fn parse_fai(b: &[u8], fmt: FastaFormat) -> (r: Option<Vec<SeqRecord>>)
    ensures
        r matches Some(recs) ==> fai_lines(infos(recs@), fmt) == b@,
{
    let mut recs: Vec<SeqRecord> = Vec::new();
    let mut pos: usize = 0;
    let n = b.len();
    while pos < n
        invariant
            pos <= n == b@.len(),
            fai_lines(infos(recs@), fmt) == b@.subrange(0, pos as int),
        decreases n - pos,
    {
        let (rec, e) = match parse_fai_line(b, pos, fmt) {
            Some(line) => line,
            None => {
                return None;
            },
        };
        let ghost before = recs@;
        recs.push(rec);
        assert(infos(recs@).drop_last() =~= infos(before));
        assert(b@.subrange(0, e as int) =~= b@.subrange(0, pos as int) + b@.subrange(
            pos as int,
            e as int,
        ));
        pos = e;
    }
    assert(b@.subrange(0, n as int) =~= b@);
    Some(recs)
}

} // verus!
