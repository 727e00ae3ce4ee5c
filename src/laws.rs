//! Properties that relate several calls of the library.
use vstd::prelude::*;
use crate::error::FastaError;
use crate::fai::fai_lines;
use crate::handle::FastaIndex;
use crate::index::index_valid;
use crate::layout::strip;
use crate::reader::{span, FastaReader};
use crate::record::{bases_of, record_at, record_end, record_ok, seq_end, FastaFormat, RecordInfo};

verus! {

/// Round trip: fetching a whole record, `[0, length)`, gives the record's
/// sequence lines joined with their terminators stripped.
pub proof fn law_whole_record_is_stripped_lines(
    d: Seq<u8>,
    fmt: FastaFormat,
    hs: Seq<int>,
    rs: Seq<RecordInfo>,
    k: int,
)
    requires
        index_valid(d, fmt, hs, rs),
        0 <= k < rs.len(),
    ensures
        span(bases_of(d, rs[k]), 0, rs[k].length as int) == strip(d, rs[k].offset, seq_end(d, hs[k], fmt)),
{
    assert(record_ok(d, hs[k], fmt));
    crate::record::lemma_record_facts(d, hs[k], fmt);
    let b = bases_of(d, rs[k]);
    assert(span(b, 0, rs[k].length as int) =~= b);
}

/// Splitting: for `a <= b <= c <= length`, the range `[a, b)` followed by
/// `[b, c)` is the range `[a, c)`.
pub proof fn law_split_ranges(d: Seq<u8>, r: RecordInfo, a: int, b: int, c: int)
    requires
        0 <= a <= b <= c <= r.length,
    ensures
        span(bases_of(d, r), a, b) + span(bases_of(d, r), b, c) == span(bases_of(d, r), a, c),
{
    let s = bases_of(d, r);
    assert(span(s, a, b) + span(s, b, c) =~= span(s, a, c));
}

/// Presence: `has_sequence(name)` is true exactly when
/// `sequence_length(name)` is some length.
pub proof fn law_has_iff_length(idx: &FastaIndex, name: &str, has: bool, len: Option<i64>)
    requires
        call_ensures(FastaIndex::has_sequence, (idx, name), has),
        call_ensures(FastaIndex::sequence_length, (idx, name), len),
    ensures
        has == len.is_some(),
{
}

proof fn lemma_ok_header_inside(d: Seq<u8>, h: int, fmt: FastaFormat)
    requires
        record_ok(d, h, fmt),
    ensures
        0 <= h < d.len(),
{
    reveal(record_ok);
}

proof fn lemma_same_headers(
    d: Seq<u8>,
    fmt: FastaFormat,
    hs1: Seq<int>,
    rs1: Seq<RecordInfo>,
    hs2: Seq<int>,
    rs2: Seq<RecordInfo>,
    k: int,
)
    requires
        index_valid(d, fmt, hs1, rs1),
        index_valid(d, fmt, hs2, rs2),
        0 <= k < hs1.len(),
        k < hs2.len(),
    ensures
        hs1[k] == hs2[k],
    decreases k,
{
    if k > 0 {
        lemma_same_headers(d, fmt, hs1, rs1, hs2, rs2, k - 1);
        assert(hs1[k] == record_end(d, hs1[k - 1], fmt));
        assert(hs2[k] == record_end(d, hs2[k - 1], fmt));
    }
}

/// Determinism: a source has at most one valid index table, so building the
/// index of an unchanged source twice gives identical tables.
pub proof fn law_index_is_unique(
    d: Seq<u8>,
    fmt: FastaFormat,
    hs1: Seq<int>,
    rs1: Seq<RecordInfo>,
    hs2: Seq<int>,
    rs2: Seq<RecordInfo>,
)
    requires
        index_valid(d, fmt, hs1, rs1),
        index_valid(d, fmt, hs2, rs2),
    ensures
        hs1 == hs2,
        rs1 == rs2,
{
    let n = if hs1.len() < hs2.len() {
        hs1.len() as int
    } else {
        hs2.len() as int
    };
    assert forall|j: int| 0 <= j < n implies hs1[j] == hs2[j] by {
        lemma_same_headers(d, fmt, hs1, rs1, hs2, rs2, j);
    }
    if hs1.len() != hs2.len() {
        if hs1.len() < hs2.len() {
            assert(record_ok(d, hs2[n], fmt));
            lemma_ok_header_inside(d, hs2[n], fmt);
            if n > 0 {
                assert(hs2[n] == record_end(d, hs2[n - 1], fmt));
            }
        } else {
            assert(record_ok(d, hs1[n], fmt));
            lemma_ok_header_inside(d, hs1[n], fmt);
            if n > 0 {
                assert(hs1[n] == record_end(d, hs1[n - 1], fmt));
            }
        }
    }
    assert(hs1 =~= hs2);
    assert forall|j: int| 0 <= j < rs1.len() implies rs1[j] == rs2[j] by {
        assert(rs1[j] == record_at(d, hs1[j], fmt));
        assert(rs2[j] == record_at(d, hs2[j], fmt));
    }
    assert(rs1 =~= rs2);
}

/// Determinism of the persisted table: two valid tables of one source
/// persist to the same bytes.
pub proof fn law_persisted_table_is_unique(
    d: Seq<u8>,
    fmt: FastaFormat,
    hs1: Seq<int>,
    rs1: Seq<RecordInfo>,
    hs2: Seq<int>,
    rs2: Seq<RecordInfo>,
)
    requires
        index_valid(d, fmt, hs1, rs1),
        index_valid(d, fmt, hs2, rs2),
    ensures
        fai_lines(rs1, fmt) == fai_lines(rs2, fmt),
{
    law_index_is_unique(d, fmt, hs1, rs1, hs2, rs2);
}

/// Isolation: two reading sessions over the same index give the same answer
/// to the same request, whatever else either has been asked before.
pub proof fn law_sessions_agree(
    r1: &FastaReader,
    r2: &FastaReader,
    name: &[u8],
    start: i64,
    end: i64,
    o1: Result<Vec<u8>, FastaError>,
    o2: Result<Vec<u8>, FastaError>,
)
    requires
        r1.source() == r2.source(),
        r1.records() == r2.records(),
        call_ensures(FastaReader::fetch_seq_bytes, (r1, name, start, end), o1),
        call_ensures(FastaReader::fetch_seq_bytes, (r2, name, start, end), o2),
    ensures
        o1 is Ok <==> o2 is Ok,
        o1 matches Ok(v1) ==> o2 matches Ok(v2) ==> v1@ == v2@,
        (o1 matches Err(FastaError::SequenceNotFound(_))) <==> (o2 matches Err(
            FastaError::SequenceNotFound(_),
        )),
        (o1 matches Err(FastaError::OutOfRange(_))) <==> (o2 matches Err(FastaError::OutOfRange(_))),
{
}

} // verus!
