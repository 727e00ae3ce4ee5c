//! Building the index table of a source.
use vstd::prelude::*;
use crate::error::FastaError;
use crate::record::{
    header_byte, header_mark, read_record, record_name, record_at, record_end, record_ok, FastaFormat,
    RecordInfo, SeqRecord,
};
use crate::text::{decoded, text_of};

verus! {

/// No two records share a name.
pub open spec fn names_unique(rs: Seq<RecordInfo>) -> bool {
    forall|i: int, j: int| 0 <= i < j < rs.len() ==> #[trigger] rs[i].name != #[trigger] rs[j].name
}

/// `rs` is the index table of source `d`, the records' headers standing at
/// `hs`: the first record starts the source, each record ends where the next
/// one's header starts, the last one ends the source, every record is well
/// formed and described as `record_at` says, and names are unique.
pub open spec fn index_valid(d: Seq<u8>, fmt: FastaFormat, hs: Seq<int>, rs: Seq<RecordInfo>) -> bool {
    &&& hs.len() == rs.len()
    &&& hs.len() == 0 ==> d.len() == 0
    &&& hs.len() > 0 ==> hs[0] == 0 && record_end(d, hs.last(), fmt) == d.len()
    &&& forall|k: int|
        0 <= k < hs.len() ==> record_ok(d, #[trigger] hs[k], fmt) && rs[k] == record_at(
            d,
            hs[k],
            fmt,
        )
    &&& forall|k: int| 0 < k < hs.len() ==> #[trigger] hs[k] == record_end(d, hs[k - 1], fmt)
    &&& names_unique(rs)
}

/// The source can be indexed: some table is valid for it.
pub open spec fn source_ok(d: Seq<u8>, fmt: FastaFormat) -> bool {
    exists|hs: Seq<int>, rs: Seq<RecordInfo>| index_valid(d, fmt, hs, rs)
}

/// What a vector of records describes.
pub open spec fn infos(recs: Seq<SeqRecord>) -> Seq<RecordInfo> {
    recs.map_values(|r: SeqRecord| r@)
}

/// Tells whether two byte strings are equal.
pub fn bytes_eq(a: &[u8], b: &[u8]) -> (r: bool)
    ensures
        r == (a@ == b@),
{
    if a.len() != b.len() {
        return false;
    }
    let mut i: usize = 0;
    while i < a.len()
        invariant
            a@.len() == b@.len(),
            i <= a@.len(),
            forall|k: int| 0 <= k < i ==> a@[k] == b@[k],
        decreases a@.len() - i,
    {
        if a[i] != b[i] {
            return false;
        }
        i = i + 1;
    }
    assert(a@ =~= b@);
    true
}

/// Every valid table of `d` starts with the headers `hs`, and has one more
/// header at `pos` unless `pos` ends the source.
pub open spec fn prefix_forced(d: Seq<u8>, fmt: FastaFormat, hs: Seq<int>, pos: int) -> bool {
    forall|hs2: Seq<int>, rs2: Seq<RecordInfo>|
        #[trigger] index_valid(d, fmt, hs2, rs2) ==> {
            &&& hs2.len() >= hs.len()
            &&& forall|k: int| 0 <= k < hs.len() ==> hs2[k] == hs[k]
            &&& pos < d.len() ==> hs2.len() > hs.len() && hs2[hs.len() as int] == pos
        }
}

proof fn lemma_fail_at(d: Seq<u8>, fmt: FastaFormat, hs: Seq<int>, pos: int)
    requires
        prefix_forced(d, fmt, hs, pos),
        pos < d.len(),
        !record_ok(d, pos, fmt),
    ensures
        !source_ok(d, fmt),
{
    assert forall|hs2: Seq<int>, rs2: Seq<RecordInfo>| !index_valid(d, fmt, hs2, rs2) by {
        if index_valid(d, fmt, hs2, rs2) {
            assert(record_ok(d, hs2[hs.len() as int], fmt));
        }
    }
}

proof fn lemma_repeated_name(d: Seq<u8>, fmt: FastaFormat, hs: Seq<int>, pos: int, i: int)
    requires
        prefix_forced(d, fmt, hs, pos),
        pos < d.len(),
        0 <= i < hs.len(),
        record_at(d, hs[i], fmt).name == record_at(d, pos, fmt).name,
    ensures
        !source_ok(d, fmt),
{
    assert forall|hs2: Seq<int>, rs2: Seq<RecordInfo>| !index_valid(d, fmt, hs2, rs2) by {
        if index_valid(d, fmt, hs2, rs2) {
            let n = hs.len() as int;
            assert(hs2[i] == hs[i]);
            assert(rs2[i] == record_at(d, hs2[i], fmt));
            assert(rs2[n] == record_at(d, hs2[n], fmt));
            assert(rs2[i].name == rs2[n].name);
        }
    }
}

proof fn lemma_forced_step(d: Seq<u8>, fmt: FastaFormat, hs: Seq<int>, pos: int)
    requires
        prefix_forced(d, fmt, hs, pos),
        pos < d.len(),
    ensures
        prefix_forced(d, fmt, hs.push(pos), record_end(d, pos, fmt)),
{
    let end = record_end(d, pos, fmt);
    let nh = hs.push(pos);
    assert forall|hs2: Seq<int>, rs2: Seq<RecordInfo>|
        #[trigger] index_valid(d, fmt, hs2, rs2) implies {
            &&& hs2.len() >= nh.len()
            &&& forall|k: int| 0 <= k < nh.len() ==> hs2[k] == nh[k]
            &&& end < d.len() ==> hs2.len() > nh.len() && hs2[nh.len() as int] == end
        } by {
        let n = hs.len() as int;
        assert(hs2[n] == pos);
        if end < d.len() && hs2.len() == n + 1 {
            assert(record_end(d, hs2.last(), fmt) == d.len());
        }
        if end < d.len() {
            assert(hs2[n + 1] == record_end(d, hs2[n], fmt));
        }
    }
}

proof fn lemma_good_prefix(
    d: Seq<u8>,
    fmt: FastaFormat,
    hs: Seq<int>,
    recs: Seq<SeqRecord>,
    pos: int,
)
    requires
        hs.len() == recs.len(),
        hs.len() == 0 ==> pos == 0,
        hs.len() > 0 ==> hs[0] == 0 && pos == record_end(d, hs.last(), fmt),
        forall|k: int|
            0 <= k < hs.len() ==> record_ok(d, #[trigger] hs[k], fmt) && recs[k]@ == record_at(
                d,
                hs[k],
                fmt,
            ),
        forall|k: int| 0 < k < hs.len() ==> #[trigger] hs[k] == record_end(d, hs[k - 1], fmt),
        names_unique(infos(recs)),
    ensures
        good_prefix(d, fmt, hs, pos),
{
    assert forall|i: int, j: int| 0 <= i < j < hs.len() implies record_at(
        d,
        #[trigger] hs[i],
        fmt,
    ).name != record_at(d, #[trigger] hs[j], fmt).name by {
        assert(infos(recs)[i].name != infos(recs)[j].name);
    }
}

/// Position of the first record in `recs` named `name`.
pub fn find_name(recs: &Vec<SeqRecord>, name: &[u8]) -> (r: Option<usize>)
    ensures
        match r {
            Some(i) => i < recs@.len() && recs@[i as int].name@ == name@ && forall|k: int|
                0 <= k < i ==> recs@[k].name@ != name@,
            None => forall|k: int| 0 <= k < recs@.len() ==> recs@[k].name@ != name@,
        },
{
    let mut i: usize = 0;
    while i < recs.len()
        invariant
            i <= recs@.len(),
            forall|k: int| 0 <= k < i ==> recs@[k].name@ != name@,
        decreases recs@.len() - i,
    {
        if bytes_eq(recs[i].name.as_slice(), name) {
            return Some(i);
        }
        i = i + 1;
    }
    None
}

/// `hs` are the headers of the first records of `d`, each well formed and
/// named anew, and `pos` is where the record after them should start.
pub open spec fn good_prefix(d: Seq<u8>, fmt: FastaFormat, hs: Seq<int>, pos: int) -> bool {
    &&& hs.len() == 0 ==> pos == 0
    &&& hs.len() > 0 ==> hs[0] == 0 && pos == record_end(d, hs.last(), fmt)
    &&& forall|k: int| 0 <= k < hs.len() ==> record_ok(d, #[trigger] hs[k], fmt)
    &&& forall|k: int| 0 < k < hs.len() ==> #[trigger] hs[k] == record_end(d, hs[k - 1], fmt)
    &&& forall|i: int, j: int|
        0 <= i < j < hs.len() ==> record_at(d, #[trigger] hs[i], fmt).name != record_at(
            d,
            #[trigger] hs[j],
            fmt,
        ).name
}

/// Reading `d` record by record, the first record that spoils it has its
/// header at `pos`: it is malformed, or it repeats an earlier name.
pub open spec fn first_bad_record(d: Seq<u8>, fmt: FastaFormat, pos: int) -> bool {
    exists|hs: Seq<int>|
        #[trigger] good_prefix(d, fmt, hs, pos) && pos < d.len() && d[pos] == header_mark(fmt) && (
        !record_ok(d, pos, fmt) || exists|i: int|
            0 <= i < hs.len() && record_at(d, hs[i], fmt).name == record_at(d, pos, fmt).name)
}

/// Reading `d` record by record, a record should start at `pos` and the byte
/// there is not the header mark.
pub open spec fn first_missing_header(d: Seq<u8>, fmt: FastaFormat, pos: int) -> bool {
    exists|hs: Seq<int>|
        #[trigger] good_prefix(d, fmt, hs, pos) && pos < d.len() && d[pos] != header_mark(fmt)
}

/// Builds the index table of source `d`, one record after the other.
///
/// Fails with `MissingHeader` where a record should start and the byte there
/// is not the format's header mark, and with `FormatError`, naming the
/// record, where a record is not uniformly wrapped, misses its quality lines,
/// or repeats an earlier name. It fails exactly when no valid table exists.
pub fn build_records(d: &Vec<u8>, fmt: FastaFormat) -> (r: Result<
    (Vec<SeqRecord>, Ghost<Seq<int>>),
    FastaError,
>)
    requires
        d@.len() < usize::MAX,
    ensures
        match r {
            Ok((recs, hs)) => index_valid(d@, fmt, hs@, infos(recs@)),
            Err(e) => !source_ok(d@, fmt) && match e {
                FastaError::MissingHeader => exists|pos: int| first_missing_header(d@, fmt, pos),
                FastaError::FormatError(t) => exists|pos: int|
                    first_bad_record(d@, fmt, pos) && t@ == decoded(record_at(d@, pos, fmt).name),
                _ => false,
            },
        },
{
    let mark = header_byte(fmt);
    let mut recs: Vec<SeqRecord> = Vec::new();
    let ghost mut hs: Seq<int> = Seq::empty();
    let mut pos: usize = 0;
    while pos < d.len()
        invariant
            pos <= d@.len() < usize::MAX,
            mark == header_mark(fmt),
            hs.len() == recs@.len(),
            hs.len() == 0 ==> pos == 0,
            hs.len() > 0 ==> hs[0] == 0 && pos == record_end(d@, hs.last(), fmt),
            forall|k: int|
                0 <= k < hs.len() ==> record_ok(d@, #[trigger] hs[k], fmt) && recs@[k]@
                    == record_at(d@, hs[k], fmt),
            forall|k: int| 0 < k < hs.len() ==> #[trigger] hs[k] == record_end(d@, hs[k - 1], fmt),
            names_unique(infos(recs@)),
            prefix_forced(d@, fmt, hs, pos as int),
        decreases d@.len() - pos,
    {
        if d[pos] != mark {
            proof {
                reveal(record_ok);
                lemma_fail_at(d@, fmt, hs, pos as int);
                lemma_good_prefix(d@, fmt, hs, recs@, pos as int);
                assert(first_missing_header(d@, fmt, pos as int));
            }
            return Err(FastaError::MissingHeader);
        }
        let read = read_record(d, pos, fmt);
        match read {
            None => {
                proof {
                    lemma_fail_at(d@, fmt, hs, pos as int);
                }
                let name = record_name(d, pos, fmt);
                proof {
                    lemma_good_prefix(d@, fmt, hs, recs@, pos as int);
                    assert(first_bad_record(d@, fmt, pos as int));
                }
                return Err(FastaError::FormatError(text_of(name.as_slice())));
            },
            Some((rec, end)) => {
                match find_name(&recs, rec.name.as_slice()) {
                    Some(i) => {
                        proof {
                            lemma_repeated_name(d@, fmt, hs, pos as int, i as int);
                            lemma_good_prefix(d@, fmt, hs, recs@, pos as int);
                            assert(record_at(d@, hs[i as int], fmt).name == record_at(
                                d@,
                                pos as int,
                                fmt,
                            ).name);
                            assert(first_bad_record(d@, fmt, pos as int));
                        }
                        return Err(FastaError::FormatError(text_of(rec.name.as_slice())));
                    },
                    None => {},
                }
                proof {
                    lemma_forced_step(d@, fmt, hs, pos as int);
                    hs = hs.push(pos as int);
                }
                let ghost old_recs = recs@;
                recs.push(rec);
                pos = end;
                proof {
                    assert(infos(recs@) =~= infos(old_recs).push(rec@));
                    assert forall|i: int, j: int|
                        0 <= i < j < infos(recs@).len() implies #[trigger] infos(recs@)[i].name
                        != #[trigger] infos(recs@)[j].name by {
                        if j == old_recs.len() {
                            assert(old_recs[i].name@ != rec.name@);
                        } else {
                            assert(infos(old_recs)[i].name != infos(old_recs)[j].name);
                        }
                    }
                }
            },
        }
    }
    proof {
        assert forall|k: int| 0 <= k < hs.len() implies record_ok(d@, #[trigger] hs[k], fmt)
            && infos(recs@)[k] == record_at(d@, hs[k], fmt) by {
            assert(recs@[k]@ == record_at(d@, hs[k], fmt));
        }
    }
    Ok((recs, Ghost(hs)))
}

} // verus!
