//! The shared, read-only index handle.
use std::sync::Arc;
use vstd::prelude::*;
use vstd::string::StringSliceAdditionalSpecFns;
use crate::error::FastaError;
use crate::fai::{fai_lines, fai_table};
use crate::index::{build_records, first_bad_record, first_missing_header, find_name, index_valid, infos, names_unique, source_ok};
use crate::record::{lemma_record_facts, record_at, record_ok, FastaFormat, RecordInfo, SeqRecord};
use crate::bgzf::{
    blocks_inflate, blocks_valid, build_checkpoints, lemma_stream_unique, table_exists, checkpoints_valid, inflate_all, parse_blocks, read_span,
    stream_valid, BgzfBlock, Checkpoint,
};
use crate::layout::{base_at, lemma_wrapped_pos_mono, wrapped_pos};
use crate::text::{decoded, text_of};

verus! {

/// Result type for FASTA operations
pub type FastaResult<T> = Result<T, FastaError>;

/// A BGZF source kept compressed, with its block table and checkpoints.
pub struct BlockedSource {
    data: Vec<u8>,
    blocks: Vec<BgzfBlock>,
    checkpoints: Vec<Checkpoint>,
    interval: usize,
}

/// How the bytes of a source are kept.
pub enum Storage {
    /// As they are.
    Plain(Vec<u8>),
    /// Block-compressed; read through checkpoints.
    Blocked(BlockedSource),
}

/// The immutable table behind every handle of one index.
pub struct IndexTable {
    storage: Storage,
    text: Ghost<Seq<u8>>,
    format: FastaFormat,
    records: Vec<SeqRecord>,
    headers: Ghost<Seq<int>>,
}

/// The storage holds `text`: plainly, or as BGZF blocks that decompress to
/// it, with valid checkpoints.
spec fn storage_holds(st: Storage, text: Seq<u8>) -> bool {
    match st {
        Storage::Plain(v) => v@ == text,
        Storage::Blocked(b) => {
            &&& blocks_valid(b.data@, b.blocks@)
            &&& blocks_inflate(b.data@, b.blocks@)
            &&& stream_valid(b.data@, b.blocks@, text)
            &&& checkpoints_valid(b.blocks@, b.interval as int, b.checkpoints@)
        },
    }
}

/// `text` is what the BGZF source `data` decompresses to: it has a block
/// table whose every block inflates to its declared size, and `text` is the
/// stream of those blocks.
pub open spec fn decompresses_to(data: Seq<u8>, text: Seq<u8>) -> bool {
    exists|bs: Seq<BgzfBlock>|
        blocks_valid(data, bs) && blocks_inflate(data, bs) && stream_valid(data, bs, text)
}

/// `e` is the error of indexing text `d` that cannot be indexed: a missing
/// header, or a format error naming the first bad record.
pub open spec fn load_error(d: Seq<u8>, fmt: FastaFormat, e: FastaError) -> bool {
    &&& !source_ok(d, fmt)
    &&& match e {
        FastaError::MissingHeader => exists|pos: int| first_missing_header(d, fmt, pos),
        FastaError::FormatError(t) => exists|pos: int|
            first_bad_record(d, fmt, pos) && t@ == decoded(record_at(d, pos, fmt).name),
        _ => false,
    }
}

/// Copies the values at wrapped positions `start..stop` of a block at `off`
/// out of `d`, which holds `src[base..]`; `None` when one of the positions
/// falls outside `d`.
fn gather(
    d: &Vec<u8>,
    base: usize,
    off: usize,
    lb: usize,
    lbytes: usize,
    start: usize,
    stop: usize,
    Ghost(src): Ghost<Seq<u8>>,
) -> (r: Option<Vec<u8>>)
    requires
        start <= stop,
        start < stop ==> lb > 0,
        base + d@.len() <= src.len(),
        d@ == src.subrange(base as int, base + d@.len()),
    ensures
        r matches Some(v) ==> v@ == Seq::new(
            (stop - start) as nat,
            |k: int| src[wrapped_pos(off as int, lb as int, lbytes as int, start + k)],
        ),
        (forall|i: int|
            start <= i < stop ==> base <= #[trigger] wrapped_pos(
                off as int,
                lb as int,
                lbytes as int,
                i,
            ) < base + d@.len()) ==> r is Some,
{
    let n = d.len();
    let mut out: Vec<u8> = Vec::new();
    let mut i = start;
    while i < stop
        invariant
            start <= i <= stop,
            start < stop ==> lb > 0,
            n == d@.len(),
            base + d@.len() <= src.len(),
            d@ == src.subrange(base as int, base + d@.len()),
            out@ == Seq::new(
                (i - start) as nat,
                |k: int| src[wrapped_pos(off as int, lb as int, lbytes as int, start + k)],
            ),
        decreases stop - i,
    {
        let at = base_at(off, lb, lbytes, i);
        if at < base as u128 || at - (base as u128) >= n as u128 {
            return None;
        }
        let ghost prev = out@;
        let x = d[(at - base as u128) as usize];
        assert(x == src[at as int]);
        out.push(x);
        assert(out@ =~= Seq::new(
            (i + 1 - start) as nat,
            |k: int| src[wrapped_pos(off as int, lb as int, lbytes as int, start + k)],
        )) by {
            assert forall|k: int| 0 <= k < i + 1 - start implies out@[k] == src[wrapped_pos(
                off as int,
                lb as int,
                lbytes as int,
                start + k,
            )] by {
                if k < i - start {
                    assert(out@[k] == prev[k]);
                } else {
                    assert(start + k == i);
                }
            }
        }
        i = i + 1;
    }
    Some(out)
}

/// Relies on `Arc::clone`: the new pointer shares the allocation, so it
/// stands for the same table.
#[verifier::external_body]
fn share_table(t: &Arc<IndexTable>) -> (r: Arc<IndexTable>)
    ensures
        r == *t,
{
    Arc::clone(t)
}

/// The record named `name` in `rs`, if one is.
pub open spec fn lookup_in(rs: Seq<RecordInfo>, name: Seq<u8>) -> Option<RecordInfo> {
    if exists|k: int| 0 <= k < rs.len() && rs[k].name == name {
        let k = choose|k: int| 0 <= k < rs.len() && rs[k].name == name;
        Some(rs[k])
    } else {
        None
    }
}

/// A shared handle on the index table of one source.
///
/// Cloning a handle shares the table: nothing in it changes after it has
/// been built, so handles can go to many threads, each of which opens its
/// own reader.
pub struct FastaIndex {
    table: Arc<IndexTable>,
}

impl FastaIndex {
    /// The source bytes that the index describes (decompressed, for a
    /// BGZF source).
    pub closed spec fn source(&self) -> Seq<u8> {
        self.table.text@
    }

    /// The source is kept block-compressed.
    pub closed spec fn compressed(&self) -> bool {
        self.table.storage is Blocked
    }

    /// The format the source was read in.
    pub closed spec fn format(&self) -> FastaFormat {
        self.table.format
    }

    /// The records, in the order of the source.
    pub closed spec fn records(&self) -> Seq<RecordInfo> {
        infos(self.table.records@)
    }

    /// Where each record's header line starts.
    pub closed spec fn headers(&self) -> Seq<int> {
        self.table.headers@
    }

    #[verifier::type_invariant]
    spec fn well_formed(&self) -> bool {
        &&& index_valid(self.source(), self.format(), self.headers(), self.records())
        &&& storage_holds(self.table.storage, self.source())
        &&& self.source().len() < usize::MAX
        &&& self.source().len() <= i64::MAX
    }

    /// The record named `name`.
    pub open spec fn lookup(&self, name: Seq<u8>) -> Option<RecordInfo> {
        lookup_in(self.records(), name)
    }

    /// A record's numbers fit the integer types of the interface.
    proof fn lemma_record_fits(&self, k: int)
        requires
            0 <= k < self.records().len(),
            index_valid(self.source(), self.format(), self.headers(), self.records()),
            self.source().len() <= i64::MAX,
        ensures
            0 <= self.records()[k].length <= self.source().len() <= i64::MAX,
    {
        assert(record_ok(self.source(), self.headers()[k], self.format()));
        lemma_record_facts(self.source(), self.headers()[k], self.format());
    }

    /// Builds the index of a source held in memory.
    ///
    /// Fails with `MemoryError` when the source is longer than positions can
    /// count, and otherwise exactly when the source cannot be indexed: with
    /// `MissingHeader` where a record should start and does not, or with
    /// `FormatError` naming the first record that is malformed or repeats a
    /// name.
    pub fn new(data: Vec<u8>, format: FastaFormat) -> (r: FastaResult<FastaIndex>)
        ensures
            match r {
                Ok(idx) => {
                    &&& idx.source() == data@
                    &&& !idx.compressed()
                    &&& idx.format() == format
                    &&& data@.len() < usize::MAX && data@.len() <= i64::MAX
                    &&& index_valid(data@, format, idx.headers(), idx.records())
                },
                Err(FastaError::MemoryError) => data@.len() >= usize::MAX || data@.len() > i64::MAX,
                Err(e) => data@.len() < usize::MAX && data@.len() <= i64::MAX && load_error(
                    data@,
                    format,
                    e,
                ),
            },
    {
        if data.len() == usize::MAX || data.len() as u128 > i64::MAX as u128 {
            return Err(FastaError::MemoryError);
        }
        match build_records(&data, format) {
            Ok((records, headers)) => {
                let text = Ghost(data@);
                let table = IndexTable { storage: Storage::Plain(data), text, format, records, headers };
                Ok(FastaIndex { table: Arc::new(table) })
            },
            Err(e) => Err(e),
        }
    }

    /// Builds the index of a BGZF-compressed source held in memory. The
    /// source stays compressed; a checkpoint is set every `interval`
    /// decompressed bytes, so that a later read decompresses at most the
    /// blocks from the checkpoint before it to its end.
    ///
    /// Fails with `InvalidInterval` for an interval of 0, with `CorruptBlock`
    /// exactly when the source is not a chain of whole BGZF blocks that
    /// inflate to their declared sizes, with `MemoryError` when the
    /// decompressed text is longer than positions can count, and otherwise
    /// exactly when the decompressed text cannot be indexed.
    pub fn new_bgzf(data: Vec<u8>, format: FastaFormat, interval: usize) -> (r: FastaResult<FastaIndex>)
        ensures
            match r {
                Ok(idx) => {
                    &&& interval > 0
                    &&& idx.compressed()
                    &&& idx.format() == format
                    &&& decompresses_to(data@, idx.source())
                    &&& idx.source().len() < usize::MAX && idx.source().len() <= i64::MAX
                    &&& index_valid(idx.source(), format, idx.headers(), idx.records())
                },
                Err(FastaError::InvalidInterval) => interval == 0,
                Err(FastaError::CorruptBlock) => interval > 0 && forall|t: Seq<u8>|
                    !decompresses_to(data@, t),
                Err(FastaError::MemoryError) => interval > 0 && exists|t: Seq<u8>|
                    decompresses_to(data@, t) && (t.len() >= usize::MAX || t.len() > i64::MAX),
                Err(e) => interval > 0 && exists|t: Seq<u8>|
                    decompresses_to(data@, t) && t.len() < usize::MAX && t.len() <= i64::MAX
                        && load_error(t, format, e),
            },
            forall|t: Seq<u8>|
                #[trigger] decompresses_to(data@, t) && interval > 0 && t.len() < usize::MAX
                    && t.len() <= i64::MAX && source_ok(t, format) ==> r is Ok,
    {
        if interval == 0 {
            return Err(FastaError::InvalidInterval);
        }
        let blocks = match parse_blocks(&data) {
            Some(bs) => bs,
            None => {
                proof {
                    assert forall|t: Seq<u8>| !decompresses_to(data@, t) by {
                        if decompresses_to(data@, t) {
                            let bs = choose|bs: Seq<BgzfBlock>|
                                blocks_valid(data@, bs) && blocks_inflate(data@, bs)
                                    && stream_valid(data@, bs, t);
                            assert(table_exists(data@));
                        }
                    }
                }
                return Err(FastaError::CorruptBlock);
            },
        };
        let text = match inflate_all(&data, &blocks) {
            Some(t) => t,
            None => {
                proof {
                    assert forall|t: Seq<u8>| !decompresses_to(data@, t) by {
                        if decompresses_to(data@, t) {
                            let bs = choose|bs: Seq<BgzfBlock>|
                                blocks_valid(data@, bs) && blocks_inflate(data@, bs)
                                    && stream_valid(data@, bs, t);
                            assert(bs == blocks@);
                        }
                    }
                }
                return Err(FastaError::CorruptBlock);
            },
        };
        proof {
            assert(decompresses_to(data@, text@));
            assert forall|t: Seq<u8>| #[trigger] decompresses_to(data@, t) implies t == text@ by {
                let bs = choose|bs: Seq<BgzfBlock>|
                    blocks_valid(data@, bs) && blocks_inflate(data@, bs) && stream_valid(data@, bs, t);
                assert(bs == blocks@);
                lemma_stream_unique(data@, blocks@, t, text@);
            }
        }
        if text.len() == usize::MAX || text.len() as u128 > i64::MAX as u128 {
            return Err(FastaError::MemoryError);
        }
        match build_records(&text, format) {
            Ok((records, headers)) => {
                let checkpoints = build_checkpoints(&blocks, interval);
                let ghost full = text@;
                let source = BlockedSource { data, blocks, checkpoints, interval };
                let table = IndexTable {
                    storage: Storage::Blocked(source),
                    text: Ghost(full),
                    format,
                    records,
                    headers,
                };
                Ok(FastaIndex { table: Arc::new(table) })
            },
            Err(e) => Err(e),
        }
    }

    /// Another handle on the same table.
    pub fn share(&self) -> (r: FastaIndex)
        ensures
            r.compressed() == self.compressed(),
            r.source() == self.source(),
            r.format() == self.format(),
            r.records() == self.records(),
            r.headers() == self.headers(),
    {
        proof {
            use_type_invariant(self);
        }
        FastaIndex { table: share_table(&self.table) }
    }

    /// The table in its persisted form: one line per record, in the order
    /// of the source.
    pub fn fai_text(&self) -> (r: Vec<u8>)
        ensures
            r@ == fai_lines(self.records(), self.format()),
    {
        fai_table(&self.table.records, self.table.format)
    }

    /// Tells whether a persisted table is the one of this index; one that is
    /// not is stale and should be written anew.
    pub fn matches_persisted(&self, fai: &[u8]) -> (r: bool)
        ensures
            r == (fai@ == fai_lines(self.records(), self.format())),
    {
        let current = self.fai_text();
        crate::index::bytes_eq(current.as_slice(), fai)
    }

    /// Get the number of sequences in the index
    pub fn num_sequences(&self) -> (r: usize)
        ensures
            r == self.records().len(),
    {
        self.table.records.len()
    }

    /// Get the name of the sequence at the given index
    pub fn sequence_name(&self, index: usize) -> (r: Option<String>)
        ensures
            match r {
                Some(s) => index < self.records().len() && s@ == decoded(
                    self.records()[index as int].name,
                ),
                None => index >= self.records().len(),
            },
    {
        if index < self.table.records.len() {
            Some(text_of(self.table.records[index].name.as_slice()))
        } else {
            None
        }
    }

    /// Position of the record named `name`.
    fn position(&self, name: &[u8]) -> (r: Option<usize>)
        ensures
            match r {
                Some(k) => k < self.records().len() && self.lookup(name@) == Some(
                    self.records()[k as int],
                ),
                None => self.lookup(name@).is_none(),
            },
    {
        proof {
            use_type_invariant(self);
        }
        let found = find_name(&self.table.records, name);
        proof {
            let rs = self.records();
            match found {
                Some(i) => {
                    assert(rs[i as int].name == name@);
                    let k = choose|k: int| 0 <= k < rs.len() && rs[k].name == name@;
                    assert(names_unique(rs));
                    if k != i as int {
                        if k < i {
                            assert(rs[k].name != rs[i as int].name);
                        } else {
                            assert(rs[i as int].name != rs[k].name);
                        }
                    }
                },
                None => {
                    assert(forall|k: int| 0 <= k < rs.len() ==> rs[k].name != name@);
                },
            }
        }
        found
    }

    /// The format the source was read in.
    pub fn format_of(&self) -> (r: FastaFormat)
        ensures
            r == self.format(),
    {
        self.table.format
    }

    /// The values at wrapped positions `start..stop` of a block at `off`:
    /// read from the source as it is, or, for a BGZF source, from the
    /// decompressed span that holds them, inflating only the blocks from the
    /// checkpoint before the span to its end. Every block of a compressed
    /// source is known to inflate, so the read always succeeds.
    pub fn read_values(&self, off: usize, lb: usize, lbytes: usize, start: usize, stop: usize) -> (r: Vec<
        u8,
    >)
        requires
            start <= stop,
            start < stop ==> 0 < lb <= lbytes,
            forall|i: int|
                start <= i < stop ==> 0 <= #[trigger] wrapped_pos(
                    off as int,
                    lb as int,
                    lbytes as int,
                    i,
                ) < self.source().len(),
        ensures
            r@ == Seq::new(
                (stop - start) as nat,
                |k: int| self.source()[wrapped_pos(off as int, lb as int, lbytes as int, start + k)],
            ),
    {
        proof {
            use_type_invariant(self);
        }
        match &self.table.storage {
            Storage::Plain(v) => {
                assert(v@ =~= self.source().subrange(0, v@.len() as int));
                match gather(v, 0, off, lb, lbytes, start, stop, Ghost(self.source())) {
                    Some(vals) => vals,
                    None => {
                        proof {
                            assert(false);
                        }
                        Vec::new()
                    },
                }
            },
            Storage::Blocked(b) => {
                if start == stop {
                    return Vec::new();
                }
                let first = base_at(off, lb, lbytes, start);
                let last = base_at(off, lb, lbytes, stop - 1);
                proof {
                    lemma_wrapped_pos_mono(off as int, lb as int, lbytes as int, start as int, stop - 1);
                    assert forall|i: int| start <= i < stop implies first <= #[trigger] wrapped_pos(
                        off as int,
                        lb as int,
                        lbytes as int,
                        i,
                    ) <= last by {
                        lemma_wrapped_pos_mono(off as int, lb as int, lbytes as int, start as int, i);
                        lemma_wrapped_pos_mono(off as int, lb as int, lbytes as int, i, stop - 1);
                    }
                }
                let p = first as usize;
                let q = last as usize + 1;
                match read_span(
                    &b.data,
                    &b.blocks,
                    &b.checkpoints,
                    b.interval,
                    p,
                    q,
                    Ghost(self.source()),
                ) {
                    Some(buf) => match gather(&buf, p, off, lb, lbytes, start, stop, Ghost(self.source())) {
                        Some(vals) => vals,
                        None => {
                            proof {
                                assert(false);
                            }
                            Vec::new()
                        },
                    },
                    None => {
                        proof {
                            assert(false);
                        }
                        Vec::new()
                    },
                }
            },
        }
    }

    /// The record named `name`, with what its well-formedness gives: every
    /// base (and, for FASTQ, every quality value) lies inside the source.
    pub fn record_named(&self, name: &[u8]) -> (r: Option<&SeqRecord>)
        ensures
            match self.lookup(name@) {
                None => r.is_none(),
                Some(info) => r matches Some(rec) && rec@ == info && (rec.length > 0
                    ==> rec.line_bases > 0) && rec.line_bases < rec.line_bytes && (forall|i: int|
                    0 <= i < rec.length ==> 0 <= #[trigger] wrapped_pos(
                        rec.offset as int,
                        rec.line_bases as int,
                        rec.line_bytes as int,
                        i,
                    ) < self.source().len()) && (self.format() == FastaFormat::Fastq ==> forall|i: int|
                    0 <= i < rec.length ==> 0 <= #[trigger] wrapped_pos(
                        rec.qual_offset as int,
                        rec.line_bases as int,
                        rec.line_bytes as int,
                        i,
                    ) < self.source().len()),
            },
    {
        proof {
            use_type_invariant(self);
        }
        match self.position(name) {
            Some(k) => {
                proof {
                    let h = self.headers()[k as int];
                    assert(record_ok(self.source(), h, self.format()));
                    lemma_record_facts(self.source(), h, self.format());
                    let info = record_at(self.source(), h, self.format());
                    let rec = self.table.records@[k as int];
                    assert(rec@ == info);
                    assert(rec.qual_offset as int == info.qual_offset);
                    assert(rec.line_bases as int == info.line_bases);
                    assert(rec.line_bytes as int == info.line_bytes);
                }
                Some(&self.table.records[k])
            },
            None => None,
        }
    }

    /// The length of the record named `name`, the bytes of the name given
    /// as they are.
    pub fn sequence_length_of(&self, name: &[u8]) -> (r: Option<i64>)
        ensures
            match self.lookup(name@) {
                Some(rec) => 0 <= rec.length <= i64::MAX && r == Some(rec.length as i64),
                None => r.is_none(),
            },
    {
        proof {
            use_type_invariant(self);
        }
        match self.position(name) {
            Some(k) => {
                proof {
                    self.lemma_record_fits(k as int);
                }
                Some(self.table.records[k].length as i64)
            },
            None => None,
        }
    }

    /// Get the length of the specified sequence
    pub fn sequence_length(&self, name: &str) -> (r: Option<i64>)
        ensures
            match self.lookup(name.spec_bytes()) {
                Some(rec) => 0 <= rec.length <= i64::MAX && r == Some(rec.length as i64),
                None => r.is_none(),
            },
    {
        self.sequence_length_of(name.as_bytes())
    }

    /// Check if the index contains the specified sequence
    pub fn has_sequence(&self, name: &str) -> (r: bool)
        ensures
            r == self.lookup(name.spec_bytes()).is_some(),
    {
        self.position(name.as_bytes()).is_some()
    }

    /// Get all sequence names in the index
    pub fn sequence_names(&self) -> (r: Vec<String>)
        ensures
            r@.len() == self.records().len(),
            forall|i: int| 0 <= i < r@.len() ==> #[trigger] r@[i]@ == decoded(self.records()[i].name),
    {
        let mut names: Vec<String> = Vec::new();
        let n = self.num_sequences();
        let mut i: usize = 0;
        while i < n
            invariant
                n == self.records().len(),
                i <= n,
                names@.len() == i,
                forall|k: int| 0 <= k < i ==> #[trigger] names@[k]@ == decoded(self.records()[k].name),
            decreases n - i,
        {
            match self.sequence_name(i) {
                Some(name) => names.push(name),
                None => {},
            }
            i = i + 1;
        }
        names
    }
}

impl Clone for FastaIndex {
    /// Another handle on the same table, as `share` gives.
    fn clone(&self) -> (r: Self)
        ensures
            r.compressed() == self.compressed(),
            r.source() == self.source(),
            r.format() == self.format(),
            r.records() == self.records(),
            r.headers() == self.headers(),
    {
        self.share()
    }
}

} // verus!
