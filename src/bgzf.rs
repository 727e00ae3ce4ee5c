//! Block-compressed (BGZF) sources: the table of blocks, checkpoints every
//! fixed number of decompressed bytes, and reading a span of the
//! decompressed stream by seeking from the nearest checkpoint.
use vstd::prelude::*;
use vstd::arithmetic::div_mod::{lemma_fundamental_div_mod, lemma_multiply_divide_lt};
use crate::record::copy_bytes;

verus! {

/// What raw DEFLATE decompression makes of a byte sequence.
pub uninterp spec fn inflated(b: Seq<u8>) -> Seq<u8>;

/// Raw DEFLATE decompression of a byte sequence succeeds.
pub uninterp spec fn inflate_ok(b: Seq<u8>) -> bool;

/// Relies on `miniz_oxide::inflate::decompress_to_vec`: it decodes raw
/// DEFLATE data, and whether it succeeds and what it returns depend on the
/// bytes alone.
#[verifier::external_body]
fn inflate(b: &[u8]) -> (r: Option<Vec<u8>>)
    ensures
        r is Some <==> inflate_ok(b@),
        r matches Some(v) ==> v@ == inflated(b@),
{
    miniz_oxide::inflate::decompress_to_vec(b).ok()
}

/// Little-endian 16-bit number at `p`.
pub open spec fn le16(d: Seq<u8>, p: int) -> int {
    d[p] as int + 256 * d[p + 1] as int
}

/// Little-endian 32-bit number at `p`.
pub open spec fn le32(d: Seq<u8>, p: int) -> int {
    le16(d, p) + 65536 * le16(d, p + 2)
}

/// A BGZF block header starts at `p`: the gzip magic, deflate, the extra
/// field flag, and a six-byte extra field holding the `BC` subfield.
#[verifier::opaque]
pub open spec fn header_ok(d: Seq<u8>, p: int) -> bool {
    &&& 0 <= p
    &&& p + 18 <= d.len()
    &&& d[p] == 31u8
    &&& d[p + 1] == 139u8
    &&& d[p + 2] == 8u8
    &&& (d[p + 3] / 4) % 2 == 1
    &&& le16(d, p + 10) == 6
    &&& d[p + 12] == 66u8
    &&& d[p + 13] == 67u8
    &&& le16(d, p + 14) == 2
}

/// Total size of the block at `p`, as its `BSIZE` field gives it.
#[verifier::opaque]
pub open spec fn block_len(d: Seq<u8>, p: int) -> int {
    le16(d, p + 16) + 1
}

/// A whole BGZF block lies at `p`.
#[verifier::opaque]
pub open spec fn block_ok(d: Seq<u8>, p: int) -> bool {
    &&& header_ok(d, p)
    &&& block_len(d, p) >= 26
    &&& p + block_len(d, p) <= d.len()
}

/// The compressed data of the block at `p`.
#[verifier::opaque]
pub open spec fn cdata(d: Seq<u8>, p: int) -> Seq<u8> {
    d.subrange(p + 18, p + block_len(d, p) - 8)
}

/// The decompressed size the block at `p` declares (`ISIZE`).
#[verifier::opaque]
pub open spec fn isize_of(d: Seq<u8>, p: int) -> int {
    le32(d, p + block_len(d, p) - 4)
}

/// One block of a BGZF source.
#[derive(Debug, Clone, Copy)]
pub struct BgzfBlock {
    /// Byte position of the block in the compressed source.
    pub coffset: usize,
    /// Size of the block in the compressed source.
    pub clen: usize,
    /// Position of its first byte in the decompressed stream.
    pub ustart: usize,
    /// Number of bytes it decompresses to.
    pub ulen: usize,
}

/// Length of the decompressed stream of blocks `bs`.
pub open spec fn total(bs: Seq<BgzfBlock>) -> int {
    if bs.len() == 0 {
        0
    } else {
        bs.last().ustart + bs.last().ulen
    }
}

/// Each block starts in the decompressed stream where the previous one
/// ends, the first at 0, and the stream's length fits a `usize`.
pub open spec fn chain_ok(bs: Seq<BgzfBlock>) -> bool {
    &&& total(bs) <= usize::MAX
    &&& bs.len() > 0 ==> bs[0].ustart == 0
    &&& forall|k: int| 0 < k < bs.len() ==> #[trigger] bs[k].ustart == bs[k - 1].ustart + bs[k - 1].ulen
}

/// `bs` is the block table of `d`: blocks follow each other from the start
/// of `d` to its end, each is a whole BGZF block, and each starts in the
/// decompressed stream where the previous one ends.
pub open spec fn blocks_valid(d: Seq<u8>, bs: Seq<BgzfBlock>) -> bool {
    &&& bs.len() == 0 ==> d.len() == 0
    &&& chain_ok(bs)
    &&& bs.len() > 0 ==> bs[0].coffset == 0 && bs.last().coffset + bs.last().clen == d.len()
    &&& forall|k: int|
        0 <= k < bs.len() ==> {
            &&& block_ok(d, #[trigger] bs[k].coffset as int)
            &&& bs[k].clen == block_len(d, bs[k].coffset as int)
            &&& bs[k].ulen == isize_of(d, bs[k].coffset as int)
        }
    &&& forall|k: int|
        0 < k < bs.len() ==> #[trigger] bs[k].coffset == bs[k - 1].coffset + bs[k - 1].clen
}

/// `s` is the decompressed stream of `d`: block by block, the bytes that
/// each block's data inflates to.
pub open spec fn stream_valid(d: Seq<u8>, bs: Seq<BgzfBlock>, s: Seq<u8>) -> bool {
    &&& s.len() == total(bs)
    &&& forall|k: int|
        0 <= k < bs.len() ==> s.subrange(
            #[trigger] bs[k].ustart as int,
            bs[k].ustart + bs[k].ulen,
        ) == inflated(cdata(d, bs[k].coffset as int))
}

/// The block `b` of `d` inflates, to the size it declares.
pub open spec fn block_inflates(d: Seq<u8>, b: BgzfBlock) -> bool {
    &&& inflate_ok(cdata(d, b.coffset as int))
    &&& inflated(cdata(d, b.coffset as int)).len() == b.ulen
}

/// Every block of `bs` inflates to the size it declares.
pub open spec fn blocks_inflate(d: Seq<u8>, bs: Seq<BgzfBlock>) -> bool {
    forall|k: int| 0 <= k < bs.len() ==> #[trigger] block_inflates(d, bs[k])
}

/// A place in the decompressed stream from which reading can start: the
/// block that holds decompressed position `upos`, and how far into it.
#[derive(Debug, Clone, Copy)]
pub struct Checkpoint {
    pub upos: usize,
    pub block: usize,
    pub within: usize,
}

/// `cps` holds a checkpoint at every multiple of `interval` below the end of
/// the stream, in order.
pub open spec fn checkpoints_valid(bs: Seq<BgzfBlock>, interval: int, cps: Seq<Checkpoint>) -> bool {
    &&& interval > 0
    &&& forall|i: int|
        0 <= i < cps.len() ==> {
            let c = #[trigger] cps[i];
            &&& c.upos == i * interval
            &&& c.block < bs.len()
            &&& bs[c.block as int].ustart <= c.upos < bs[c.block as int].ustart + bs[c.block as int].ulen
            &&& c.within == c.upos - bs[c.block as int].ustart
        }
    &&& forall|t: int| 0 <= t < total(bs) ==> #[trigger] (t / interval) < cps.len()
}

fn read_le16(d: &Vec<u8>, p: usize) -> (r: usize)
    requires
        p + 1 < d.len(),
    ensures
        r == le16(d@, p as int),
{
    d[p] as usize + 256 * (d[p + 1] as usize)
}

/// The sizes of the block at `p`, compressed and decompressed.
fn block_at(d: &Vec<u8>, p: usize) -> (r: Option<(usize, usize)>)
    requires
        p <= d@.len(),
    ensures
        match r {
            Some((clen, ulen)) => block_ok(d@, p as int) && clen == block_len(d@, p as int) && ulen
                == isize_of(d@, p as int) && 26 <= clen && p + clen <= d@.len(),
            None => !block_ok(d@, p as int),
        },
{
    reveal(block_ok);
    reveal(header_ok);
    reveal(block_len);
    reveal(isize_of);
    if d.len() - p < 18 {
        return None;
    }
    if !(d[p] == 31u8 && d[p + 1] == 139u8 && d[p + 2] == 8u8 && (d[p + 3] / 4) % 2 == 1) {
        return None;
    }
    if !(read_le16(d, p + 10) == 6 && d[p + 12] == 66u8 && d[p + 13] == 67u8 && read_le16(d, p + 14)
        == 2) {
        return None;
    }
    let clen = read_le16(d, p + 16) + 1;
    if clen < 26 || clen > d.len() - p {
        return None;
    }
    let e = p + clen - 4;
    let ulen = read_le16(d, e) + 65536 * read_le16(d, e + 2);
    Some((clen, ulen))
}

/// Some block table is valid for `d`.
pub open spec fn table_exists(d: Seq<u8>) -> bool {
    exists|bs: Seq<BgzfBlock>| blocks_valid(d, bs)
}

/// Every valid block table of `d` starts with `bs`, and has a further block
/// at `pos`, starting at `ustart` in the stream, unless `pos` ends `d`.
spec fn blocks_forced(d: Seq<u8>, bs: Seq<BgzfBlock>, pos: int, ustart: int) -> bool {
    forall|bs2: Seq<BgzfBlock>|
        #[trigger] blocks_valid(d, bs2) ==> {
            &&& bs2.len() >= bs.len()
            &&& forall|k: int| 0 <= k < bs.len() ==> bs2[k] == bs[k]
            &&& pos < d.len() ==> bs2.len() > bs.len() && bs2[bs.len() as int].coffset == pos
                && bs2[bs.len() as int].ustart == ustart
        }
}

proof fn lemma_no_table(d: Seq<u8>, bs: Seq<BgzfBlock>, pos: int, ustart: int)
    requires
        blocks_forced(d, bs, pos, ustart),
        pos < d.len(),
        !block_ok(d, pos) || isize_of(d, pos) > usize::MAX - ustart,
    ensures
        !table_exists(d),
{
    assert forall|bs2: Seq<BgzfBlock>| !blocks_valid(d, bs2) by {
        if blocks_valid(d, bs2) {
            let n = bs.len() as int;
            assert(block_ok(d, bs2[n].coffset as int));
            lemma_end_within(bs2, n);
        }
    }
}

proof fn lemma_forced_next(d: Seq<u8>, bs: Seq<BgzfBlock>, b: BgzfBlock)
    requires
        blocks_forced(d, bs, b.coffset as int, b.ustart as int),
        b.coffset < d.len(),
        b.clen == block_len(d, b.coffset as int),
        b.ulen == isize_of(d, b.coffset as int),
    ensures
        blocks_forced(d, bs.push(b), b.coffset + b.clen, b.ustart + b.ulen),
{
    let nb = bs.push(b);
    let n = bs.len() as int;
    assert forall|bs2: Seq<BgzfBlock>| #[trigger] blocks_valid(d, bs2) implies {
        &&& bs2.len() >= nb.len()
        &&& forall|k: int| 0 <= k < nb.len() ==> bs2[k] == nb[k]
        &&& b.coffset + b.clen < d.len() ==> bs2.len() > nb.len() && bs2[nb.len() as int].coffset
            == b.coffset + b.clen && bs2[nb.len() as int].ustart == b.ustart + b.ulen
    } by {
        assert(block_ok(d, bs2[n].coffset as int));
        assert(bs2[n] == b);
        if b.coffset + b.clen < d.len() {
            if bs2.len() == n + 1 {
                assert(bs2.last().coffset + bs2.last().clen == d.len());
            }
            assert(bs2[n + 1].coffset == bs2[n].coffset + bs2[n].clen);
            assert(bs2[n + 1].ustart == bs2[n].ustart + bs2[n].ulen);
        }
    }
}

proof fn lemma_no_block_at_end(d: Seq<u8>, bs: Seq<BgzfBlock>, n: int)
    requires
        blocks_valid(d, bs),
        0 <= n <= bs.len(),
        n == 0 ==> d.len() == 0,
        n > 0 ==> bs[n - 1].coffset + bs[n - 1].clen == d.len(),
    ensures
        bs.len() == n,
{
    if bs.len() > n {
        assert(block_ok(d, bs[n].coffset as int));
        if n > 0 {
            assert(bs[n].coffset == bs[n - 1].coffset + bs[n - 1].clen);
        }
        reveal(block_ok);
        reveal(header_ok);
    }
}

/// A stream that is valid for a block table is determined by it.
pub proof fn lemma_stream_unique(d: Seq<u8>, bs: Seq<BgzfBlock>, s1: Seq<u8>, s2: Seq<u8>)
    requires
        chain_ok(bs),
        stream_valid(d, bs, s1),
        stream_valid(d, bs, s2),
    ensures
        s1 == s2,
{
    if bs.len() > 0 {
        lemma_stream_prefix(d, bs, s1, s2, bs.len() - 1);
        assert(s1 =~= s1.subrange(0, total(bs)));
        assert(s2 =~= s2.subrange(0, total(bs)));
    } else {
        assert(s1 =~= s2);
    }
}

proof fn lemma_stream_prefix(d: Seq<u8>, bs: Seq<BgzfBlock>, s1: Seq<u8>, s2: Seq<u8>, k: int)
    requires
        chain_ok(bs),
        stream_valid(d, bs, s1),
        stream_valid(d, bs, s2),
        0 <= k < bs.len(),
    ensures
        s1.subrange(0, bs[k].ustart + bs[k].ulen) == s2.subrange(0, bs[k].ustart + bs[k].ulen),
    decreases k,
{
    lemma_end_within(bs, k);
    let e = bs[k].ustart + bs[k].ulen;
    let b = bs[k].ustart as int;
    assert(s1.subrange(b, e) == inflated(cdata(d, bs[k].coffset as int)));
    assert(s2.subrange(b, e) == inflated(cdata(d, bs[k].coffset as int)));
    if k > 0 {
        lemma_stream_prefix(d, bs, s1, s2, k - 1);
        assert(bs[k].ustart == bs[k - 1].ustart + bs[k - 1].ulen);
        assert(s1.subrange(0, e) =~= s1.subrange(0, b) + s1.subrange(b, e));
        assert(s2.subrange(0, e) =~= s2.subrange(0, b) + s2.subrange(b, e));
    } else {
        assert(s1.subrange(0, e) =~= s1.subrange(b, e));
        assert(s2.subrange(0, e) =~= s2.subrange(b, e));
    }
}

/// Reads the block table of a BGZF source; `None` exactly when no valid
/// table exists: the source is not a chain of whole blocks, or its
/// decompressed length does not fit a `usize`.
pub fn parse_blocks(d: &Vec<u8>) -> (r: Option<Vec<BgzfBlock>>)
    ensures
        match r {
            Some(bs) => blocks_valid(d@, bs@) && forall|bs2: Seq<BgzfBlock>|
                #[trigger] blocks_valid(d@, bs2) ==> bs2 == bs@,
            None => !table_exists(d@),
        },
{
    let mut bs: Vec<BgzfBlock> = Vec::new();
    let mut pos: usize = 0;
    let mut ustart: usize = 0;
    while pos < d.len()
        invariant
            pos <= d@.len(),
            bs@.len() == 0 ==> pos == 0 && ustart == 0,
            bs@.len() > 0 ==> bs@[0].coffset == 0 && bs@[0].ustart == 0 && bs@.last().coffset
                + bs@.last().clen == pos && ustart == bs@.last().ustart + bs@.last().ulen,
            forall|k: int|
                0 <= k < bs@.len() ==> {
                    &&& block_ok(d@, #[trigger] bs@[k].coffset as int)
                    &&& bs@[k].clen == block_len(d@, bs@[k].coffset as int)
                    &&& bs@[k].ulen == isize_of(d@, bs@[k].coffset as int)
                },
            forall|k: int|
                0 < k < bs@.len() ==> #[trigger] bs@[k].coffset == bs@[k - 1].coffset + bs@[k
                    - 1].clen,
            forall|k: int|
                0 < k < bs@.len() ==> #[trigger] bs@[k].ustart == bs@[k - 1].ustart + bs@[k
                    - 1].ulen,
            blocks_forced(d@, bs@, pos as int, ustart as int),
        decreases d@.len() - pos,
    {
        let (clen, ulen) = match block_at(d, pos) {
            Some(sizes) => sizes,
            None => {
                proof {
                    lemma_no_table(d@, bs@, pos as int, ustart as int);
                }
                return None;
            },
        };
        if ulen > usize::MAX - ustart {
            proof {
                lemma_no_table(d@, bs@, pos as int, ustart as int);
            }
            return None;
        }
        let ghost before = bs@;
        let b = BgzfBlock { coffset: pos, clen, ustart, ulen };
        proof {
            lemma_forced_next(d@, bs@, b);
        }
        bs.push(b);
        assert(bs@.drop_last() == before);
        pos = pos + clen;
        ustart = ustart + ulen;
    }
    proof {
        assert forall|bs2: Seq<BgzfBlock>| #[trigger] blocks_valid(d@, bs2) implies bs2 == bs@ by {
            lemma_no_block_at_end(d@, bs2, bs@.len() as int);
            assert(bs2 =~= bs@);
        }
    }
    Some(bs)
}

/// Appends `u[a..b]` to `out`.
fn append_range(out: &mut Vec<u8>, u: &Vec<u8>, a: usize, b: usize)
    requires
        a <= b <= u@.len(),
    ensures
        final(out)@ == old(out)@ + u@.subrange(a as int, b as int),
{
    let mut j = a;
    while j < b
        invariant
            a <= j <= b <= u@.len(),
            out@ == old(out)@ + u@.subrange(a as int, j as int),
        decreases b - j,
    {
        out.push(u[j]);
        j = j + 1;
        assert(out@ =~= old(out)@ + u@.subrange(a as int, j as int));
    }
}

/// The data of the block at `p`, inflated; `None` when decompression fails.
fn inflate_block(d: &Vec<u8>, p: usize, clen: usize) -> (r: Option<Vec<u8>>)
    requires
        block_ok(d@, p as int),
        clen == block_len(d@, p as int),
    ensures
        r is Some <==> inflate_ok(cdata(d@, p as int)),
        r matches Some(v) ==> v@ == inflated(cdata(d@, p as int)),
{
    reveal(block_ok);
    reveal(block_len);
    reveal(cdata);
    assert(p + clen <= d.len());
    let data = copy_bytes(d.as_slice(), p + 18, p + clen - 8);
    inflate(data.as_slice())
}

/// Decompresses the whole source; `None` when a block fails to inflate or
/// inflates to another size than it declares.
pub fn inflate_all(d: &Vec<u8>, bs: &Vec<BgzfBlock>) -> (r: Option<Vec<u8>>)
    requires
        blocks_valid(d@, bs@),
    ensures
        r is Some <==> blocks_inflate(d@, bs@),
        r matches Some(s) ==> stream_valid(d@, bs@, s@),
{
    let mut out: Vec<u8> = Vec::new();
    let mut k: usize = 0;
    while k < bs.len()
        invariant
            blocks_valid(d@, bs@),
            k <= bs@.len(),
            out@.len() == if k == 0 {
                0
            } else {
                bs@[k - 1].ustart + bs@[k - 1].ulen
            },
            forall|j: int|
                0 <= j < k ==> out@.subrange(
                    #[trigger] bs@[j].ustart as int,
                    bs@[j].ustart + bs@[j].ulen,
                ) == inflated(cdata(d@, bs@[j].coffset as int)),
            forall|j: int| 0 <= j < k ==> #[trigger] block_inflates(d@, bs@[j]),
        decreases bs@.len() - k,
    {
        let b = bs[k];
        assert(block_ok(d@, bs@[k as int].coffset as int));
        let mut u = match inflate_block(d, b.coffset, b.clen) {
            Some(u) => u,
            None => {
                assert(!block_inflates(d@, bs@[k as int]));
                return None;
            },
        };
        if u.len() != bs[k].ulen {
            assert(!block_inflates(d@, bs@[k as int]));
            return None;
        }
        assert(block_inflates(d@, bs@[k as int]));
        let ghost before = out@;
        let ghost ud = u@;
        assert(k > 0 ==> bs@[k as int].ustart == bs@[k - 1].ustart + bs@[k - 1].ulen);
        out.append(&mut u);
        proof {
            assert forall|j: int| 0 <= j <= k implies out@.subrange(
                #[trigger] bs@[j].ustart as int,
                bs@[j].ustart + bs@[j].ulen,
            ) == inflated(cdata(d@, bs@[j].coffset as int)) by {
                if j < k {
                    lemma_chain_ends_before(bs@, j, k as int);
                    assert(out@.subrange(bs@[j].ustart as int, bs@[j].ustart + bs@[j].ulen)
                        =~= before.subrange(bs@[j].ustart as int, bs@[j].ustart + bs@[j].ulen));
                } else {
                    assert(out@.subrange(bs@[j].ustart as int, bs@[j].ustart + bs@[j].ulen) =~= ud);
                }
            }
        }
        k = k + 1;
    }
    Some(out)
}

/// Sets a checkpoint at every multiple of `interval` below the end of the
/// decompressed stream.
pub fn build_checkpoints(bs: &Vec<BgzfBlock>, interval: usize) -> (r: Vec<Checkpoint>)
    requires
        chain_ok(bs@),
        interval > 0,
    ensures
        checkpoints_valid(bs@, interval as int, r@),
{
    let n = bs.len();
    let end_all: usize = if n == 0 {
        0
    } else {
        bs[n - 1].ustart + bs[n - 1].ulen
    };
    let mut cps: Vec<Checkpoint> = Vec::new();
    let mut upos: usize = 0;
    let mut k: usize = 0;
    let mut more = upos < end_all;
    assert(cps@.len() * interval == 0) by (nonlinear_arith)
        requires
            cps@.len() == 0,
    ;
    while more
        invariant
            chain_ok(bs@),
            n == bs@.len(),
            end_all == total(bs@),
            interval > 0,
            more ==> upos == cps@.len() * interval && upos < end_all && k < n && bs@[k as int].ustart
                <= upos,
            !more ==> end_all <= cps@.len() * interval,
            forall|i: int|
                0 <= i < cps@.len() ==> {
                    let c = #[trigger] cps@[i];
                    &&& c.upos == i * interval
                    &&& c.block < bs@.len()
                    &&& bs@[c.block as int].ustart <= c.upos < bs@[c.block as int].ustart
                        + bs@[c.block as int].ulen
                    &&& c.within == c.upos - bs@[c.block as int].ustart
                },
        decreases end_all - upos + (if more { 1int } else { 0int }),
    {
        proof {
            lemma_end_within(bs@, k as int);
        }
        while bs[k].ustart + bs[k].ulen <= upos
            invariant
                chain_ok(bs@),
                n == bs@.len(),
                end_all == total(bs@),
                upos < end_all,
                k < n,
                bs@[k as int].ustart <= upos,
                bs@[k as int].ustart + bs@[k as int].ulen <= end_all,
            decreases n - k,
        {
            assert(k + 1 < n) by {
                if k + 1 == n {
                    assert(total(bs@) == bs@[k as int].ustart + bs@[k as int].ulen);
                }
            }
            assert(bs@[k + 1].ustart == bs@[k as int].ustart + bs@[k as int].ulen);
            k = k + 1;
            proof {
                lemma_end_within(bs@, k as int);
            }
        }
        let ghost before = cps@;
        cps.push(Checkpoint { upos, block: k, within: upos - bs[k].ustart });
        assert forall|i: int| 0 <= i < cps@.len() implies {
            let c = #[trigger] cps@[i];
            &&& c.upos == i * interval
            &&& c.block < bs@.len()
            &&& bs@[c.block as int].ustart <= c.upos < bs@[c.block as int].ustart
                + bs@[c.block as int].ulen
            &&& c.within == c.upos - bs@[c.block as int].ustart
        } by {
            if i < before.len() {
                assert(cps@[i] == before[i]);
            }
        }
        assert(cps@.len() * interval == upos + interval) by (nonlinear_arith)
            requires
                cps@.len() == before.len() + 1,
                upos == before.len() * interval,
        ;
        if end_all - upos <= interval {
            more = false;
        } else {
            upos = upos + interval;
        }
    }
    assert forall|t: int| 0 <= t < total(bs@) implies #[trigger] (t / (interval as int)) < cps@.len() by {
        assert(cps@.len() * interval == interval * cps@.len()) by (nonlinear_arith);
        lemma_multiply_divide_lt(t, interval as int, cps@.len() as int);
    }
    cps
}

/// Reads `s[p..q]`, `s` being the decompressed stream: from the checkpoint
/// at or before `p`, blocks that end before `p` are passed over by their
/// declared sizes, and only the blocks that hold the span are inflated.
/// `None` when one of them fails to inflate.
pub fn read_span(
    d: &Vec<u8>,
    bs: &Vec<BgzfBlock>,
    cps: &Vec<Checkpoint>,
    interval: usize,
    p: usize,
    q: usize,
    Ghost(s): Ghost<Seq<u8>>,
) -> (r: Option<Vec<u8>>)
    requires
        blocks_valid(d@, bs@),
        stream_valid(d@, bs@, s),
        checkpoints_valid(bs@, interval as int, cps@),
        p < q <= s.len(),
    ensures
        r matches Some(v) ==> v@ == s.subrange(p as int, q as int),
        blocks_inflate(d@, bs@) ==> r is Some,
{
    let i = p / interval;
    assert((p as int / interval as int) < cps@.len());
    let c = cps[i];
    proof {
        lemma_fundamental_div_mod(p as int, interval as int);
        assert(c.upos <= p) by (nonlinear_arith)
            requires
                c.upos == i * interval,
                p == interval * i + p % interval,
                p % interval >= 0,
        ;
    }
    let mut k = c.block;
    let mut out: Vec<u8> = Vec::new();
    let mut cur = p;
    let n = bs.len();
    while cur < q
        invariant
            blocks_valid(d@, bs@),
            stream_valid(d@, bs@, s),
            n == bs@.len(),
            p <= cur <= q <= s.len() == total(bs@),
            out@ == s.subrange(p as int, cur as int),
            k < n,
            bs@[k as int].ustart <= cur,
        decreases q - cur + n - k,
    {
        let b = bs[k];
        proof {
            if k + 1 < n {
                lemma_chain_ends_before(bs@, k as int, n - 1);
            }
        }
        let end = b.ustart + b.ulen;
        if end > cur {
            assert(block_ok(d@, bs@[k as int].coffset as int));
            let u = match inflate_block(d, b.coffset, b.clen) {
                Some(u) => u,
                None => {
                    assert(!block_inflates(d@, bs@[k as int]));
                    return None;
                },
            };
            assert(u@ == s.subrange(b.ustart as int, end as int));
            let stop = if q < end {
                q
            } else {
                end
            };
            let ghost before = out@;
            append_range(&mut out, &u, cur - b.ustart, stop - b.ustart);
            assert(out@ =~= s.subrange(p as int, stop as int)) by {
                assert(u@.subrange(cur - b.ustart, stop - b.ustart) =~= s.subrange(
                    cur as int,
                    stop as int,
                ));
            }
            cur = stop;
        }
        if cur < q {
            assert(k + 1 < n) by {
                if k + 1 == n {
                    assert(total(bs@) == end);
                }
            }
            assert(bs@[k + 1].ustart == bs@[k as int].ustart + bs@[k as int].ulen);
            k = k + 1;
        }
    }
    Some(out)
}

/// In a block chain, every block ends within the stream.
proof fn lemma_end_within(bs: Seq<BgzfBlock>, k: int)
    requires
        0 <= k < bs.len(),
        chain_ok(bs),
    ensures
        bs[k].ustart + bs[k].ulen <= total(bs),
{
    if k + 1 < bs.len() {
        lemma_chain_ends_before(bs, k, bs.len() - 1);
    }
}

/// In a block chain, a block ends no later than any later block starts.
proof fn lemma_chain_ends_before(bs: Seq<BgzfBlock>, j: int, k: int)
    requires
        0 <= j < k < bs.len(),
        chain_ok(bs),
    ensures
        bs[j].ustart + bs[j].ulen <= bs[k].ustart,
    decreases k - j,
{
    assert(bs[k].ustart == bs[k - 1].ustart + bs[k - 1].ulen);
    if j < k - 1 {
        lemma_chain_ends_before(bs, j, k - 1);
    }
}

} // verus!
