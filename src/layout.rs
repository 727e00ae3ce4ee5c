//! Line-wrap arithmetic: where the bases of a wrapped block of text sit.
use vstd::prelude::*;
use vstd::arithmetic::div_mod::{lemma_div_is_ordered, lemma_fundamental_div_mod, lemma_mod_bound};

verus! {

/// True for the bytes that end a line of text: line feed and carriage return.
pub open spec fn is_terminator(b: u8) -> bool {
    b == 10u8 || b == 13u8
}

/// The bytes of `d[p..q]` with every line terminator taken out: the
/// concatenation of the lines of that span with their terminators stripped.
pub open spec fn strip(d: Seq<u8>, p: int, q: int) -> Seq<u8>
    decreases q - p,
{
    if q <= p {
        Seq::empty()
    } else if is_terminator(d[q - 1]) {
        strip(d, p, q - 1)
    } else {
        strip(d, p, q - 1).push(d[q - 1])
    }
}

/// Byte position of base `i` of a block that starts at `off` and is wrapped
/// into lines of `lb` bases taking `lbytes` bytes each.
pub open spec fn wrapped_pos(off: int, lb: int, lbytes: int, i: int) -> int {
    off + (i / lb) * lbytes + i % lb
}

/// The positional condition of `layout_ok` on the bases of `d[p..j]`.
pub open spec fn bases_placed(d: Seq<u8>, p: int, j: int, lb: int, lbytes: int) -> bool {
    forall|k: int|
        p <= k < j && !is_terminator(#[trigger] d[k]) ==> k == wrapped_pos(
            p,
            lb,
            lbytes,
            strip(d, p, k).len() as int,
        )
}

/// The span `d[p..q]` is wrapped uniformly: every base in it stands exactly
/// where the geometry (`lb` bases in `lbytes` bytes per line) puts the next
/// base, so that every line but the last holds `lb` bases.
pub open spec fn layout_ok(d: Seq<u8>, p: int, q: int, lb: int, lbytes: int) -> bool {
    &&& (lb > 0 || strip(d, p, q).len() == 0)
    &&& bases_placed(d, p, q, lb, lbytes)
}

/// Tells whether a byte ends a line of text.
pub fn terminator(b: u8) -> (r: bool)
    ensures
        r == is_terminator(b),
{
    b == 10u8 || b == 13u8
}

/// Stripping a longer span keeps at least as many bases.
pub proof fn lemma_strip_len_mono(d: Seq<u8>, p: int, j: int, q: int)
    requires
        p <= j <= q,
    ensures
        strip(d, p, j).len() <= strip(d, p, q).len(),
    decreases q - j,
{
    if j < q {
        lemma_strip_len_mono(d, p, j, q - 1);
    }
}

/// Under a uniform layout, base `i` of the stripped text is the byte at
/// `wrapped_pos(i)`, and that position lies inside the span.
pub proof fn lemma_layout_bases(d: Seq<u8>, p: int, q: int, lb: int, lbytes: int)
    requires
        0 <= p <= q <= d.len(),
        layout_ok(d, p, q, lb, lbytes),
    ensures
        forall|i: int|
            0 <= i < strip(d, p, q).len() ==> {
                let w = #[trigger] wrapped_pos(p, lb, lbytes, i);
                &&& p <= w < q
                &&& strip(d, p, q)[i] == d[w]
            },
    decreases q - p,
{
    if q > p {
        lemma_strip_len_mono(d, p, q - 1, q);
        assert(layout_ok(d, p, q - 1, lb, lbytes));
        lemma_layout_bases(d, p, q - 1, lb, lbytes);
        if !is_terminator(d[q - 1]) {
            assert(q - 1 == wrapped_pos(p, lb, lbytes, strip(d, p, q - 1).len() as int));
        }
    }
}

proof fn lemma_placed_step(d: Seq<u8>, p: int, j: int, lb: int, lbytes: int)
    requires
        p <= j < d.len(),
        bases_placed(d, p, j, lb, lbytes),
        !is_terminator(d[j]) ==> j == wrapped_pos(p, lb, lbytes, strip(d, p, j).len() as int),
    ensures
        bases_placed(d, p, j + 1, lb, lbytes),
        strip(d, p, j + 1).len() == strip(d, p, j).len() + if is_terminator(d[j]) {
            0int
        } else {
            1int
        },
{
}

/// With lines at least as long in bytes as in bases, later bases stand at
/// later positions.
pub proof fn lemma_wrapped_pos_mono(off: int, lb: int, lbytes: int, i: int, j: int)
    requires
        0 <= i <= j,
        0 < lb <= lbytes,
    ensures
        wrapped_pos(off, lb, lbytes, i) <= wrapped_pos(off, lb, lbytes, j),
{
    lemma_div_is_ordered(i, j, lb);
    lemma_fundamental_div_mod(i, lb);
    lemma_fundamental_div_mod(j, lb);
    lemma_mod_bound(i, lb);
    lemma_mod_bound(j, lb);
    let qi = i / lb;
    let qj = j / lb;
    let ri = i % lb;
    let rj = j % lb;
    if qi == qj {
        assert(ri <= rj) by (nonlinear_arith)
            requires
                i == lb * qi + ri,
                j == lb * qj + rj,
                qi == qj,
                i <= j,
        ;
    } else {
        assert(qi * lbytes + ri <= qj * lbytes + rj) by (nonlinear_arith)
            requires
                qi < qj,
                0 <= ri < lb,
                0 <= rj,
                lb <= lbytes,
        ;
    }
}

/// Computes `wrapped_pos(off, lb, lbytes, i)` without overflow.
pub fn base_at(off: usize, lb: usize, lbytes: usize, i: usize) -> (r: u128)
    requires
        lb > 0,
    ensures
        r as int == wrapped_pos(off as int, lb as int, lbytes as int, i as int),
{
    let line: u128 = (i / lb) as u128;
    let col: u128 = (i % lb) as u128;
    let wide: u128 = lbytes as u128;
    assert(line * wide <= 0xffff_ffff_ffff_ffffu128 * 0xffff_ffff_ffff_ffffu128) by (nonlinear_arith)
        requires
            line <= 0xffff_ffff_ffff_ffffu128,
            wide <= 0xffff_ffff_ffff_ffffu128,
    ;
    off as u128 + line * wide + col
}

/// Checks that `d[p..q]` is laid out with `lb` bases in `lbytes` bytes per
/// line, and counts its bases.
pub fn check_layout(d: &Vec<u8>, p: usize, q: usize, lb: usize, lbytes: usize) -> (r: (
    bool,
    usize,
))
    requires
        p <= q <= d@.len(),
    ensures
        r.0 == layout_ok(d@, p as int, q as int, lb as int, lbytes as int),
        r.0 ==> r.1 == strip(d@, p as int, q as int).len(),
{
    let mut j: usize = p;
    let mut count: usize = 0;
    while j < q
        invariant
            p <= j <= q <= d@.len(),
            count == strip(d@, p as int, j as int).len(),
            count <= j - p,
            lb > 0 || count == 0,
            bases_placed(d@, p as int, j as int, lb as int, lbytes as int),
        decreases q - j,
    {
        let b = d[j];
        if !terminator(b) {
            if lb == 0 {
                proof {
                    lemma_strip_len_mono(d@, p as int, j as int + 1, q as int);
                }
                return (false, count);
            }
            let at = base_at(p, lb, lbytes, count);
            if at != j as u128 {
                return (false, count);
            }
            count = count + 1;
        }
        proof {
            lemma_placed_step(d@, p as int, j as int, lb as int, lbytes as int);
        }
        j = j + 1;
    }
    (true, count)
}

} // verus!
