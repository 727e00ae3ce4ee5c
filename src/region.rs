//! Region text: `name`, `name:start-end` or `name:pos`, in either
//! coordinate convention.
use vstd::prelude::*;
use crate::error::FastaError;
use crate::handle::{FastaIndex, FastaResult};
use crate::record::copy_bytes;
use crate::text::{decoded, text_of};

verus! {

/// How the numbers of a region are meant.
#[derive(Debug, Clone, Copy, PartialEq, Eq, Structural)]
pub enum CoordinateMode {
    /// Zero-based, half-open: `start` included, `end` excluded.
    ZeroBased,
    /// One-based, inclusive at both ends.
    OneBased,
}

/// A region resolved to a record name and a zero-based, half-open range.
#[derive(Debug)]
pub struct Region {
    pub name: Vec<u8>,
    pub start: i64,
    pub end: i64,
}

pub const COLON: u8 = 58;

pub const DASH: u8 = 45;

pub const PLUS: u8 = 43;

/// Index of the first `b` at or after `i` in `s`, or -1.
pub open spec fn first_at(s: Seq<u8>, b: u8, i: int) -> int
    decreases s.len() - i,
{
    if i < 0 || i >= s.len() {
        -1
    } else if s[i] == b {
        i
    } else {
        first_at(s, b, i + 1)
    }
}

pub open spec fn is_digit(b: u8) -> bool {
    48u8 <= b <= 57u8
}

/// The number that a string of decimal digits writes.
pub open spec fn digits_value(s: Seq<u8>) -> int
    decreases s.len(),
{
    if s.len() == 0 {
        0
    } else {
        digits_value(s.drop_last()) * 10 + (s.last() - 48)
    }
}

/// Every byte of `t` is a decimal digit.
pub open spec fn all_digits(t: Seq<u8>) -> bool {
    forall|i: int| 0 <= i < t.len() ==> is_digit(#[trigger] t[i])
}

/// Number of sign bytes (`+` or `-`) that open `s`.
pub open spec fn sign_len(s: Seq<u8>) -> int {
    if s.len() > 0 && (s[0] == DASH || s[0] == PLUS) {
        1
    } else {
        0
    }
}

/// The `i64` that `s` writes: an optional sign, then one or more decimal
/// digits, with a value in the range of `i64`.
pub open spec fn int_value(s: Seq<u8>) -> Option<int> {
    let body = s.subrange(sign_len(s), s.len() as int);
    if body.len() > 0 && all_digits(body) {
        let v = if s[0] == DASH {
            -digits_value(body)
        } else {
            digits_value(body)
        };
        if i64::MIN <= v <= i64::MAX {
            Some(v)
        } else {
            None
        }
    } else {
        None
    }
}

/// `Some(v)` when `v` is in the range of `i64`.
pub open spec fn in_i64(v: int) -> Option<int> {
    if i64::MIN <= v <= i64::MAX {
        Some(v)
    } else {
        None
    }
}

/// The zero-based, half-open range that `rest` (the text after the colon)
/// gives: `start-end`, cut at the first dash, or a single position.
pub open spec fn range_of(rest: Seq<u8>, mode: CoordinateMode) -> Option<(int, int)> {
    let dash = first_at(rest, DASH, 0);
    if dash >= 0 {
        match (int_value(rest.subrange(0, dash)), int_value(rest.subrange(dash + 1, rest.len() as int))) {
            (Some(a), Some(b)) => match mode {
                CoordinateMode::ZeroBased => Some((a, b)),
                CoordinateMode::OneBased => match in_i64(a - 1) {
                    Some(a1) => Some((a1, b)),
                    None => None,
                },
            },
            _ => None,
        }
    } else {
        match int_value(rest) {
            Some(p) => match mode {
                CoordinateMode::ZeroBased => match in_i64(p + 1) {
                    Some(p1) => Some((p, p1)),
                    None => None,
                },
                CoordinateMode::OneBased => match in_i64(p - 1) {
                    Some(p0) => Some((p0, p)),
                    None => None,
                },
            },
            None => None,
        }
    }
}

/// The parts of region text `s`: the record name (up to the first colon)
/// and the range after it, or no range when `s` has no colon; `None` when
/// the numbers cannot be read.
pub open spec fn region_parts(s: Seq<u8>, mode: CoordinateMode) -> Option<
    (Seq<u8>, Option<(int, int)>),
> {
    let colon = first_at(s, COLON, 0);
    if colon < 0 {
        Some((s, None))
    } else {
        match range_of(s.subrange(colon + 1, s.len() as int), mode) {
            Some(r) => Some((s.subrange(0, colon), Some(r))),
            None => None,
        }
    }
}

fn find_byte(s: &[u8], b: u8) -> (r: Option<usize>)
    ensures
        match r {
            Some(i) => i < s@.len() && first_at(s@, b, 0) == i,
            None => first_at(s@, b, 0) == -1,
        },
{
    let mut i: usize = 0;
    while i < s.len()
        invariant
            i <= s@.len(),
            first_at(s@, b, 0) == first_at(s@, b, i as int),
        decreases s@.len() - i,
    {
        if s[i] == b {
            return Some(i);
        }
        i = i + 1;
    }
    None
}

proof fn lemma_digits_grow(s: Seq<u8>, i: int)
    requires
        0 <= i <= s.len(),
        all_digits(s),
    ensures
        0 <= digits_value(s.subrange(0, i)) <= digits_value(s),
    decreases s.len() - i,
{
    if i < s.len() {
        lemma_digits_grow(s, i + 1);
        assert(s.subrange(0, i + 1).drop_last() =~= s.subrange(0, i));
    } else {
        assert(s.subrange(0, i) =~= s);
        lemma_digits_nonneg(s);
    }
}

proof fn lemma_digits_nonneg(s: Seq<u8>)
    requires
        all_digits(s),
    ensures
        digits_value(s) >= 0,
    decreases s.len(),
{
    if s.len() > 0 {
        assert(forall|k: int| 0 <= k < s.drop_last().len() ==> s.drop_last()[k] == s[k]);
        lemma_digits_nonneg(s.drop_last());
    }
}

/// Reads the `i64` that `s` writes, as `str::parse::<i64>` does.
pub fn parse_i64(s: &[u8]) -> (r: Option<i64>)
    ensures
        match int_value(s@) {
            Some(v) => r == Some(v as i64),
            None => r.is_none(),
        },
{
    let n = s.len();
    if n == 0 {
        return None;
    }
    let neg = s[0] == DASH;
    let b0: usize = if s[0] == DASH || s[0] == PLUS {
        1
    } else {
        0
    };
    let ghost body = s@.subrange(b0 as int, n as int);
    assert(b0 == sign_len(s@));
    if b0 >= n {
        return None;
    }
    let limit: u128 = 0x8000_0000_0000_0000u128;
    let mut acc: u128 = 0;
    let mut i: usize = b0;
    while i < n
        invariant
            b0 <= i <= n == s@.len(),
            b0 == sign_len(s@),
            limit == 0x8000_0000_0000_0000u128,
            body == s@.subrange(b0 as int, n as int),
            forall|k: int| 0 <= k < i - b0 ==> is_digit(#[trigger] body[k]),
            acc == digits_value(body.subrange(0, i - b0)),
            acc <= limit,
        decreases n - i,
    {
        let c = s[i];
        if c < 48u8 || c > 57u8 {
            assert(!is_digit(body[i - b0]));
            return None;
        }
        assert(acc * 10 <= limit * 10) by (nonlinear_arith)
            requires
                acc <= limit,
        ;
        let next = acc * 10 + (c - 48u8) as u128;
        assert(body.subrange(0, i - b0 + 1).drop_last() =~= body.subrange(0, i - b0));
        if next > limit {
            proof {
                if all_digits(body) {
                    lemma_digits_grow(body, i - b0 + 1);
                }
            }
            return None;
        }
        acc = next;
        i = i + 1;
    }
    assert(body.subrange(0, n - b0) =~= body);
    if neg {
        Some((0 - acc as i128) as i64)
    } else if acc > 0x7fff_ffff_ffff_ffffu128 {
        None
    } else {
        Some(acc as i64)
    }
}

/// Resolves region text against an index, in the coordinate convention
/// `mode`: a bare name stands for the whole record, `name:start-end` for a
/// range and `name:pos` for a single base. The record must exist; the range
/// is not held to its bounds here.
pub fn parse_region(index: &FastaIndex, region: &[u8], mode: CoordinateMode) -> (r: FastaResult<
    Region,
>)
    ensures
        match region_parts(region@, mode) {
            None => r matches Err(FastaError::InvalidRegion(t)) && t@ == decoded(region@),
            Some((name, range)) => match index.lookup(name) {
                None => r matches Err(FastaError::SequenceNotFound(t)) && t@ == decoded(name),
                Some(rec) => r matches Ok(reg) && reg.name@ == name && match range {
                    None => reg.start == 0 && reg.end == rec.length,
                    Some((a, b)) => reg.start == a && reg.end == b,
                },
            },
        },
{
    let n = region.len();
    match find_byte(region, COLON) {
        None => {
            let name = copy_bytes(region, 0, n);
            assert(name@ =~= region@);
            match index.sequence_length_of(name.as_slice()) {
                None => Err(FastaError::SequenceNotFound(text_of(name.as_slice()))),
                Some(len) => Ok(Region { name, start: 0, end: len }),
            }
        },
        Some(c) => {
            assert(c < region@.len());
            let name = copy_bytes(region, 0, c);
            let rest = copy_bytes(region, c + 1, n);
            let ghost rs = region@.subrange(c + 1, region@.len() as int);
            assert(rest@ =~= rs);
            let range: Option<(i64, i64)> = match find_byte(rest.as_slice(), DASH) {
                Some(d) => {
                    assert(d < rest@.len());
                    let a = copy_bytes(rest.as_slice(), 0, d);
                    let b = copy_bytes(rest.as_slice(), d + 1, rest.len());
                    assert(a@ == rs.subrange(0, d as int));
                    assert(b@ == rs.subrange(d + 1, rs.len() as int));
                    match (parse_i64(a.as_slice()), parse_i64(b.as_slice())) {
                        (Some(x), Some(y)) => match mode {
                            CoordinateMode::ZeroBased => Some((x, y)),
                            CoordinateMode::OneBased => if x == i64::MIN {
                                None
                            } else {
                                Some((x - 1, y))
                            },
                        },
                        _ => None,
                    }
                },
                None => match parse_i64(rest.as_slice()) {
                    Some(p) => match mode {
                        CoordinateMode::ZeroBased => if p == i64::MAX {
                            None
                        } else {
                            Some((p, p + 1))
                        },
                        CoordinateMode::OneBased => if p == i64::MIN {
                            None
                        } else {
                            Some((p - 1, p))
                        },
                    },
                    None => None,
                },
            };
            assert(match range {
                None => range_of(rs, mode).is_none(),
                Some((x, y)) => range_of(rs, mode) == Some((x as int, y as int)),
            });
            assert(name@ == region@.subrange(0, c as int));
            match range {
                None => Err(FastaError::InvalidRegion(text_of(region))),
                Some((start, end)) => match index.sequence_length_of(name.as_slice()) {
                    None => Err(FastaError::SequenceNotFound(text_of(name.as_slice()))),
                    Some(_) => Ok(Region { name, start, end }),
                },
            }
        },
    }
}

} // verus!
