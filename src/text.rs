//! Byte-level scanning of the log text: separators, digits and integers.
use vstd::prelude::*;

verus! {

pub const NEWLINE: u8 = 10;

pub const TAB: u8 = 9;

pub open spec fn is_digit(b: u8) -> bool {
    48 <= b <= 57
}

/// The first index at or after `from` that holds `sep`, or `s.len()` when none does.
pub open spec fn next_sep(s: Seq<u8>, sep: u8, from: int) -> int
    decreases s.len() - from,
{
    if from < 0 || from >= s.len() {
        s.len() as int
    } else if s[from] == sep {
        from
    } else {
        next_sep(s, sep, from + 1)
    }
}

pub proof fn lemma_next_sep_bounds(s: Seq<u8>, sep: u8, from: int)
    requires
        0 <= from <= s.len(),
    ensures
        from <= next_sep(s, sep, from) <= s.len(),
        next_sep(s, sep, from) < s.len() ==> s[next_sep(s, sep, from)] == sep,
        forall|k: int| from <= k < next_sep(s, sep, from) ==> s[k] != sep,
    decreases s.len() - from,
{
    if from < s.len() && s[from] != sep {
        lemma_next_sep_bounds(s, sep, from + 1);
    }
}

/// Finds the next `sep` in `buf[from..hi]`, or `hi`; positions count from `lo`
/// in the contract.
pub fn find_sep(buf: &[u8], sep: u8, lo: usize, from: usize, hi: usize) -> (r: usize)
    requires
        lo <= from <= hi <= buf@.len(),
    ensures
        r - lo == next_sep(buf@.subrange(lo as int, hi as int), sep, from - lo),
        from <= r <= hi,
{
    let ghost s = buf@.subrange(lo as int, hi as int);
    let mut j: usize = from;
    while j < hi && buf[j] != sep
        invariant
            lo <= from <= j <= hi,
            hi <= buf@.len(),
            s == buf@.subrange(lo as int, hi as int),
            next_sep(s, sep, from - lo) == next_sep(s, sep, j - lo),
        decreases hi - j,
    {
        assert(s[j - lo] == buf@[j as int]);
        j = j + 1;
    }
    if j < hi {
        assert(s[j - lo] == buf@[j as int]);
    }
    j
}

/// A copy of `buf[lo..hi]`.
pub fn copy_range(buf: &[u8], lo: usize, hi: usize) -> (r: Vec<u8>)
    requires
        lo <= hi <= buf@.len(),
    ensures
        r@ == buf@.subrange(lo as int, hi as int),
{
    let mut r: Vec<u8> = Vec::new();
    let mut i: usize = lo;
    while i < hi
        invariant
            lo <= i <= hi,
            hi <= buf@.len(),
            r@ == buf@.subrange(lo as int, i as int),
        decreases hi - i,
    {
        r.push(buf[i]);
        i = i + 1;
    }
    r
}

/// Whether `buf[lo..hi]` is exactly `tok`.
pub fn range_is(buf: &[u8], lo: usize, hi: usize, tok: &Vec<u8>) -> (r: bool)
    requires
        lo <= hi <= buf@.len(),
    ensures
        r == (buf@.subrange(lo as int, hi as int) == tok@),
{
    if hi - lo != tok.len() {
        return false;
    }
    let mut k: usize = 0;
    while k < tok.len()
        invariant
            lo <= hi <= buf@.len(),
            hi - lo == tok@.len(),
            0 <= k <= tok@.len(),
            forall|m: int| 0 <= m < k ==> buf@[lo + m] == tok@[m],
        decreases tok@.len() - k,
    {
        if buf[lo + k] != tok[k] {
            assert(buf@.subrange(lo as int, hi as int)[k as int] != tok@[k as int]);
            return false;
        }
        k = k + 1;
    }
    assert(buf@.subrange(lo as int, hi as int) =~= tok@);
    true
}

/// An ASCII letter in lower case; every other byte as it is.
pub open spec fn lower(c: u8) -> u8 {
    if 65 <= c <= 90 {
        (c + 32) as u8
    } else {
        c
    }
}

pub open spec fn lowered(s: Seq<u8>) -> Seq<u8> {
    s.map_values(|c: u8| lower(c))
}

/// Whether `buf[lo..hi]`, with ASCII letters in lower case, is exactly `tok`.
pub fn range_is_folded(buf: &[u8], lo: usize, hi: usize, tok: &Vec<u8>) -> (r: bool)
    requires
        lo <= hi <= buf@.len(),
    ensures
        r == (lowered(buf@.subrange(lo as int, hi as int)) == tok@),
{
    if hi - lo != tok.len() {
        return false;
    }
    let mut k: usize = 0;
    while k < tok.len()
        invariant
            lo <= hi <= buf@.len(),
            hi - lo == tok@.len(),
            0 <= k <= tok@.len(),
            forall|m: int| 0 <= m < k ==> lower(buf@[lo + m]) == tok@[m],
        decreases tok@.len() - k,
    {
        let c = buf[lo + k];
        let l = if 65 <= c && c <= 90 { c + 32 } else { c };
        if l != tok[k] {
            assert(lowered(buf@.subrange(lo as int, hi as int))[k as int] != tok@[k as int]);
            return false;
        }
        k = k + 1;
    }
    assert(lowered(buf@.subrange(lo as int, hi as int)) =~= tok@);
    true
}

pub open spec fn all_digits(d: Seq<u8>) -> bool {
    forall|i: int| 0 <= i < d.len() ==> is_digit(#[trigger] d[i])
}

/// The number that a run of decimal digits denotes.
pub open spec fn digits_value(d: Seq<u8>) -> int
    decreases d.len(),
{
    if d.len() == 0 {
        0
    } else {
        digits_value(d.drop_last()) * 10 + (d.last() - 48)
    }
}

/// The integer that a field denotes: an optional `+` or `-`, then one or more
/// decimal digits, nothing else.
pub open spec fn int_value(f: Seq<u8>) -> Option<int> {
    if f.len() > 0 && (f[0] == 43u8 || f[0] == 45u8) {
        let d = f.drop_first();
        if d.len() > 0 && all_digits(d) {
            Some(if f[0] == 45u8 { -digits_value(d) } else { digits_value(d) })
        } else {
            None
        }
    } else if f.len() > 0 && all_digits(f) {
        Some(digits_value(f))
    } else {
        None
    }
}

/// The signed 64-bit integer that a field denotes; none when the text is not an
/// integer or the integer does not fit.
pub open spec fn parse_i64(f: Seq<u8>) -> Option<i64> {
    match int_value(f) {
        Some(v) => if i64::MIN <= v <= i64::MAX {
            Some(v as i64)
        } else {
            None
        },
        None => None,
    }
}

pub fn all_digits_in(buf: &[u8], lo: usize, hi: usize) -> (r: bool)
    requires
        lo <= hi <= buf@.len(),
    ensures
        r == all_digits(buf@.subrange(lo as int, hi as int)),
{
    let mut i: usize = lo;
    while i < hi
        invariant
            lo <= i <= hi,
            hi <= buf@.len(),
            forall|k: int| lo <= k < i ==> is_digit(#[trigger] buf@[k]),
        decreases hi - i,
    {
        if !(48 <= buf[i] && buf[i] <= 57) {
            assert(buf@.subrange(lo as int, hi as int)[i - lo] == buf@[i as int]);
            return false;
        }
        i = i + 1;
    }
    assert forall|k: int| 0 <= k < hi - lo implies is_digit(
        #[trigger] buf@.subrange(lo as int, hi as int)[k],
    ) by {
        assert(buf@.subrange(lo as int, hi as int)[k] == buf@[lo + k]);
    }
    true
}

proof fn lemma_digits_value_nonneg(d: Seq<u8>)
    requires
        all_digits(d),
    ensures
        digits_value(d) >= 0,
    decreases d.len(),
{
    if d.len() > 0 {
        assert(is_digit(d[d.len() - 1]));
        assert(all_digits(d.drop_last())) by {
            assert forall|i: int| 0 <= i < d.drop_last().len() implies is_digit(
                #[trigger] d.drop_last()[i],
            ) by {
                assert(d.drop_last()[i] == d[i]);
            }
        }
        lemma_digits_value_nonneg(d.drop_last());
    }
}

/// Reads `buf[lo..hi]`, known to be one or more digits, as a magnitude capped just
/// above 2^63: the result is exact up to 2^63 and otherwise only known to exceed it.
fn digits_magnitude(buf: &[u8], lo: usize, hi: usize) -> (r: u128)
    requires
        lo < hi <= buf@.len(),
        all_digits(buf@.subrange(lo as int, hi as int)),
    ensures
        r <= 0x8000_0000_0000_0000 ==> r == digits_value(buf@.subrange(lo as int, hi as int)),
        r > 0x8000_0000_0000_0000 ==> digits_value(buf@.subrange(lo as int, hi as int))
            > 0x8000_0000_0000_0000,
{
    let ghost d = buf@.subrange(lo as int, hi as int);
    let mut acc: u128 = 0;
    let mut i: usize = lo;
    while i < hi
        invariant
            lo <= i <= hi,
            hi <= buf@.len(),
            d == buf@.subrange(lo as int, hi as int),
            all_digits(d),
            acc <= 0x8000_0000_0000_0000 ==> acc == digits_value(d.subrange(0, i - lo)),
            acc > 0x8000_0000_0000_0000 ==> digits_value(d.subrange(0, i - lo))
                > 0x8000_0000_0000_0000,
            acc <= 10 * 0x8000_0000_0000_0000 + 9,
        decreases hi - i,
    {
        let ghost p = d.subrange(0, i - lo);
        let ghost q = d.subrange(0, i + 1 - lo);
        assert(q.drop_last() == p);
        assert(q.last() == buf@[i as int]);
        assert(is_digit(d[i - lo]));
        assert(all_digits(p)) by {
            assert forall|k: int| 0 <= k < p.len() implies is_digit(#[trigger] p[k]) by {
                assert(p[k] == d[k]);
            }
        }
        proof {
            lemma_digits_value_nonneg(p);
        }
        if acc <= 0x8000_0000_0000_0000 {
            acc = acc * 10 + (buf[i] - 48) as u128;
        }
        i = i + 1;
    }
    assert(d.subrange(0, hi - lo) == d);
    acc
}

/// Parses `buf[lo..hi]` as a signed 64-bit decimal integer.
pub fn parse_i64_in(buf: &[u8], lo: usize, hi: usize) -> (r: Option<i64>)
    requires
        lo <= hi <= buf@.len(),
    ensures
        r == parse_i64(buf@.subrange(lo as int, hi as int)),
{
    let ghost f = buf@.subrange(lo as int, hi as int);
    if lo < hi && (buf[lo] == 43 || buf[lo] == 45) {
        let neg = buf[lo] == 45;
        assert(f[0] == buf@[lo as int]);
        assert(f.drop_first() == buf@.subrange(lo + 1, hi as int));
        if lo + 1 < hi && all_digits_in(buf, lo + 1, hi) {
            let m = digits_magnitude(buf, lo + 1, hi);
            if neg && m <= 0x8000_0000_0000_0000 {
                Some((0 - (m as i128)) as i64)
            } else if !neg && m <= 0x7fff_ffff_ffff_ffff {
                Some(m as i64)
            } else {
                None
            }
        } else {
            None
        }
    } else if lo < hi && all_digits_in(buf, lo, hi) {
        assert(f[0] == buf@[lo as int]);
        let m = digits_magnitude(buf, lo, hi);
        if m <= 0x7fff_ffff_ffff_ffff {
            Some(m as i64)
        } else {
            None
        }
    } else {
        None
    }
}

} // verus!
