//! File names that carry coordinates: `<x>_<z>` for a chunk patch and
//! `r.<x>.<z>` for a region file, extension already taken off.

use vstd::prelude::*;
use vstd::slice::slice_subrange;
use vstd::string::StringSliceAdditionalSpecFns;

verus! {

/// Whether `b` is an ASCII decimal digit.
pub open spec fn is_digit(b: u8) -> bool {
    48 <= b <= 57
}

/// Whether `s` holds decimal digits only.
pub open spec fn all_digits(s: Seq<u8>) -> bool {
    forall|i: int| 0 <= i < s.len() ==> is_digit(#[trigger] s[i])
}

/// The number that the decimal digits `s` write.
pub open spec fn digits_value(s: Seq<u8>) -> nat
    decreases s.len(),
{
    if s.len() == 0 {
        0
    } else {
        digits_value(s.drop_last()) * 10 + (s.last() - 48) as nat
    }
}

/// The 32-bit number that `s` writes in decimal: an optional sign, then at
/// least one digit, the whole within range. Anything else is no number.
pub open spec fn parse_i32_spec(s: Seq<u8>) -> Option<i32> {
    if s.len() == 0 {
        None
    } else {
        let signed = s[0] == 45 || s[0] == 43;
        let body = if signed { s.skip(1) } else { s };
        if body.len() == 0 || !all_digits(body) {
            None
        } else {
            let v: int = if s[0] == 45 { -(digits_value(body) as int) } else { digits_value(body) as int };
            if -0x8000_0000 <= v <= 0x7fff_ffff {
                Some(v as i32)
            } else {
                None
            }
        }
    }
}

/// The index of the first `sep` in `s` at or after `from`, or the length of
/// `s` where there is none.
pub open spec fn first_sep(s: Seq<u8>, from: int, sep: u8) -> int
    decreases s.len() - from,
{
    if from < 0 || from >= s.len() {
        s.len() as int
    } else if s[from] == sep {
        from
    } else {
        first_sep(s, from + 1, sep)
    }
}

/// The coordinates in a patch file's name: the text before the first `_`
/// and the text between the first `_` and the second, or the end, each a
/// number.
pub open spec fn fname_xz_spec(s: Seq<u8>) -> Option<(i32, i32)> {
    let a = first_sep(s, 0, 95);
    if a >= s.len() {
        None
    } else {
        let b = first_sep(s, a + 1, 95);
        match (parse_i32_spec(s.subrange(0, a)), parse_i32_spec(s.subrange(a + 1, b))) {
            (Some(x), Some(z)) => Some((x, z)),
            _ => None,
        }
    }
}

/// The coordinates in a region file's name: the second and the third of
/// its fields between dots, each a number.
pub open spec fn region_xz_spec(s: Seq<u8>) -> Option<(i32, i32)> {
    let a = first_sep(s, 0, 46);
    if a >= s.len() {
        None
    } else {
        let b = first_sep(s, a + 1, 46);
        if b >= s.len() {
            None
        } else {
            let c = first_sep(s, b + 1, 46);
            match (parse_i32_spec(s.subrange(a + 1, b)), parse_i32_spec(s.subrange(b + 1, c))) {
                (Some(x), Some(z)) => Some((x, z)),
                _ => None,
            }
        }
    }
}

/// Digits write at least what any of their prefixes writes.
proof fn lemma_digits_grow(s: Seq<u8>, k: int)
    requires
        all_digits(s),
        0 <= k <= s.len(),
    ensures
        digits_value(s.subrange(0, k)) <= digits_value(s),
    decreases s.len(),
{
    if k == s.len() {
        assert(s.subrange(0, k) =~= s);
    } else {
        assert(s.drop_last().subrange(0, k) =~= s.subrange(0, k));
        assert(is_digit(s[s.len() - 1]));
        lemma_digits_grow(s.drop_last(), k);
    }
}

/// Finds the first `sep` in `s` at or after `from`.
pub fn find_sep(s: &[u8], from: usize, sep: u8) -> (r: usize)
    requires
        from <= s@.len(),
    ensures
        r == first_sep(s@, from as int, sep),
        from <= r <= s@.len(),
{
    let mut j: usize = from;
    while j < s.len()
        invariant
            from <= j <= s@.len(),
            first_sep(s@, from as int, sep) == first_sep(s@, j as int, sep),
        decreases s@.len() - j,
    {
        if s[j] == sep {
            return j;
        }
        j = j + 1;
    }
    j
}

/// Reads a 32-bit number written in decimal.
pub fn parse_i32(s: &[u8]) -> (r: Option<i32>)
    ensures
        r == parse_i32_spec(s@),
{
    let n = s.len();
    if n == 0 {
        return None;
    }
    let negative = s[0] == 45;
    let start: usize = if s[0] == 45 || s[0] == 43 { 1 } else { 0 };
    if start == n {
        return None;
    }
    let ghost body = if start == 1 { s@.skip(1) } else { s@ };
    let mut acc: i64 = 0;
    let mut i: usize = start;
    while i < n
        invariant
            start <= i <= n,
            n == s@.len(),
            n > 0,
            (start == 1) == (s@[0] == 45 || s@[0] == 43),
            start <= 1,
            negative == (s@[0] == 45),
            body == (if start == 1 { s@.skip(1) } else { s@ }),
            body =~= s@.subrange(start as int, n as int),
            all_digits(body.subrange(0, i - start)),
            acc == digits_value(body.subrange(0, i - start)),
            0 <= acc <= 0x8000_0000,
        decreases n - i,
    {
        let b = s[i];
        if b < 48 || b > 57 {
            assert(!is_digit(body[i - start]));
            return None;
        }
        let ghost next = body.subrange(0, i - start + 1);
        assert(next.drop_last() =~= body.subrange(0, i - start));
        assert(next.last() == b);
        assert(all_digits(next)) by {
            assert forall|j: int| 0 <= j < next.len() implies is_digit(#[trigger] next[j]) by {
                if j < next.len() - 1 {
                    assert(next[j] == body.subrange(0, i - start)[j]);
                }
            }
        }
        assert(digits_value(next) == acc * 10 + (b - 48));
        let d: i64 = (b - 48) as i64;
        if acc * 10 + d > 0x8000_0000 {
            proof {
                if all_digits(body) {
                    lemma_digits_grow(body, i - start + 1);
                }
            }
            return None;
        }
        acc = acc * 10 + d;
        i = i + 1;
    }
    assert(body.subrange(0, n - start) =~= body);
    if negative {
        Some((-acc) as i32)
    } else if acc <= 0x7fff_ffff {
        Some(acc as i32)
    } else {
        None
    }
}

/// The coordinates in a patch file's name.
pub fn fname_xz(fname: &str) -> (r: Option<(i32, i32)>)
    ensures
        r == fname_xz_spec(fname.spec_bytes()),
{
    let s = fname.as_bytes();
    let a = find_sep(s, 0, 95);
    if a >= s.len() {
        return None;
    }
    let b = find_sep(s, a + 1, 95);
    let x = match parse_i32(slice_subrange(s, 0, a)) {
        Some(x) => x,
        None => {
            return None;
        },
    };
    let z = match parse_i32(slice_subrange(s, a + 1, b)) {
        Some(z) => z,
        None => {
            return None;
        },
    };
    Some((x, z))
}

/// The decimal digits of `n`, without leading zeros.
pub open spec fn decimal(n: nat) -> Seq<u8>
    decreases n,
{
    if n < 10 {
        seq![(48 + n) as u8]
    } else {
        decimal(n / 10).push((48 + n % 10) as u8)
    }
}

/// A 32-bit number written in decimal, with a minus sign where it is
/// negative.
pub open spec fn decimal_i32(x: i32) -> Seq<u8> {
    if x < 0 {
        seq![45u8] + decimal((-x) as nat)
    } else {
        decimal(x as nat)
    }
}

/// The name of the file of region (`x`, `z`), its extension left off.
pub open spec fn region_stem(x: i32, z: i32) -> Seq<u8> {
    seq![114u8, 46u8] + decimal_i32(x) + seq![46u8] + decimal_i32(z)
}

/// The name of the file of region (`x`, `z`).
pub open spec fn region_file_name_spec(x: i32, z: i32) -> Seq<u8> {
    region_stem(x, z) + seq![46u8, 109u8, 99u8, 97u8]
}

/// Decimal digits are digits, at least one, and write their number.
proof fn lemma_decimal(n: nat)
    ensures
        decimal(n).len() >= 1,
        all_digits(decimal(n)),
        digits_value(decimal(n)) == n,
    decreases n,
{
    let d = decimal(n);
    if n < 10 {
        assert(d.drop_last() =~= Seq::<u8>::empty());
        assert(digits_value(d.drop_last()) == 0);
    } else {
        lemma_decimal(n / 10);
        assert(d.drop_last() =~= decimal(n / 10));
        assert forall|i: int| 0 <= i < d.len() implies is_digit(#[trigger] d[i]) by {
            if i < d.len() - 1 {
                assert(d[i] == decimal(n / 10)[i]);
            }
        }
    }
}

/// A number written in decimal reads back as itself, and holds no dot.
pub proof fn lemma_decimal_reads_back(x: i32)
    ensures
        parse_i32_spec(decimal_i32(x)) == Some(x),
        forall|i: int| 0 <= i < decimal_i32(x).len() ==> (#[trigger] decimal_i32(x)[i]) != 46,
{
    let s = decimal_i32(x);
    if x < 0 {
        let body = decimal((-x) as nat);
        lemma_decimal((-x) as nat);
        assert(s.skip(1) =~= body);
        assert(s[0] == 45);
        assert forall|i: int| 0 <= i < s.len() implies (#[trigger] s[i]) != 46 by {
            if i > 0 {
                assert(s[i] == body[i - 1]);
                assert(is_digit(body[i - 1]));
            }
        }
    } else {
        lemma_decimal(x as nat);
        assert(is_digit(s[0]));
        assert forall|i: int| 0 <= i < s.len() implies (#[trigger] s[i]) != 46 by {
            assert(is_digit(s[i]));
        }
    }
}

/// Where no separator lies between `from` and `to`, the first one at or
/// after `from` is the first one at or after `to`.
proof fn lemma_first_sep_skips(s: Seq<u8>, from: int, to: int, sep: u8)
    requires
        0 <= from <= to <= s.len(),
        forall|j: int| from <= j < to ==> s[j] != sep,
    ensures
        first_sep(s, from, sep) == first_sep(s, to, sep),
    decreases to - from,
{
    if from < to {
        lemma_first_sep_skips(s, from + 1, to, sep);
    }
}

/// The name of a region's file stands for that region.
pub proof fn lemma_region_name_reads_back(x: i32, z: i32)
    ensures
        region_xz_spec(region_stem(x, z)) == Some((x, z)),
{
    let dx = decimal_i32(x);
    let dz = decimal_i32(z);
    let s = region_stem(x, z);
    lemma_decimal_reads_back(x);
    lemma_decimal_reads_back(z);
    let a = 1int;
    let b: int = 2 + dx.len() as int;
    let c = s.len() as int;
    assert(s.len() == 3 + dx.len() + dz.len());
    assert(s[0] == 114 && s[1] == 46);
    assert(s[b] == 46);
    assert forall|j: int| 2 <= j < b implies s[j] != 46 by {
        assert(s[j] == dx[j - 2]);
    }
    assert forall|j: int| b + 1 <= j < c implies s[j] != 46 by {
        assert(s[j] == dz[j - b - 1]);
    }
    assert(first_sep(s, 1, 46) == 1);
    assert(first_sep(s, 0, 46) == a);
    lemma_first_sep_skips(s, 2, b, 46);
    assert(first_sep(s, b, 46) == b);
    lemma_first_sep_skips(s, b + 1, c, 46);
    assert(first_sep(s, c, 46) == c);
    assert(s.subrange(a + 1, b) =~= dx);
    assert(s.subrange(b + 1, c) =~= dz);
}

/// Appends the decimal digits of `n`.
fn push_decimal(out: &mut Vec<u8>, n: u32)
    ensures
        final(out)@ == old(out)@ + decimal(n as nat),
    decreases n,
{
    if n >= 10 {
        push_decimal(out, n / 10);
    }
    out.push((48 + n % 10) as u8);
    assert(out@ =~= old(out)@ + decimal(n as nat));
}

/// Appends a 32-bit number written in decimal.
fn push_i32(out: &mut Vec<u8>, x: i32)
    ensures
        final(out)@ == old(out)@ + decimal_i32(x),
{
    if x < 0 {
        out.push(45u8);
        push_decimal(out, (-(x as i64)) as u32);
        assert(out@ =~= old(out)@ + decimal_i32(x));
    } else {
        push_decimal(out, x as u32);
    }
}

/// The name of the file of region (`x`, `z`), as ASCII text.
pub fn region_file_name(x: i32, z: i32) -> (r: Vec<u8>)
    ensures
        r@ == region_file_name_spec(x, z),
{
    let mut out: Vec<u8> = Vec::new();
    out.push(114u8);
    out.push(46u8);
    push_i32(&mut out, x);
    out.push(46u8);
    push_i32(&mut out, z);
    out.push(46u8);
    out.push(109u8);
    out.push(99u8);
    out.push(97u8);
    assert(out@ =~= region_file_name_spec(x, z));
    out
}

/// A region file, known by the coordinates in its name.
#[derive(Debug, Clone, Copy, PartialEq, Eq, Structural)]
pub struct RegionFile {
    pub x: i32,
    pub z: i32,
}

impl RegionFile {
    /// The region file that a name, its extension taken off, stands for.
    pub fn new(stem: &str) -> (r: Option<RegionFile>)
        ensures
            r == match region_xz_spec(stem.spec_bytes()) {
                Some((x, z)) => Some((RegionFile { x, z })),
                None => None,
            },
    {
        let s = stem.as_bytes();
        let a = find_sep(s, 0, 46);
        if a >= s.len() {
            return None;
        }
        let b = find_sep(s, a + 1, 46);
        if b >= s.len() {
            return None;
        }
        let c = find_sep(s, b + 1, 46);
        let x = match parse_i32(slice_subrange(s, a + 1, b)) {
            Some(x) => x,
            None => {
                return None;
            },
        };
        let z = match parse_i32(slice_subrange(s, b + 1, c)) {
            Some(z) => z,
            None => {
                return None;
            },
        };
        Some(RegionFile { x, z })
    }
}

} // verus!
