//! Variable-length integers: seven data bits per byte, least significant
//! group first, the high bit of a byte announcing that another byte follows.

use mc_varint::{VarIntRead, VarLongRead};
use vstd::prelude::*;
use crate::error::DecodeError;

verus! {

/// Longest encoding of a 32-bit value, in bytes.
pub const VARINT_MAX_BYTES: usize = 5;

/// Longest encoding of a 64-bit value, in bytes.
pub const VARLONG_MAX_BYTES: usize = 10;

/// Reads groups from `s` starting at index `i`, at most `max` of them.
/// Gives the unsigned sum of the groups and the number of bytes taken, or
/// `None` if no terminating byte lies within reach.
pub open spec fn var_scan(s: Seq<u8>, i: int, max: nat) -> Option<(nat, nat)>
    decreases max,
{
    if max == 0 || i < 0 || i >= s.len() {
        None
    } else if s[i] < 128 {
        Some((s[i] as nat, 1nat))
    } else {
        match var_scan(s, i + 1, (max - 1) as nat) {
            Some((v, l)) => Some((((s[i] - 128) + 128 * v) as nat, l + 1)),
            None => None,
        }
    }
}

/// The low 32 bits of `v`, read as a two's-complement number.
pub open spec fn wrap_i32(v: nat) -> i32 {
    let m = v % 0x1_0000_0000;
    if m < 0x8000_0000 {
        m as i32
    } else {
        (m - 0x1_0000_0000) as i32
    }
}

/// The low 64 bits of `v`, read as a two's-complement number.
pub open spec fn wrap_i64(v: nat) -> i64 {
    let m = v % 0x1_0000_0000_0000_0000;
    if m < 0x8000_0000_0000_0000 {
        m as i64
    } else {
        (m - 0x1_0000_0000_0000_0000) as i64
    }
}

/// What reading a 32-bit variable-length integer at the front of `s` gives:
/// the value and the number of bytes it occupies. A number that does not
/// fit in 32 bits is refused, as is one with no end within five bytes.
pub open spec fn varint_at(s: Seq<u8>) -> Result<(i32, nat), DecodeError> {
    match var_scan(s, 0, 5) {
        Some((v, l)) => if v < 0x1_0000_0000 {
            Ok((wrap_i32(v), l))
        } else {
            Err(DecodeError::VarintTooLong)
        },
        None => if s.len() >= 5 {
            Err(DecodeError::VarintTooLong)
        } else {
            Err(DecodeError::ShortRead)
        },
    }
}

/// What reading a 64-bit variable-length integer at the front of `s` gives.
/// A number that does not fit in 64 bits is refused, as is one with no end
/// within ten bytes.
pub open spec fn varlong_at(s: Seq<u8>) -> Result<(i64, nat), DecodeError> {
    match var_scan(s, 0, 10) {
        Some((v, l)) => if v < 0x1_0000_0000_0000_0000 {
            Ok((wrap_i64(v), l))
        } else {
            Err(DecodeError::VarintTooLong)
        },
        None => if s.len() >= 10 {
            Err(DecodeError::VarintTooLong)
        } else {
            Err(DecodeError::ShortRead)
        },
    }
}

/// The groups of the unsigned number `u`, least significant first, every
/// byte but the last carrying the continuation bit.
pub open spec fn encode_groups(u: nat) -> Seq<u8>
    decreases u,
{
    if u < 128 {
        seq![u as u8]
    } else {
        seq![((u % 128) + 128) as u8] + encode_groups(u / 128)
    }
}

/// The encoding of a 32-bit value: the groups of its two's-complement bits.
pub open spec fn varint_encoding(x: i32) -> Seq<u8> {
    encode_groups(bits_of_i32(x))
}

/// The encoding of a 64-bit value.
pub open spec fn varlong_encoding(x: i64) -> Seq<u8> {
    encode_groups(bits_of_i64(x))
}

/// 128 to the power `n`.
pub open spec fn pow128(n: nat) -> nat
    decreases n,
{
    if n == 0 { 1 } else { 128 * pow128((n - 1) as nat) }
}

/// Calls `mc_varint::VarIntRead::read_var_int` on a cursor over `data` and
/// converts the result with `i32::from`. The crate takes bytes until one has
/// its high bit clear, refuses a sixth byte, and fails when the input ends
/// first; the value is the groups or-ed together at seven-bit offsets, bits
/// beyond the thirty-second dropped. Returns the value and the bytes taken.
#[verifier::external_body]
fn mc_read_var_int(data: &[u8]) -> (r: Option<(i32, usize)>)
    ensures
        match r {
            Some((x, n)) => var_scan(data@, 0, 5) matches Some((v, l)) && l == n && x == wrap_i32(v),
            None => var_scan(data@, 0, 5) is None,
        },
{
    let mut cursor = std::io::Cursor::new(data);
    match cursor.read_var_int() {
        Ok(v) => Some((i32::from(v), cursor.position() as usize)),
        Err(_) => None,
    }
}

/// Calls `mc_varint::VarLongRead::read_var_long` on a cursor over `data` and
/// converts the result with `i64::from`: as for 32 bits, with at most ten
/// bytes and bits beyond the sixty-fourth dropped.
#[verifier::external_body]
fn mc_read_var_long(data: &[u8]) -> (r: Option<(i64, usize)>)
    ensures
        match r {
            Some((x, n)) => var_scan(data@, 0, 10) matches Some((v, l)) && l == n && x == wrap_i64(v),
            None => var_scan(data@, 0, 10) is None,
        },
{
    let mut cursor = std::io::Cursor::new(data);
    match cursor.read_var_long() {
        Ok(v) => Some((i64::from(v), cursor.position() as usize)),
        Err(_) => None,
    }
}

/// A scan that succeeds takes at least one byte, at most `max`, and stays
/// inside the sequence.
proof fn lemma_var_scan_len(s: Seq<u8>, i: int, max: nat)
    ensures
        var_scan(s, i, max) matches Some((_, l)) ==> 1 <= l <= max && i + l <= s.len(),
    decreases max,
{
    if max > 0 && 0 <= i < s.len() && s[i] >= 128 {
        lemma_var_scan_len(s, i + 1, (max - 1) as nat);
    }
}

/// The sum that a scan gives lies between its last group, shifted to its
/// place, and the next larger one.
proof fn lemma_scan_top(s: Seq<u8>, i: int, max: nat)
    ensures
        var_scan(s, i, max) matches Some((v, l)) ==> {
            let top = s[i + l - 1];
            &&& top < 128
            &&& top * pow128((l - 1) as nat) <= v < (top + 1) * pow128((l - 1) as nat)
        },
    decreases max,
{
    if max > 0 && 0 <= i < s.len() {
        if s[i] >= 128 {
            lemma_scan_top(s, i + 1, (max - 1) as nat);
            lemma_var_scan_len(s, i + 1, (max - 1) as nat);
            match var_scan(s, i + 1, (max - 1) as nat) {
                Some((v, l)) => {
                    let top = s[i + l] as int;
                    let p = pow128((l - 1) as nat) as int;
                    let low = s[i] - 128;
                    assert(pow128(l) == 128 * p);
                    assert(top * (128 * p) <= 128 * v && 128 * v + 128 <= (top + 1) * (128 * p))
                        by (nonlinear_arith)
                        requires
                            top * p <= v < (top + 1) * p,
                    ;
                    assert(var_scan(s, i, max) == Some(((low + 128 * v) as nat, l + 1)));
                    assert(top * pow128(l) <= low + 128 * v < (top + 1) * pow128(l));
                },
                None => {},
            }
        } else {
            assert(pow128(0) == 1);
            assert(s[i] * pow128(0) == s[i]) by (nonlinear_arith)
                requires
                    pow128(0) == 1,
            ;
            assert((s[i] + 1) * pow128(0) == s[i] + 1) by (nonlinear_arith)
                requires
                    pow128(0) == 1,
            ;
        }
    }
}

/// A scan of at most five bytes gives less than two to the thirty-second
/// unless it takes five and the last holds more than four bits.
proof fn lemma_fits_32(s: Seq<u8>)
    ensures
        var_scan(s, 0, 5) matches Some((v, l)) ==> (v >= 0x1_0000_0000 <==> l == 5 && s[4] > 0x0f),
{
    lemma_var_scan_len(s, 0, 5);
    lemma_scan_top(s, 0, 5);
    reveal_with_fuel(pow128, 6);
    match var_scan(s, 0, 5) {
        Some((v, l)) => {
            let top = s[l - 1] as int;
            let p = pow128((l - 1) as nat) as int;
            assert(l == 1 || l == 2 || l == 3 || l == 4 || l == 5);
            assert(pow128(0) == 1 && pow128(1) == 128 && pow128(2) == 0x4000 && pow128(3)
                == 0x20_0000 && pow128(4) == 0x1000_0000);
            assert(top * p <= v < (top + 1) * p);
            if l == 5 {
                assert(top * 0x1000_0000 <= v < (top + 1) * 0x1000_0000) by (nonlinear_arith)
                    requires
                        top * p <= v < (top + 1) * p,
                        p == 0x1000_0000,
                ;
            } else {
                assert(p <= 0x20_0000);
                assert((top + 1) * p <= 128 * 0x20_0000) by (nonlinear_arith)
                    requires
                        0 <= top < 128,
                        0 <= p <= 0x20_0000,
                ;
            }
        },
        None => {},
    }
}

/// A scan of at most ten bytes gives less than two to the sixty-fourth
/// unless it takes ten and the last holds more than one bit.
proof fn lemma_fits_64(s: Seq<u8>)
    ensures
        var_scan(s, 0, 10) matches Some((v, l)) ==> (v >= 0x1_0000_0000_0000_0000 <==> l == 10
            && s[9] > 0x01),
{
    lemma_var_scan_len(s, 0, 10);
    lemma_scan_top(s, 0, 10);
    reveal_with_fuel(pow128, 11);
    match var_scan(s, 0, 10) {
        Some((v, l)) => {
            let top = s[l - 1] as int;
            let p = pow128((l - 1) as nat) as int;
            assert(pow128(0) == 1 && pow128(1) == 128 && pow128(2) == 0x4000 && pow128(3)
                == 0x20_0000 && pow128(4) == 0x1000_0000 && pow128(5) == 0x8_0000_0000 && pow128(6)
                == 0x400_0000_0000 && pow128(7) == 0x2_0000_0000_0000 && pow128(8)
                == 0x100_0000_0000_0000 && pow128(9) == 0x8000_0000_0000_0000);
            assert(top * p <= v < (top + 1) * p);
            if l == 10 {
                assert(top * 0x8000_0000_0000_0000 <= v < (top + 1) * 0x8000_0000_0000_0000)
                    by (nonlinear_arith)
                    requires
                        top * p <= v < (top + 1) * p,
                        p == 0x8000_0000_0000_0000,
                ;
            } else {
                assert(l == 1 || l == 2 || l == 3 || l == 4 || l == 5 || l == 6 || l == 7 || l == 8
                    || l == 9);
                assert(p <= 0x100_0000_0000_0000);
                assert((top + 1) * p <= 128 * 0x100_0000_0000_0000) by (nonlinear_arith)
                    requires
                        0 <= top < 128,
                        0 <= p <= 0x100_0000_0000_0000,
                ;
            }
        },
        None => {},
    }
}

/// Reads a 32-bit variable-length integer at the front of `data`; gives the
/// value and the number of bytes it occupies.
pub fn read_varint(data: &[u8]) -> (r: Result<(i32, usize), DecodeError>)
    ensures
        match r {
            Ok((x, n)) => varint_at(data@) == Ok::<(i32, nat), DecodeError>((x, n as nat))
                && 1 <= n <= 5 && n <= data@.len(),
            Err(e) => varint_at(data@) == Err::<(i32, nat), DecodeError>(e),
        },
{
    proof {
        lemma_var_scan_len(data@, 0, 5);
        lemma_fits_32(data@);
    }
    match mc_read_var_int(data) {
        Some((x, n)) => if n == VARINT_MAX_BYTES && data[n - 1] > 0x0f {
            Err(DecodeError::VarintTooLong)
        } else {
            Ok((x, n))
        },
        None => if data.len() >= VARINT_MAX_BYTES {
            Err(DecodeError::VarintTooLong)
        } else {
            Err(DecodeError::ShortRead)
        },
    }
}

/// Reads a 64-bit variable-length integer at the front of `data`; gives the
/// value and the number of bytes it occupies.
pub fn read_varlong(data: &[u8]) -> (r: Result<(i64, usize), DecodeError>)
    ensures
        match r {
            Ok((x, n)) => varlong_at(data@) == Ok::<(i64, nat), DecodeError>((x, n as nat))
                && 1 <= n <= 10 && n <= data@.len(),
            Err(e) => varlong_at(data@) == Err::<(i64, nat), DecodeError>(e),
        },
{
    proof {
        lemma_var_scan_len(data@, 0, 10);
        lemma_fits_64(data@);
    }
    match mc_read_var_long(data) {
        Some((x, n)) => if n == VARLONG_MAX_BYTES && data[n - 1] > 0x01 {
            Err(DecodeError::VarintTooLong)
        } else {
            Ok((x, n))
        },
        None => if data.len() >= VARLONG_MAX_BYTES {
            Err(DecodeError::VarintTooLong)
        } else {
            Err(DecodeError::ShortRead)
        },
    }
}

/// The two's-complement bits of a 32-bit value as an unsigned number.
pub open spec fn bits_of_i32(x: i32) -> nat {
    if x >= 0 {
        x as nat
    } else {
        (x + 0x1_0000_0000) as nat
    }
}

/// The two's-complement bits of a 64-bit value as an unsigned number.
pub open spec fn bits_of_i64(x: i64) -> nat {
    if x >= 0 {
        x as nat
    } else {
        (x + 0x1_0000_0000_0000_0000) as nat
    }
}

/// Writes the groups of `u`.
fn write_groups(u: u64) -> (r: Vec<u8>)
    ensures
        r@ == encode_groups(u as nat),
{
    let mut out: Vec<u8> = Vec::new();
    let mut rest: u64 = u;
    while rest >= 128
        invariant
            out@ + encode_groups(rest as nat) == encode_groups(u as nat),
        decreases rest,
    {
        let ghost before = out@;
        let b: u8 = ((rest % 128) + 128) as u8;
        out.push(b);
        assert(encode_groups(rest as nat) =~= seq![b] + encode_groups((rest / 128) as nat));
        assert(out@ + encode_groups((rest / 128) as nat) =~= before + encode_groups(rest as nat));
        rest = rest / 128;
    }
    let ghost before = out@;
    out.push(rest as u8);
    assert(out@ =~= before + encode_groups(rest as nat));
    out
}

/// Writes a 32-bit value as a variable-length integer.
pub fn write_varint(x: i32) -> (r: Vec<u8>)
    ensures
        r@ == varint_encoding(x),
{
    let u: u64 = if x >= 0 {
        x as u64
    } else {
        (x as i64 + 0x1_0000_0000i64) as u64
    };
    write_groups(u)
}

/// Writes a 64-bit value as a variable-length integer.
pub fn write_varlong(x: i64) -> (r: Vec<u8>)
    ensures
        r@ == varlong_encoding(x),
{
    let u: u64 = if x >= 0 {
        x as u64
    } else {
        (x as i128 + 0x1_0000_0000_0000_0000i128) as u64
    };
    write_groups(u)
}

/// Putting one byte in front of a sequence moves every scan by one index.
proof fn lemma_scan_shift(b: u8, t: Seq<u8>, i: int, max: nat)
    requires
        i >= 0,
    ensures
        var_scan(seq![b] + t, i + 1, max) == var_scan(t, i, max),
    decreases max,
{
    let s = seq![b] + t;
    if max > 0 && i < t.len() {
        assert(s[i + 1] == t[i]);
        if t[i] >= 128 {
            lemma_scan_shift(b, t, i + 1, (max - 1) as nat);
        }
    }
}

/// Scanning the groups of `u`, whatever follows them, gives `u` back and
/// takes exactly those groups, provided `u` fits in `max` groups.
proof fn lemma_scan_encoding(u: nat, rest: Seq<u8>, max: nat)
    requires
        u < pow128(max),
        max >= 1,
    ensures
        var_scan(encode_groups(u) + rest, 0, max) == Some((u, encode_groups(u).len())),
    decreases u,
{
    let s = encode_groups(u) + rest;
    if u < 128 {
        assert(s[0] == u);
    } else {
        let b = ((u % 128) + 128) as u8;
        let t = encode_groups(u / 128);
        reveal_with_fuel(pow128, 2);
        assert(max >= 2);
        assert(s =~= seq![b] + (t + rest));
        assert(u / 128 < pow128((max - 1) as nat)) by (nonlinear_arith)
            requires
                u < 128 * pow128((max - 1) as nat),
        ;
        lemma_scan_encoding(u / 128, rest, (max - 1) as nat);
        lemma_scan_shift(b, t + rest, 0, (max - 1) as nat);
        assert(s[0] == b);
        assert((b - 128) + 128 * (u / 128) == u);
    }
}

/// A proper prefix of the groups of `u` holds no terminating byte.
proof fn lemma_scan_truncated(u: nat, k: int, max: nat)
    requires
        0 <= k < encode_groups(u).len(),
    ensures
        var_scan(encode_groups(u).subrange(0, k), 0, max) is None,
    decreases u,
{
    let p = encode_groups(u).subrange(0, k);
    if u >= 128 && k > 0 && max > 0 {
        let b = ((u % 128) + 128) as u8;
        let t = encode_groups(u / 128);
        assert(encode_groups(u) =~= seq![b] + t);
        assert(p =~= seq![b] + t.subrange(0, k - 1));
        assert(p[0] == b);
        lemma_scan_truncated(u / 128, k - 1, (max - 1) as nat);
        lemma_scan_shift(b, t.subrange(0, k - 1), 0, (max - 1) as nat);
    }
}

/// Decoding undoes encoding: read at the front of the encoding of `x`,
/// followed by any bytes, a 32-bit variable-length integer is `x` and takes
/// exactly the encoding. Read from any proper prefix of the encoding alone,
/// it is a short read.
pub proof fn lemma_varint_roundtrip(x: i32, rest: Seq<u8>, k: int)
    ensures
        varint_at(varint_encoding(x) + rest) == Ok::<(i32, nat), DecodeError>(
            (x, varint_encoding(x).len()),
        ),
        1 <= varint_encoding(x).len() <= 5,
        0 <= k < varint_encoding(x).len() ==> varint_at(varint_encoding(x).subrange(0, k)) == Err::<
            (i32, nat),
            DecodeError,
        >(DecodeError::ShortRead),
{
    let u = bits_of_i32(x);
    reveal_with_fuel(pow128, 6);
    assert(pow128(5) == 0x8_0000_0000);
    lemma_scan_encoding(u, rest, 5);
    lemma_scan_encoding(u, Seq::empty(), 5);
    assert(encode_groups(u) + Seq::<u8>::empty() =~= encode_groups(u));
    lemma_var_scan_len(encode_groups(u), 0, 5);
    if 0 <= k < varint_encoding(x).len() {
        lemma_scan_truncated(u, k, 5);
    }
}

/// Decoding undoes encoding for 64-bit values, in the same sense.
pub proof fn lemma_varlong_roundtrip(x: i64, rest: Seq<u8>, k: int)
    ensures
        varlong_at(varlong_encoding(x) + rest) == Ok::<(i64, nat), DecodeError>(
            (x, varlong_encoding(x).len()),
        ),
        1 <= varlong_encoding(x).len() <= 10,
        0 <= k < varlong_encoding(x).len() ==> varlong_at(varlong_encoding(x).subrange(0, k))
            == Err::<(i64, nat), DecodeError>(DecodeError::ShortRead),
{
    let u = bits_of_i64(x);
    reveal_with_fuel(pow128, 11);
    assert(pow128(10) == 0x40_0000_0000_0000_0000);
    lemma_scan_encoding(u, rest, 10);
    lemma_scan_encoding(u, Seq::empty(), 10);
    assert(encode_groups(u) + Seq::<u8>::empty() =~= encode_groups(u));
    lemma_var_scan_len(encode_groups(u), 0, 10);
    if 0 <= k < varlong_encoding(x).len() {
        lemma_scan_truncated(u, k, 10);
    }
}

} // verus!
