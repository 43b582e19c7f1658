//! A cursor over a byte buffer, with big-endian and variable-length reads.
//! Every read either succeeds and moves past what it took, or fails and
//! leaves the cursor where it was.

use byteorder::ByteOrder;
use vstd::prelude::*;
use vstd::slice::slice_subrange;
use crate::error::DecodeError;
use crate::varint::{read_varint, read_varlong, varint_at, varlong_at, wrap_i32, wrap_i64};

verus! {

/// The first `n` bytes of `s` as an unsigned number, most significant first.
pub open spec fn be_uint(s: Seq<u8>, n: nat) -> nat
    decreases n,
{
    if n == 0 {
        0
    } else {
        be_uint(s, (n - 1) as nat) * 256 + s[n - 1] as nat
    }
}

/// The low 16 bits of `v`, read as a two's-complement number.
pub open spec fn wrap_i16(v: nat) -> i16 {
    let m = v % 0x1_0000;
    if m < 0x8000 {
        m as i16
    } else {
        (m - 0x1_0000) as i16
    }
}

/// One byte at the front of `s`.
pub open spec fn u8_at(s: Seq<u8>) -> Result<(u8, nat), DecodeError> {
    if s.len() >= 1 {
        Ok((s[0], 1nat))
    } else {
        Err(DecodeError::ShortRead)
    }
}

/// A big-endian signed 16-bit number at the front of `s`.
pub open spec fn i16_at(s: Seq<u8>) -> Result<(i16, nat), DecodeError> {
    if s.len() >= 2 {
        Ok((wrap_i16(be_uint(s, 2)), 2nat))
    } else {
        Err(DecodeError::ShortRead)
    }
}

/// A big-endian signed 32-bit number at the front of `s`.
pub open spec fn i32_at(s: Seq<u8>) -> Result<(i32, nat), DecodeError> {
    if s.len() >= 4 {
        Ok((wrap_i32(be_uint(s, 4)), 4nat))
    } else {
        Err(DecodeError::ShortRead)
    }
}

/// A big-endian signed 64-bit number at the front of `s`.
pub open spec fn i64_at(s: Seq<u8>) -> Result<(i64, nat), DecodeError> {
    if s.len() >= 8 {
        Ok((wrap_i64(be_uint(s, 8)), 8nat))
    } else {
        Err(DecodeError::ShortRead)
    }
}

/// `n` items in a row at the front of `s`, each read by `one` where the one
/// before it ended: the items and the bytes they take together, or the
/// first failure.
pub open spec fn items_at<T>(
    s: Seq<u8>,
    n: nat,
    one: spec_fn(Seq<u8>) -> Result<(T, nat), DecodeError>,
) -> Result<(Seq<T>, nat), DecodeError>
    decreases n,
{
    if n == 0 {
        Ok((Seq::empty(), 0nat))
    } else {
        match items_at(s, (n - 1) as nat, one) {
            Err(e) => Err(e),
            Ok((vs, c)) => match one(s.skip(c as int)) {
                Err(e) => Err(e),
                Ok((v, l)) => Ok((vs.push(v), c + l)),
            },
        }
    }
}

/// Reading one byte, as a reader of items.
pub open spec fn u8_reader() -> spec_fn(Seq<u8>) -> Result<(u8, nat), DecodeError> {
    |s: Seq<u8>| u8_at(s)
}

/// Reading a big-endian 32-bit number, as a reader of items.
pub open spec fn i32_reader() -> spec_fn(Seq<u8>) -> Result<(i32, nat), DecodeError> {
    |s: Seq<u8>| i32_at(s)
}

/// Reading a big-endian 64-bit number, as a reader of items.
pub open spec fn i64_reader() -> spec_fn(Seq<u8>) -> Result<(i64, nat), DecodeError> {
    |s: Seq<u8>| i64_at(s)
}

/// Reading a 32-bit variable-length integer, as a reader of items.
pub open spec fn varint_reader() -> spec_fn(Seq<u8>) -> Result<(i32, nat), DecodeError> {
    |s: Seq<u8>| varint_at(s)
}

/// Reading a 64-bit variable-length integer, as a reader of items.
pub open spec fn varlong_reader() -> spec_fn(Seq<u8>) -> Result<(i64, nat), DecodeError> {
    |s: Seq<u8>| varlong_at(s)
}

/// A read of one value: what came back and what is left unread, against
/// what the bytes say.
pub open spec fn reads<T>(
    before: Seq<u8>,
    after: Seq<u8>,
    got: Result<T, DecodeError>,
    want: Result<(T, nat), DecodeError>,
) -> bool {
    match want {
        Ok((v, l)) => got == Ok::<T, DecodeError>(v) && l <= before.len() && after == before.skip(
            l as int,
        ),
        Err(e) => got == Err::<T, DecodeError>(e) && after == before,
    }
}

/// A read of several values into a vector, in the same sense.
pub open spec fn reads_all<T>(
    before: Seq<u8>,
    after: Seq<u8>,
    got: Result<Vec<T>, DecodeError>,
    want: Result<(Seq<T>, nat), DecodeError>,
) -> bool {
    match want {
        Ok((vs, l)) => got is Ok && got->Ok_0@ == vs && l <= before.len() && after == before.skip(
            l as int,
        ),
        Err(e) => got == Err::<Vec<T>, DecodeError>(e) && after == before,
    }
}

/// Once a run of items has failed, every longer run fails the same way.
proof fn lemma_items_fail<T>(
    s: Seq<u8>,
    i: nat,
    n: nat,
    one: spec_fn(Seq<u8>) -> Result<(T, nat), DecodeError>,
)
    requires
        i <= n,
        items_at(s, i, one) is Err,
    ensures
        items_at(s, n, one) == items_at(s, i, one),
    decreases n,
{
    if i < n {
        lemma_items_fail(s, i, (n - 1) as nat, one);
    }
}

/// Calls `byteorder::ByteOrder::read_i16` of `BigEndian`, which panics on
/// fewer than two bytes and otherwise gives the first two, most significant
/// first, as a two's-complement number.
#[verifier::external_body]
fn be_read_i16(buf: &[u8]) -> (r: i16)
    requires
        buf@.len() >= 2,
    ensures
        r == wrap_i16(be_uint(buf@, 2)),
{
    byteorder::BigEndian::read_i16(buf)
}

/// Calls `byteorder::ByteOrder::read_i32` of `BigEndian`, which panics on
/// fewer than four bytes and otherwise gives the first four, most
/// significant first, as a two's-complement number.
#[verifier::external_body]
fn be_read_i32(buf: &[u8]) -> (r: i32)
    requires
        buf@.len() >= 4,
    ensures
        r == wrap_i32(be_uint(buf@, 4)),
{
    byteorder::BigEndian::read_i32(buf)
}

/// Calls `byteorder::ByteOrder::read_i64` of `BigEndian`, which panics on
/// fewer than eight bytes and otherwise gives the first eight, most
/// significant first, as a two's-complement number.
#[verifier::external_body]
fn be_read_i64(buf: &[u8]) -> (r: i64)
    requires
        buf@.len() >= 8,
    ensures
        r == wrap_i64(be_uint(buf@, 8)),
{
    byteorder::BigEndian::read_i64(buf)
}

/// A read position in a borrowed byte buffer.
#[derive(Clone, Copy)]
pub struct ByteCursor<'a> {
    data: &'a [u8],
    pos: usize,
}

impl<'a> View for ByteCursor<'a> {
    type V = Seq<u8>;

    /// The bytes not yet read.
    closed spec fn view(&self) -> Seq<u8> {
        if self.pos <= self.data@.len() {
            self.data@.subrange(self.pos as int, self.data@.len() as int)
        } else {
            Seq::empty()
        }
    }
}

impl<'a> ByteCursor<'a> {
    /// A cursor at the start of `data`.
    pub fn new(data: &'a [u8]) -> (c: Self)
        ensures
            c@ == data@,
    {
        let c = ByteCursor { data, pos: 0 };
        assert(c@ =~= data@);
        c
    }

    /// The bytes not yet read.
    pub fn rest(&self) -> (r: &'a [u8])
        ensures
            r@ == self@,
    {
        let len = self.data.len();
        if self.pos <= len {
            slice_subrange(self.data, self.pos, len)
        } else {
            let r = slice_subrange(self.data, len, len);
            assert(r@ =~= self@);
            r
        }
    }

    /// How many bytes are not yet read.
    pub fn remaining(&self) -> (n: usize)
        ensures
            n == self@.len(),
    {
        let len = self.data.len();
        if self.pos <= len {
            len - self.pos
        } else {
            0
        }
    }

    /// Moves past `n` unread bytes.
    fn advance(&mut self, n: usize)
        requires
            n <= old(self)@.len(),
        ensures
            final(self)@ == old(self)@.skip(n as int),
    {
        if n > 0 {
            let len = self.data.len();
            assert(self.pos <= len);
            assert(self@.len() == self.data@.len() - self.pos);
            self.pos = self.pos + n;
        }
        assert(self@ =~= old(self)@.skip(n as int));
    }

    /// Reads one byte.
    pub fn read_u8(&mut self) -> (r: Result<u8, DecodeError>)
        ensures
            reads(old(self)@, final(self)@, r, u8_at(old(self)@)),
    {
        let rest = self.rest();
        if rest.len() >= 1 {
            let b = rest[0];
            self.advance(1);
            Ok(b)
        } else {
            Err(DecodeError::ShortRead)
        }
    }

    /// Reads a big-endian signed 16-bit number.
    pub fn read_i16(&mut self) -> (r: Result<i16, DecodeError>)
        ensures
            reads(old(self)@, final(self)@, r, i16_at(old(self)@)),
    {
        let rest = self.rest();
        if rest.len() >= 2 {
            let v = be_read_i16(rest);
            self.advance(2);
            Ok(v)
        } else {
            Err(DecodeError::ShortRead)
        }
    }

    /// Reads a big-endian signed 32-bit number.
    pub fn read_i32(&mut self) -> (r: Result<i32, DecodeError>)
        ensures
            reads(old(self)@, final(self)@, r, i32_at(old(self)@)),
    {
        let rest = self.rest();
        if rest.len() >= 4 {
            let v = be_read_i32(rest);
            self.advance(4);
            Ok(v)
        } else {
            Err(DecodeError::ShortRead)
        }
    }

    /// Reads a big-endian signed 64-bit number.
    pub fn read_i64(&mut self) -> (r: Result<i64, DecodeError>)
        ensures
            reads(old(self)@, final(self)@, r, i64_at(old(self)@)),
    {
        let rest = self.rest();
        if rest.len() >= 8 {
            let v = be_read_i64(rest);
            self.advance(8);
            Ok(v)
        } else {
            Err(DecodeError::ShortRead)
        }
    }

    /// Reads a 32-bit variable-length integer.
    pub fn read_varint(&mut self) -> (r: Result<i32, DecodeError>)
        ensures
            reads(old(self)@, final(self)@, r, varint_at(old(self)@)),
    {
        match read_varint(self.rest()) {
            Ok((v, n)) => {
                self.advance(n);
                Ok(v)
            },
            Err(e) => Err(e),
        }
    }

    /// Reads a 64-bit variable-length integer.
    pub fn read_varlong(&mut self) -> (r: Result<i64, DecodeError>)
        ensures
            reads(old(self)@, final(self)@, r, varlong_at(old(self)@)),
    {
        match read_varlong(self.rest()) {
            Ok((v, n)) => {
                self.advance(n);
                Ok(v)
            },
            Err(e) => Err(e),
        }
    }
}

/// Reads of a counted run of values.
pub trait ReadArrayExt {
    /// The bytes not yet read.
    spec fn unread(&self) -> Seq<u8>;

    /// Reads `size` bytes.
    fn read_u8_array(&mut self, size: usize) -> (r: Result<Vec<u8>, DecodeError>)
        ensures
            reads_all(
                old(self).unread(),
                final(self).unread(),
                r,
                items_at(old(self).unread(), size as nat, u8_reader()),
            ),
    ;

    /// Reads `size` big-endian signed 32-bit numbers.
    fn read_i32_array(&mut self, size: usize) -> (r: Result<Vec<i32>, DecodeError>)
        ensures
            reads_all(
                old(self).unread(),
                final(self).unread(),
                r,
                items_at(old(self).unread(), size as nat, i32_reader()),
            ),
    ;

    /// Reads `size` big-endian signed 64-bit numbers.
    fn read_i64_array(&mut self, size: usize) -> (r: Result<Vec<i64>, DecodeError>)
        ensures
            reads_all(
                old(self).unread(),
                final(self).unread(),
                r,
                items_at(old(self).unread(), size as nat, i64_reader()),
            ),
    ;

    /// Reads `size` 32-bit variable-length integers.
    fn read_varint_array(&mut self, size: usize) -> (r: Result<Vec<i32>, DecodeError>)
        ensures
            reads_all(
                old(self).unread(),
                final(self).unread(),
                r,
                items_at(old(self).unread(), size as nat, varint_reader()),
            ),
    ;

    /// Reads `size` 64-bit variable-length integers.
    fn read_varlong_array(&mut self, size: usize) -> (r: Result<Vec<i64>, DecodeError>)
        ensures
            reads_all(
                old(self).unread(),
                final(self).unread(),
                r,
                items_at(old(self).unread(), size as nat, varlong_reader()),
            ),
    ;
}

impl<'a> ReadArrayExt for ByteCursor<'a> {
    open spec fn unread(&self) -> Seq<u8> {
        self@
    }

    fn read_u8_array(&mut self, size: usize) -> (r: Result<Vec<u8>, DecodeError>) {
        let saved = *self;
        let ghost s0 = self@;
        let ghost mut taken: nat = 0;
        let mut out: Vec<u8> = Vec::new();
        let mut i: usize = 0;
        while i < size
            invariant
                i <= size,
                saved@ == s0,
                s0 == old(self)@,
                items_at(s0, i as nat, u8_reader()) == Ok::<(Seq<u8>, nat), DecodeError>(
                    (out@, taken),
                ),
                taken <= s0.len(),
                self@ == s0.skip(taken as int),
            decreases size - i,
        {
            match self.read_u8() {
                Ok(v) => {
                    out.push(v);
                    proof {
                        assert(s0.skip(taken as int).skip(1) =~= s0.skip((taken + 1) as int));
                        taken = taken + 1;
                    }
                },
                Err(e) => {
                    proof {
                        assert(items_at(s0, (i + 1) as nat, u8_reader()) is Err);
                        lemma_items_fail(s0, (i + 1) as nat, size as nat, u8_reader());
                    }
                    *self = saved;
                    return Err(e);
                },
            }
            i = i + 1;
        }
        Ok(out)
    }

    fn read_i32_array(&mut self, size: usize) -> (r: Result<Vec<i32>, DecodeError>) {
        let saved = *self;
        let ghost s0 = self@;
        let ghost mut taken: nat = 0;
        let mut out: Vec<i32> = Vec::new();
        let mut i: usize = 0;
        while i < size
            invariant
                i <= size,
                saved@ == s0,
                s0 == old(self)@,
                items_at(s0, i as nat, i32_reader()) == Ok::<(Seq<i32>, nat), DecodeError>(
                    (out@, taken),
                ),
                taken <= s0.len(),
                self@ == s0.skip(taken as int),
            decreases size - i,
        {
            match self.read_i32() {
                Ok(v) => {
                    out.push(v);
                    proof {
                        assert(s0.skip(taken as int).skip(4) =~= s0.skip((taken + 4) as int));
                        taken = taken + 4;
                    }
                },
                Err(e) => {
                    proof {
                        assert(items_at(s0, (i + 1) as nat, i32_reader()) is Err);
                        lemma_items_fail(s0, (i + 1) as nat, size as nat, i32_reader());
                    }
                    *self = saved;
                    return Err(e);
                },
            }
            i = i + 1;
        }
        Ok(out)
    }

    fn read_i64_array(&mut self, size: usize) -> (r: Result<Vec<i64>, DecodeError>) {
        let saved = *self;
        let ghost s0 = self@;
        let ghost mut taken: nat = 0;
        let mut out: Vec<i64> = Vec::new();
        let mut i: usize = 0;
        while i < size
            invariant
                i <= size,
                saved@ == s0,
                s0 == old(self)@,
                items_at(s0, i as nat, i64_reader()) == Ok::<(Seq<i64>, nat), DecodeError>(
                    (out@, taken),
                ),
                taken <= s0.len(),
                self@ == s0.skip(taken as int),
            decreases size - i,
        {
            match self.read_i64() {
                Ok(v) => {
                    out.push(v);
                    proof {
                        assert(s0.skip(taken as int).skip(8) =~= s0.skip((taken + 8) as int));
                        taken = taken + 8;
                    }
                },
                Err(e) => {
                    proof {
                        assert(items_at(s0, (i + 1) as nat, i64_reader()) is Err);
                        lemma_items_fail(s0, (i + 1) as nat, size as nat, i64_reader());
                    }
                    *self = saved;
                    return Err(e);
                },
            }
            i = i + 1;
        }
        Ok(out)
    }

    fn read_varint_array(&mut self, size: usize) -> (r: Result<Vec<i32>, DecodeError>) {
        let saved = *self;
        let ghost s0 = self@;
        let ghost mut taken: nat = 0;
        let mut out: Vec<i32> = Vec::new();
        let mut i: usize = 0;
        while i < size
            invariant
                i <= size,
                saved@ == s0,
                s0 == old(self)@,
                items_at(s0, i as nat, varint_reader()) == Ok::<(Seq<i32>, nat), DecodeError>(
                    (out@, taken),
                ),
                taken <= s0.len(),
                self@ == s0.skip(taken as int),
            decreases size - i,
        {
            let ghost before = self@;
            match self.read_varint() {
                Ok(v) => {
                    out.push(v);
                    proof {
                        let l = varint_at(before)->Ok_0.1;
                        assert(s0.skip(taken as int).skip(l as int) =~= s0.skip((taken + l) as int));
                        taken = taken + l;
                    }
                },
                Err(e) => {
                    proof {
                        assert(items_at(s0, (i + 1) as nat, varint_reader()) is Err);
                        lemma_items_fail(s0, (i + 1) as nat, size as nat, varint_reader());
                    }
                    *self = saved;
                    return Err(e);
                },
            }
            i = i + 1;
        }
        Ok(out)
    }

    fn read_varlong_array(&mut self, size: usize) -> (r: Result<Vec<i64>, DecodeError>) {
        let saved = *self;
        let ghost s0 = self@;
        let ghost mut taken: nat = 0;
        let mut out: Vec<i64> = Vec::new();
        let mut i: usize = 0;
        while i < size
            invariant
                i <= size,
                saved@ == s0,
                s0 == old(self)@,
                items_at(s0, i as nat, varlong_reader()) == Ok::<(Seq<i64>, nat), DecodeError>(
                    (out@, taken),
                ),
                taken <= s0.len(),
                self@ == s0.skip(taken as int),
            decreases size - i,
        {
            let ghost before = self@;
            match self.read_varlong() {
                Ok(v) => {
                    out.push(v);
                    proof {
                        let l = varlong_at(before)->Ok_0.1;
                        assert(s0.skip(taken as int).skip(l as int) =~= s0.skip((taken + l) as int));
                        taken = taken + l;
                    }
                },
                Err(e) => {
                    proof {
                        assert(items_at(s0, (i + 1) as nat, varlong_reader()) is Err);
                        lemma_items_fail(s0, (i + 1) as nat, size as nat, varlong_reader());
                    }
                    *self = saved;
                    return Err(e);
                },
            }
            i = i + 1;
        }
        Ok(out)
    }
}

} // verus!
