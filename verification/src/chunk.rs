//! The chunk payload: a run of sections, one for each bit set in the
//! section mask, lowest section first.

use vstd::prelude::*;
use crate::error::DecodeError;
use crate::reader::{
    i16_at, i64_reader, items_at, u8_at, varint_reader, ByteCursor, ReadArrayExt,
};
use crate::varint::varint_at;

verus! {

/// Edge of the sky-light array of a section, in bytes.
pub const LIGHT_SIZE: usize = 2048;

/// Number of sections in a chunk column.
pub const SECTION_COUNT: u32 = 16;

/// Largest bits-per-block value for which a section carries its own palette.
pub const MAX_BITS_PER_BLOCK: u8 = 8;

/// What a section holds: its local palette of global block-state ids, and
/// its packed words as they came.
pub ghost struct SectionModel {
    pub palette: Seq<i32>,
    pub data: Seq<i64>,
}

/// One decoded section.
#[derive(Debug, Clone)]
pub struct Chunk {
    pub palette: Vec<i32>,
    pub data: Vec<i64>,
}

impl View for Chunk {
    type V = SectionModel;

    open spec fn view(&self) -> SectionModel {
        SectionModel { palette: self.palette@, data: self.data@ }
    }
}

impl Chunk {
    /// The packed words of the section, copied as they are.
    pub fn block_states_compound(&self) -> (r: Vec<i64>)
        ensures
            r@ == self.data@,
    {
        let r = self.data.clone();
        assert(r@ =~= self.data@);
        r
    }
}

/// The packed payload of a chunk packet.
#[derive(Debug, Clone)]
pub struct ChunkData {
    pub _type: String,
    pub data: Vec<u8>,
}

/// The two's-complement bits of `mask` as an unsigned number.
pub open spec fn mask_bits(mask: i32) -> u32 {
    if mask >= 0 {
        mask as u32
    } else {
        (mask + 0x1_0000_0000) as u32
    }
}

/// Whether bit `i` of `mask` is set.
pub open spec fn bit_set(mask: i32, i: u32) -> bool {
    (mask_bits(mask) >> i) & 1u32 == 1u32
}

/// The key under which section `i` is stored.
pub open spec fn section_key(i: u32) -> i32 {
    (i & 0x0Fu32) as i32
}

/// How many of the lowest `n` bits of `mask` are set.
pub open spec fn count_set(mask: i32, n: nat) -> nat
    decreases n,
{
    if n == 0 {
        0
    } else {
        count_set(mask, (n - 1) as nat) + if bit_set(mask, (n - 1) as u32) {
            1nat
        } else {
            0nat
        }
    }
}

/// The local palette at the front of `s`, for a section of `bits` bits per
/// block: a counted run of variable-length ids where the section is
/// indirect, nothing where it is direct.
pub open spec fn palette_at(s: Seq<u8>, bits: u8) -> Result<(Seq<i32>, nat), DecodeError> {
    if bits <= MAX_BITS_PER_BLOCK {
        match varint_at(s) {
            Err(e) => Err(e),
            Ok((n, a)) => if n < 0 {
                Err(DecodeError::NegativeLength)
            } else {
                match items_at(s.skip(a as int), n as nat, varint_reader()) {
                    Err(e) => Err(e),
                    Ok((ids, b)) => Ok((ids, a + b)),
                }
            },
        }
    } else {
        Ok((Seq::empty(), 0nat))
    }
}

/// The packed words at the front of `s`: a variable-length count, then that
/// many big-endian 64-bit words.
pub open spec fn words_at(s: Seq<u8>) -> Result<(Seq<i64>, nat), DecodeError> {
    match varint_at(s) {
        Err(e) => Err(e),
        Ok((m, a)) => if m < 0 {
            Err(DecodeError::NegativeLength)
        } else {
            match items_at(s.skip(a as int), m as nat, i64_reader()) {
                Err(e) => Err(e),
                Ok((words, b)) => Ok((words, a + b)),
            }
        },
    }
}

/// The section at the front of `s`: a 16-bit block count, which is passed
/// over, a bits-per-block byte, the palette, and the packed words.
pub open spec fn section_at(s: Seq<u8>) -> Result<(SectionModel, nat), DecodeError> {
    match i16_at(s) {
        Err(e) => Err(e),
        Ok((_, a)) => match u8_at(s.skip(a as int)) {
            Err(e) => Err(e),
            Ok((bits, b)) => match palette_at(s.skip((a + b) as int), bits) {
                Err(e) => Err(e),
                Ok((palette, c)) => match words_at(s.skip((a + b + c) as int)) {
                    Err(e) => Err(e),
                    Ok((data, d)) => Ok((SectionModel { palette, data }, a + b + c + d)),
                },
            },
        },
    }
}

/// The sections of the lowest `n` mask bits, read one after the other from
/// the front of `s`: each with its key, and the bytes they take together.
pub open spec fn sections_upto(s: Seq<u8>, mask: i32, n: nat) -> Result<
    (Seq<(i32, SectionModel)>, nat),
    DecodeError,
>
    decreases n,
{
    if n == 0 {
        Ok((Seq::empty(), 0nat))
    } else {
        match sections_upto(s, mask, (n - 1) as nat) {
            Err(e) => Err(e),
            Ok((secs, c)) => if !bit_set(mask, (n - 1) as u32) {
                Ok((secs, c))
            } else {
                match section_at(s.skip(c as int)) {
                    Err(e) => Err(e),
                    Ok((m, l)) => Ok((secs.push((section_key((n - 1) as u32), m)), c + l)),
                }
            },
        }
    }
}

/// What a payload decodes to under a section mask.
pub open spec fn decode_sections(s: Seq<u8>, mask: i32) -> Result<
    Seq<(i32, SectionModel)>,
    DecodeError,
> {
    match sections_upto(s, mask, SECTION_COUNT as nat) {
        Err(e) => Err(e),
        Ok((secs, _)) => Ok(secs),
    }
}

/// Once the sections of the lowest bits have failed, so has the payload.
proof fn lemma_sections_fail(s: Seq<u8>, mask: i32, i: nat, n: nat)
    requires
        i <= n,
        sections_upto(s, mask, i) is Err,
    ensures
        sections_upto(s, mask, n) == sections_upto(s, mask, i),
    decreases n,
{
    if i < n {
        lemma_sections_fail(s, mask, i, (n - 1) as nat);
    }
}

/// The sections of a payload, keyed by section index, lowest first.
#[derive(Debug, Clone)]
pub struct ParsedChunkData {
    chunks: Vec<(i32, Chunk)>,
}

impl View for ParsedChunkData {
    type V = Seq<(i32, SectionModel)>;

    closed spec fn view(&self) -> Seq<(i32, SectionModel)> {
        Seq::new(self.chunks@.len(), |i: int| (self.chunks@[i].0, self.chunks@[i].1@))
    }
}

/// Keys between 0 and 15, each larger than the one before it.
pub open spec fn ascending_keys(secs: Seq<(i32, SectionModel)>) -> bool {
    &&& forall|j: int| 0 <= j < secs.len() ==> 0 <= (#[trigger] secs[j]).0 < 16
    &&& forall|j: int, k: int| 0 <= j < k < secs.len() ==> (#[trigger] secs[j]).0 < (#[trigger] secs[k]).0
}

impl ParsedChunkData {
    /// How many sections there are.
    pub fn len(&self) -> (n: usize)
        ensures
            n == self@.len(),
    {
        self.chunks.len()
    }

    /// The key of the `i`-th section, counted from the lowest.
    pub fn key(&self, i: usize) -> (y: i32)
        requires
            i < self@.len(),
        ensures
            y == self@[i as int].0,
    {
        self.chunks[i].0
    }

    /// The `i`-th section, counted from the lowest.
    pub fn section(&self, i: usize) -> (c: &Chunk)
        requires
            i < self@.len(),
        ensures
            c@ == self@[i as int].1,
    {
        &self.chunks[i].1
    }
}

/// Reads a local palette at the cursor, for a section of `bits` bits per
/// block.
pub fn read_palette(cur: &mut ByteCursor, bits: u8) -> (r: Result<Vec<i32>, DecodeError>)
    ensures
        match palette_at(old(cur)@, bits) {
            Ok((ids, l)) => r is Ok && r->Ok_0@ == ids && l <= old(cur)@.len() && final(cur)@
                == old(cur)@.skip(l as int),
            Err(e) => r is Err && r->Err_0 == e && final(cur)@ == old(cur)@,
        },
{
    let ghost s0 = cur@;
    if bits > MAX_BITS_PER_BLOCK {
        assert(s0.skip(0) =~= s0);
        return Ok(Vec::new());
    }
    let saved = *cur;
    let n = match cur.read_varint() {
        Ok(n) => n,
        Err(e) => {
            return Err(e);
        },
    };
    if n < 0 {
        *cur = saved;
        return Err(DecodeError::NegativeLength);
    }
    let ghost l = varint_at(s0)->Ok_0.1;
    match cur.read_varint_array(n as usize) {
        Ok(ids) => {
            proof {
                let b = items_at(s0.skip(l as int), n as nat, varint_reader())->Ok_0.1;
                assert(s0.skip(l as int).skip(b as int) =~= s0.skip((l + b) as int));
            }
            Ok(ids)
        },
        Err(e) => {
            *cur = saved;
            Err(e)
        },
    }
}

/// Reads a counted run of packed words at the cursor.
pub fn read_words(cur: &mut ByteCursor) -> (r: Result<Vec<i64>, DecodeError>)
    ensures
        match words_at(old(cur)@) {
            Ok((words, l)) => r is Ok && r->Ok_0@ == words && l <= old(cur)@.len() && final(cur)@
                == old(cur)@.skip(l as int),
            Err(e) => r is Err && r->Err_0 == e && final(cur)@ == old(cur)@,
        },
{
    let ghost s0 = cur@;
    let saved = *cur;
    let m = match cur.read_varint() {
        Ok(m) => m,
        Err(e) => {
            return Err(e);
        },
    };
    if m < 0 {
        *cur = saved;
        return Err(DecodeError::NegativeLength);
    }
    let ghost l = varint_at(s0)->Ok_0.1;
    match cur.read_i64_array(m as usize) {
        Ok(words) => {
            proof {
                let b = items_at(s0.skip(l as int), m as nat, i64_reader())->Ok_0.1;
                assert(s0.skip(l as int).skip(b as int) =~= s0.skip((l + b) as int));
            }
            Ok(words)
        },
        Err(e) => {
            *cur = saved;
            Err(e)
        },
    }
}

/// Reads one section at the cursor.
pub fn read_section(cur: &mut ByteCursor) -> (r: Result<Chunk, DecodeError>)
    ensures
        match section_at(old(cur)@) {
            Ok((m, l)) => r is Ok && r->Ok_0@ == m && l <= old(cur)@.len() && final(cur)@ == old(
                cur,
            )@.skip(l as int),
            Err(e) => r is Err && r->Err_0 == e && final(cur)@ == old(cur)@,
        },
{
    let saved = *cur;
    let ghost s0 = cur@;
    match cur.read_i16() {
        Ok(_) => {},
        Err(e) => {
            return Err(e);
        },
    }
    let bits = match cur.read_u8() {
        Ok(b) => b,
        Err(e) => {
            *cur = saved;
            return Err(e);
        },
    };
    let ghost s3 = cur@;
    assert(s3 =~= s0.skip(3));
    let palette = match read_palette(cur, bits) {
        Ok(ids) => ids,
        Err(e) => {
            *cur = saved;
            return Err(e);
        },
    };
    let ghost c = palette_at(s3, bits)->Ok_0.1;
    let ghost s4 = cur@;
    assert(s4 =~= s0.skip((3 + c) as int));
    let data = match read_words(cur) {
        Ok(words) => words,
        Err(e) => {
            *cur = saved;
            return Err(e);
        },
    };
    proof {
        let d = words_at(s4)->Ok_0.1;
        assert(cur@ =~= s0.skip((3 + c + d) as int));
    }
    Ok(Chunk { palette, data })
}

impl ChunkData {
    /// Decodes the payload under the section mask `mask`: for each of the
    /// sixteen lowest bits that is set, lowest first, one section.
    pub fn read_data(&self, mask: i32, full: bool) -> (r: Result<ParsedChunkData, DecodeError>)
        ensures
            match r {
                Ok(p) => decode_sections(self.data@, mask) == Ok::<
                    Seq<(i32, SectionModel)>,
                    DecodeError,
                >(p@) && ascending_keys(p@) && p@.len() == count_set(mask, 16),
                Err(e) => decode_sections(self.data@, mask) == Err::<
                    Seq<(i32, SectionModel)>,
                    DecodeError,
                >(e),
            },
    {
        let mut cur = ByteCursor::new(self.data.as_slice());
        let ghost s0 = self.data@;
        let ghost mut taken: nat = 0;
        let ghost mut secs: Seq<(i32, SectionModel)> = Seq::empty();
        let bits: u32 = if mask >= 0 {
            mask as u32
        } else {
            (mask as i64 + 0x1_0000_0000i64) as u32
        };
        let mut chunks: Vec<(i32, Chunk)> = Vec::new();
        let mut i: u32 = 0;
        assert(s0.skip(0) =~= s0);
        while i < SECTION_COUNT
            invariant
                i <= 16,
                s0 == self.data@,
                bits == mask_bits(mask),
                taken <= s0.len(),
                cur@ == s0.skip(taken as int),
                sections_upto(s0, mask, i as nat) == Ok::<
                    (Seq<(i32, SectionModel)>, nat),
                    DecodeError,
                >((secs, taken)),
                secs.len() == chunks@.len(),
                forall|j: int|
                    0 <= j < secs.len() ==> (#[trigger] secs[j]) == (chunks@[j].0, chunks@[j].1@),
                secs.len() == count_set(mask, i as nat),
                forall|j: int| 0 <= j < secs.len() ==> 0 <= (#[trigger] secs[j]).0 < i,
                forall|j: int, k: int|
                    0 <= j < k < secs.len() ==> (#[trigger] secs[j]).0 < (#[trigger] secs[k]).0,
            decreases 16 - i,
        {
            if (bits >> i) & 1u32 == 1u32 {
                match read_section(&mut cur) {
                    Ok(section) => {
                        assert(i & 0x0Fu32 == i) by (bit_vector)
                            requires
                                i < 16,
                        ;
                        let key = (i & 0x0Fu32) as i32;
                        proof {
                            let l = section_at(s0.skip(taken as int))->Ok_0.1;
                            assert(s0.skip(taken as int).skip(l as int) =~= s0.skip(
                                (taken + l) as int,
                            ));
                            taken = taken + l;
                            secs = secs.push((key, section@));
                        }
                        chunks.push((key, section));
                    },
                    Err(e) => {
                        proof {
                            assert(sections_upto(s0, mask, (i + 1) as nat) is Err);
                            lemma_sections_fail(s0, mask, (i + 1) as nat, 16);
                        }
                        return Err(e);
                    },
                }
            }
            i = i + 1;
        }
        let p = ParsedChunkData { chunks };
        assert(p@ =~= secs);
        Ok(p)
    }
}

/// A payload that decodes has one section for each set bit among the
/// sixteen lowest of its mask, keyed by the index of that bit, in ascending
/// order of key.
pub proof fn lemma_sections_follow_mask(s: Seq<u8>, mask: i32, n: nat)
    requires
        n <= 16,
        sections_upto(s, mask, n) is Ok,
    ensures
        ({
            let secs = sections_upto(s, mask, n)->Ok_0.0;
            &&& secs.len() == count_set(mask, n)
            &&& forall|j: int|
                0 <= j < secs.len() ==> 0 <= (#[trigger] secs[j]).0 < n && bit_set(
                    mask,
                    secs[j].0 as u32,
                )
            &&& forall|j: int, k: int|
                0 <= j < k < secs.len() ==> (#[trigger] secs[j]).0 < (#[trigger] secs[k]).0
        }),
    decreases n,
{
    if n > 0 {
        lemma_sections_follow_mask(s, mask, (n - 1) as nat);
        let i = (n - 1) as u32;
        assert(i & 0x0Fu32 == i) by (bit_vector)
            requires
                i < 16,
        ;
    }
}

} // verus!
