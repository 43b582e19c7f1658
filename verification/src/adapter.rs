//! From a decoded chunk packet to the tag that a save file holds for it.

use nbt::CompoundTag;
use vstd::prelude::*;
use crate::chunk::{
    ascending_keys, decode_sections, Chunk, ChunkData, ParsedChunkData, SectionModel, LIGHT_SIZE,
};
use crate::error::DecodeError;
use crate::palette::{resolve_in, GlobalPalette};
use crate::tag::{
    compound_items, no_entries, tag_entries, tag_insert_compound, tag_insert_compound_vec,
    tag_insert_i32, tag_insert_i32_vec, tag_insert_i64, tag_insert_i64_vec, tag_insert_i8,
    tag_insert_i8_vec, tag_insert_str, tag_new, TagValue,
};

verus! {

/// The data version that assembled chunks are marked with.
pub const DATA_VERSION: i32 = 2230;

/// One chunk as it came over the wire.
#[allow(non_snake_case)]
#[derive(Debug, Clone)]
pub struct PacketChunk {
    pub x: i32,
    pub z: i32,
    pub groundUp: bool,
    pub bitMap: i32,
    pub biomes: Vec<i32>,
    pub chunkData: ChunkData,
}

/// The palette entry of a block name.
pub open spec fn name_tag(name: Seq<char>) -> Map<Seq<char>, TagValue> {
    no_entries().insert("Name"@, TagValue::Text(name))
}

/// The palette entries of the first `n` of `ids`, each resolved in `table`;
/// the first id that the table lacks fails the whole palette, and with it
/// the chunk. Whether to pass over such an id instead is an open question.
pub open spec fn palette_tags(ids: Seq<i32>, table: Map<i64, Seq<char>>, n: nat) -> Result<
    Seq<TagValue>,
    DecodeError,
>
    decreases n,
{
    if n == 0 {
        Ok(Seq::empty())
    } else {
        match palette_tags(ids, table, (n - 1) as nat) {
            Err(e) => Err(e),
            Ok(tags) => match resolve_in(table, ids[n - 1] as i64) {
                Err(e) => Err(e),
                Ok(name) => Ok(tags.push(TagValue::Compound(name_tag(name)))),
            },
        }
    }
}

/// A sky-light array with no light in it.
pub open spec fn dark() -> Seq<i8> {
    Seq::new(LIGHT_SIZE as nat, |i: int| 0i8)
}

/// The tag of the section stored under `y`, given its palette entries: the
/// packed words as they came, the palette, an unlit sky, and the key.
///
/// The words are not repacked. That is right only where the packet and the
/// save file pack blocks with the same number of bits; whether they should
/// be repacked otherwise is an open question.
pub open spec fn section_tag(y: i32, section: SectionModel, palette: Seq<TagValue>) -> Map<
    Seq<char>,
    TagValue,
> {
    no_entries().insert("BlockStates"@, TagValue::LongArray(section.data)).insert(
        "Palette"@,
        TagValue::List(palette),
    ).insert("SkyLight"@, TagValue::ByteArray(dark())).insert("Y"@, TagValue::Byte(y as i8))
}

/// The tags of the first `n` sections, in their order; the first palette
/// that fails to resolve fails them all.
pub open spec fn sections_tags(
    secs: Seq<(i32, SectionModel)>,
    table: Map<i64, Seq<char>>,
    n: nat,
) -> Result<Seq<TagValue>, DecodeError>
    decreases n,
{
    if n == 0 {
        Ok(Seq::empty())
    } else {
        match sections_tags(secs, table, (n - 1) as nat) {
            Err(e) => Err(e),
            Ok(tags) => match palette_tags(
                secs[n - 1].1.palette,
                table,
                secs[n - 1].1.palette.len(),
            ) {
                Err(e) => Err(e),
                Ok(palette) => Ok(
                    tags.push(TagValue::Compound(section_tag(secs[n - 1].0, secs[n - 1].1, palette))),
                ),
            },
        }
    }
}

/// The level tag of a chunk at column (`x`, `z`).
pub open spec fn level_tag(x: i32, z: i32, biomes: Seq<i32>, sections: Seq<TagValue>) -> Map<
    Seq<char>,
    TagValue,
> {
    no_entries().insert("Status"@, TagValue::Text("full"@)).insert("zPos"@, TagValue::Int(z)).insert(
        "LastUpdate"@,
        TagValue::Long(3),
    ).insert("Biomes"@, TagValue::IntArray(biomes)).insert(
        "InhabitedTime"@,
        TagValue::Long(0),
    ).insert("xPos"@, TagValue::Int(x)).insert(
        "Heightmaps"@,
        TagValue::Compound(no_entries()),
    ).insert("TileEntities"@, TagValue::List(Seq::empty())).insert(
        "Entities"@,
        TagValue::List(Seq::empty()),
    ).insert("isLightOn"@, TagValue::Byte(1)).insert(
        "TileTicks"@,
        TagValue::List(Seq::empty()),
    ).insert("Sections"@, TagValue::List(sections)).insert(
        "PostProcessing"@,
        TagValue::List(Seq::empty()),
    ).insert("Structures"@, TagValue::Compound(no_entries())).insert(
        "LiquidTicks"@,
        TagValue::List(Seq::empty()),
    )
}

/// The tag of a whole chunk: its level, and the data version.
pub open spec fn chunk_tag(level: Map<Seq<char>, TagValue>) -> Map<Seq<char>, TagValue> {
    no_entries().insert("Level"@, TagValue::Compound(level)).insert(
        "DataVersion"@,
        TagValue::Int(DATA_VERSION),
    )
}

/// What a packet assembles to: its payload decoded under its mask, every
/// palette resolved, and the whole laid out as a chunk tag.
pub open spec fn assembled(
    x: i32,
    z: i32,
    mask: i32,
    biomes: Seq<i32>,
    payload: Seq<u8>,
    table: Map<i64, Seq<char>>,
) -> Result<Map<Seq<char>, TagValue>, DecodeError> {
    match decode_sections(payload, mask) {
        Err(e) => Err(e),
        Ok(secs) => match sections_tags(secs, table, secs.len()) {
            Err(e) => Err(e),
            Ok(tags) => Ok(chunk_tag(level_tag(x, z, biomes, tags))),
        },
    }
}

/// Once a palette has failed to resolve, so has every longer one.
proof fn lemma_palette_fails(ids: Seq<i32>, table: Map<i64, Seq<char>>, i: nat, n: nat)
    requires
        i <= n,
        palette_tags(ids, table, i) is Err,
    ensures
        palette_tags(ids, table, n) == palette_tags(ids, table, i),
    decreases n,
{
    if i < n {
        lemma_palette_fails(ids, table, i, (n - 1) as nat);
    }
}

/// Once the tags of some sections have failed, so have those of any more.
proof fn lemma_sections_tags_fail(
    secs: Seq<(i32, SectionModel)>,
    table: Map<i64, Seq<char>>,
    i: nat,
    n: nat,
)
    requires
        i <= n,
        sections_tags(secs, table, i) is Err,
    ensures
        sections_tags(secs, table, n) == sections_tags(secs, table, i),
    decreases n,
{
    if i < n {
        lemma_sections_tags_fail(secs, table, i, (n - 1) as nat);
    }
}

/// An empty list of compound tags.
fn no_tags() -> (v: Vec<CompoundTag>)
    ensures
        compound_items(v@) == Seq::<TagValue>::empty(),
{
    let v: Vec<CompoundTag> = Vec::new();
    assert(compound_items(v@) =~= Seq::<TagValue>::empty());
    v
}

impl Chunk {
    /// The palette of the section as tags: for each id, in order, an entry
    /// with the name that the id stands for in `palette`.
    pub fn palette_compound(&self, palette: &GlobalPalette) -> (r: Result<
        Vec<CompoundTag>,
        DecodeError,
    >)
        ensures
            match r {
                Ok(tags) => palette_tags(self.palette@, palette@, self.palette@.len()) == Ok::<
                    Seq<TagValue>,
                    DecodeError,
                >(compound_items(tags@)),
                Err(e) => palette_tags(self.palette@, palette@, self.palette@.len()) == Err::<
                    Seq<TagValue>,
                    DecodeError,
                >(e),
            },
    {
        let mut tags = no_tags();
        let mut i: usize = 0;
        while i < self.palette.len()
            invariant
                i <= self.palette@.len(),
                palette_tags(self.palette@, palette@, i as nat) == Ok::<Seq<TagValue>, DecodeError>(
                    compound_items(tags@),
                ),
            decreases self.palette@.len() - i,
        {
            let id = self.palette[i] as i64;
            match palette.resolve(id) {
                Ok(name) => {
                    let mut tag = tag_new();
                    tag_insert_str(&mut tag, "Name", name.as_str());
                    let ghost before = compound_items(tags@);
                    tags.push(tag);
                    assert(compound_items(tags@) =~= before.push(
                        TagValue::Compound(name_tag(name@)),
                    ));
                },
                Err(e) => {
                    proof {
                        assert(palette_tags(self.palette@, palette@, (i + 1) as nat) is Err);
                        lemma_palette_fails(
                            self.palette@,
                            palette@,
                            (i + 1) as nat,
                            self.palette@.len(),
                        );
                    }
                    return Err(e);
                },
            }
            i = i + 1;
        }
        Ok(tags)
    }
}

/// A sky-light array with no light in it.
fn dark_sky() -> (v: Vec<i8>)
    ensures
        v@ == dark(),
{
    let mut v: Vec<i8> = Vec::new();
    let mut i: usize = 0;
    while i < LIGHT_SIZE
        invariant
            i <= LIGHT_SIZE,
            v@.len() == i,
            forall|j: int| 0 <= j < i ==> v@[j] == 0i8,
        decreases LIGHT_SIZE - i,
    {
        v.push(0i8);
        i = i + 1;
    }
    assert(v@ =~= dark());
    v
}

impl ParsedChunkData {
    /// The sections as tags, lowest first.
    pub fn into_tags(&self, palette: &GlobalPalette) -> (r: Result<Vec<CompoundTag>, DecodeError>)
        requires
            ascending_keys(self@),
        ensures
            match r {
                Ok(tags) => sections_tags(self@, palette@, self@.len()) == Ok::<
                    Seq<TagValue>,
                    DecodeError,
                >(compound_items(tags@)),
                Err(e) => sections_tags(self@, palette@, self@.len()) == Err::<
                    Seq<TagValue>,
                    DecodeError,
                >(e),
            },
    {
        let mut tags = no_tags();
        let mut i: usize = 0;
        while i < self.len()
            invariant
                i <= self@.len(),
                ascending_keys(self@),
                sections_tags(self@, palette@, i as nat) == Ok::<Seq<TagValue>, DecodeError>(
                    compound_items(tags@),
                ),
            decreases self@.len() - i,
        {
            let y = self.key(i);
            let section = self.section(i);
            assert(0 <= self@[i as int].0 < 16);
            match section.palette_compound(palette) {
                Ok(entries) => {
                    let mut tag = tag_new();
                    tag_insert_i64_vec(&mut tag, "BlockStates", section.block_states_compound());
                    tag_insert_compound_vec(&mut tag, "Palette", entries);
                    tag_insert_i8_vec(&mut tag, "SkyLight", dark_sky());
                    tag_insert_i8(&mut tag, "Y", y as i8);
                    let ghost before = compound_items(tags@);
                    let ghost this = tag_entries(tag);
                    tags.push(tag);
                    assert(compound_items(tags@) =~= before.push(TagValue::Compound(this)));
                },
                Err(e) => {
                    proof {
                        assert(sections_tags(self@, palette@, (i + 1) as nat) is Err);
                        lemma_sections_tags_fail(self@, palette@, (i + 1) as nat, self@.len());
                    }
                    return Err(e);
                },
            }
            i = i + 1;
        }
        Ok(tags)
    }
}

impl PacketChunk {
    /// The chunk as the tag that a save file holds for it.
    pub fn into_tag(&self, palette: &GlobalPalette) -> (r: Result<CompoundTag, DecodeError>)
        ensures
            match r {
                Ok(tag) => assembled(
                    self.x,
                    self.z,
                    self.bitMap,
                    self.biomes@,
                    self.chunkData.data@,
                    palette@,
                ) == Ok::<Map<Seq<char>, TagValue>, DecodeError>(tag_entries(tag)),
                Err(e) => assembled(
                    self.x,
                    self.z,
                    self.bitMap,
                    self.biomes@,
                    self.chunkData.data@,
                    palette@,
                ) == Err::<Map<Seq<char>, TagValue>, DecodeError>(e),
            },
    {
        let parsed = match self.chunkData.read_data(self.bitMap, false) {
            Ok(parsed) => parsed,
            Err(e) => {
                return Err(e);
            },
        };
        let sections = match parsed.into_tags(palette) {
            Ok(sections) => sections,
            Err(e) => {
                return Err(e);
            },
        };
        let biomes = self.biomes.clone();
        assert(biomes@ =~= self.biomes@);
        let mut level = tag_new();
        tag_insert_str(&mut level, "Status", "full");
        tag_insert_i32(&mut level, "zPos", self.z);
        tag_insert_i64(&mut level, "LastUpdate", 3);
        tag_insert_i32_vec(&mut level, "Biomes", biomes);
        tag_insert_i64(&mut level, "InhabitedTime", 0);
        tag_insert_i32(&mut level, "xPos", self.x);
        tag_insert_compound(&mut level, "Heightmaps", tag_new());
        tag_insert_compound_vec(&mut level, "TileEntities", no_tags());
        tag_insert_compound_vec(&mut level, "Entities", no_tags());
        tag_insert_i8(&mut level, "isLightOn", 1);
        tag_insert_compound_vec(&mut level, "TileTicks", no_tags());
        tag_insert_compound_vec(&mut level, "Sections", sections);
        tag_insert_compound_vec(&mut level, "PostProcessing", no_tags());
        tag_insert_compound(&mut level, "Structures", tag_new());
        tag_insert_compound_vec(&mut level, "LiquidTicks", no_tags());
        let mut tag = tag_new();
        tag_insert_compound(&mut tag, "Level", level);
        tag_insert_i32(&mut tag, "DataVersion", DATA_VERSION);
        Ok(tag)
    }
}

} // verus!
