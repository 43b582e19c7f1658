//! Looking for blocks by name in the chunks of a saved world.

use nbt::CompoundTag;
use vstd::prelude::*;
use crate::names::RegionFile;
use crate::tag::{
    all_compound, compound_refs, tag_entries, tag_get_compound, tag_get_compound_vec, tag_get_str,
    TagValue,
};

verus! {

/// Blocks along one edge of a chunk column.
pub const SECTION_WIDTH: i32 = 16;

/// The views of a list of names.
pub open spec fn names_of(target: Seq<String>) -> Seq<Seq<char>> {
    target.map_values(|s: String| s@)
}

/// Whether a palette entry carries one of the first `n` names of `target`.
pub open spec fn entry_hits(entry: Map<Seq<char>, TagValue>, target: Seq<Seq<char>>, n: int) -> bool {
    entry.contains_key("Name"@) && exists|j: int|
        0 <= j < n && entry["Name"@] == TagValue::Text(#[trigger] target[j])
}

/// Whether one of the first `n` entries of a palette carries a name of
/// `target`.
pub open spec fn palette_hits(items: Seq<TagValue>, target: Seq<Seq<char>>, n: int) -> bool {
    exists|i: int|
        0 <= i < n && (#[trigger] items[i]) is Compound && entry_hits(
            items[i]->Compound_0,
            target,
            target.len() as int,
        )
}

/// Whether a section has a palette, a list of compound tags, with an entry
/// that carries a name of `target`.
pub open spec fn section_hits(section: Map<Seq<char>, TagValue>, target: Seq<Seq<char>>) -> bool {
    section.contains_key("Palette"@) && section["Palette"@] is List && all_compound(
        section["Palette"@]->List_0,
    ) && palette_hits(
        section["Palette"@]->List_0,
        target,
        section["Palette"@]->List_0.len() as int,
    )
}

/// How many of the first `n` sections hit.
pub open spec fn count_hits(sections: Seq<TagValue>, target: Seq<Seq<char>>, n: nat) -> nat
    decreases n,
{
    if n == 0 {
        0
    } else {
        count_hits(sections, target, (n - 1) as nat) + if sections[n - 1] is Compound
            && section_hits(sections[n - 1]->Compound_0, target) {
            1nat
        } else {
            0nat
        }
    }
}

/// What a search of a chunk tag gives: how many of its sections hit, or
/// nothing where the tag has no level with a list of sections in it.
pub open spec fn find_spec(chunk: Map<Seq<char>, TagValue>, target: Seq<Seq<char>>) -> Option<nat> {
    if chunk.contains_key("Level"@) && chunk["Level"@] is Compound {
        let level = chunk["Level"@]->Compound_0;
        if level.contains_key("Sections"@) && level["Sections"@] is List && all_compound(
            level["Sections"@]->List_0,
        ) {
            let sections = level["Sections"@]->List_0;
            Some(count_hits(sections, target, sections.len()))
        } else {
            None
        }
    } else {
        None
    }
}

/// A chunk with a section that hits is reported at least once.
pub proof fn lemma_hit_is_counted(
    sections: Seq<TagValue>,
    target: Seq<Seq<char>>,
    i: int,
    n: nat,
)
    requires
        0 <= i < n,
        sections[i] is Compound,
        section_hits(sections[i]->Compound_0, target),
    ensures
        count_hits(sections, target, n) >= 1,
    decreases n,
{
    if i < n - 1 {
        lemma_hit_is_counted(sections, target, i, (n - 1) as nat);
    }
}

/// Whether a palette entry carries a name of `target`.
fn find_in_entry(entry: &CompoundTag, target: &Vec<String>) -> (r: bool)
    ensures
        r == entry_hits(tag_entries(*entry), names_of(target@), target@.len() as int),
{
    let name = match tag_get_str(entry, "Name") {
        Some(name) => name.to_owned(),
        None => {
            return false;
        },
    };
    let ghost names = names_of(target@);
    let mut j: usize = 0;
    while j < target.len()
        invariant
            j <= target@.len(),
            names == names_of(target@),
            tag_entries(*entry).contains_key("Name"@),
            tag_entries(*entry)["Name"@] == TagValue::Text(name@),
            !entry_hits(tag_entries(*entry), names, j as int),
        decreases target@.len() - j,
    {
        assert(names[j as int] == target@[j as int]@);
        if name == target[j] {
            assert(entry_hits(tag_entries(*entry), names, target@.len() as int));
            return true;
        }
        j = j + 1;
    }
    false
}

/// Whether a section's palette has an entry that carries a name of
/// `target`.
fn find_in_section(section: &CompoundTag, target: &Vec<String>) -> (r: bool)
    ensures
        r == section_hits(tag_entries(*section), names_of(target@)),
{
    let palette = match tag_get_compound_vec(section, "Palette") {
        Some(palette) => palette,
        None => {
            return false;
        },
    };
    let ghost names = names_of(target@);
    let ghost items = compound_refs(palette@);
    assert(all_compound(items));
    let mut i: usize = 0;
    while i < palette.len()
        invariant
            i <= palette@.len(),
            names == names_of(target@),
            items == compound_refs(palette@),
            all_compound(items),
            tag_entries(*section).contains_key("Palette"@),
            tag_entries(*section)["Palette"@] == TagValue::List(items),
            !palette_hits(items, names, i as int),
        decreases palette@.len() - i,
    {
        assert(items[i as int] == TagValue::Compound(tag_entries(*palette@[i as int])));
        if find_in_entry(palette[i], target) {
            assert(palette_hits(items, names, palette@.len() as int));
            return true;
        }
        i = i + 1;
    }
    false
}

/// Searches the sections of a chunk for blocks named in `target`; gives the
/// number of sections whose palette names one, or nothing where the chunk
/// has no list of sections. Which sections they are is not told, so a
/// caller can report the column but not the height; whether it should be
/// told is an open question.
pub fn find(tag: &CompoundTag, target: &Vec<String>) -> (r: Option<usize>)
    ensures
        match r {
            Some(n) => find_spec(tag_entries(*tag), names_of(target@)) == Some(n as nat),
            None => find_spec(tag_entries(*tag), names_of(target@)) is None,
        },
{
    let level = match tag_get_compound(tag, "Level") {
        Some(level) => level,
        None => {
            return None;
        },
    };
    let sections = match tag_get_compound_vec(level, "Sections") {
        Some(sections) => sections,
        None => {
            return None;
        },
    };
    let ghost names = names_of(target@);
    let ghost items = compound_refs(sections@);
    assert(all_compound(items));
    let mut hits: usize = 0;
    let mut i: usize = 0;
    while i < sections.len()
        invariant
            i <= sections@.len(),
            names == names_of(target@),
            items == compound_refs(sections@),
            hits == count_hits(items, names, i as nat),
            hits <= i,
        decreases sections@.len() - i,
    {
        assert(items[i as int] == TagValue::Compound(tag_entries(*sections@[i as int])));
        if find_in_section(sections[i], target) {
            hits = hits + 1;
        }
        i = i + 1;
    }
    Some(hits)
}

/// Whether every chunk of the region, and the block column it starts at,
/// has coordinates that fit in 32 bits.
pub open spec fn in_world(region: RegionFile) -> bool {
    -0x40_0000 <= region.x < 0x40_0000 && -0x40_0000 <= region.z < 0x40_0000
}

impl RegionFile {
    /// Whether every chunk of the region, and the block column it starts
    /// at, has coordinates that fit in 32 bits.
    pub fn in_world(&self) -> (b: bool)
        ensures
            b == in_world(*self),
    {
        -0x40_0000 <= self.x && self.x < 0x40_0000 && -0x40_0000 <= self.z && self.z < 0x40_0000
    }

    /// The coordinates of the 1024 chunks of the region, row by row.
    pub fn chunks(&self) -> (r: Vec<(i32, i32)>)
        requires
            in_world(*self),
        ensures
            r@.len() == 1024,
            forall|i: int, j: int|
                0 <= i < 32 && 0 <= j < 32 ==> #[trigger] r@[i * 32 + j] == (
                    (self.x * 32 + i) as i32,
                    (self.z * 32 + j) as i32,
                ),
    {
        let mut r: Vec<(i32, i32)> = Vec::new();
        let mut i: i32 = 0;
        while i < 32
            invariant
                0 <= i <= 32,
                in_world(*self),
                r@.len() == i * 32,
                forall|a: int, b: int|
                    0 <= a < i && 0 <= b < 32 ==> #[trigger] r@[a * 32 + b] == (
                        (self.x * 32 + a) as i32,
                        (self.z * 32 + b) as i32,
                    ),
            decreases 32 - i,
        {
            let mut j: i32 = 0;
            while j < 32
                invariant
                    0 <= i < 32,
                    0 <= j <= 32,
                    in_world(*self),
                    r@.len() == i * 32 + j,
                    forall|a: int, b: int|
                        0 <= a < i && 0 <= b < 32 ==> #[trigger] r@[a * 32 + b] == (
                            (self.x * 32 + a) as i32,
                            (self.z * 32 + b) as i32,
                        ),
                    forall|b: int|
                        0 <= b < j ==> #[trigger] r@[i * 32 + b] == (
                            (self.x * 32 + i) as i32,
                            (self.z * 32 + b) as i32,
                        ),
                decreases 32 - j,
            {
                r.push((self.x * 32 + i, self.z * 32 + j));
                j = j + 1;
            }
            i = i + 1;
        }
        r
    }
}

/// The block column that a chunk starts at.
pub fn column_origin(chunk_x: i32, chunk_z: i32) -> (r: (i32, i32))
    requires
        -0x800_0000 <= chunk_x < 0x800_0000,
        -0x800_0000 <= chunk_z < 0x800_0000,
    ensures
        r.0 == chunk_x * 16,
        r.1 == chunk_z * 16,
{
    (chunk_x * SECTION_WIDTH, chunk_z * SECTION_WIDTH)
}

} // verus!
