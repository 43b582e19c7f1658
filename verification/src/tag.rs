//! Save-file tags: the tree of named values that a chunk is persisted as,
//! and the few operations on it that assembling and searching need.

use nbt::CompoundTag;
use vstd::prelude::*;

verus! {

/// What a tag holds.
pub ghost enum TagValue {
    Byte(i8),
    Short(i16),
    Int(i32),
    Long(i64),
    ByteArray(Seq<i8>),
    Text(Seq<char>),
    List(Seq<TagValue>),
    Compound(Map<Seq<char>, TagValue>),
    IntArray(Seq<i32>),
    LongArray(Seq<i64>),
    /// A tag of a kind that nothing here reads or writes.
    Other,
}

/// `nbt::CompoundTag`, held as it is; what it holds is known by
/// `tag_entries` alone.
#[verifier::external_type_specification]
#[verifier::external_body]
pub struct ExCompoundTag(nbt::CompoundTag);

/// The tags that a compound tag holds, by name.
pub uninterp spec fn tag_entries(tag: CompoundTag) -> Map<Seq<char>, TagValue>;

/// The entries of a tag that holds nothing.
pub open spec fn no_entries() -> Map<Seq<char>, TagValue> {
    Map::empty()
}

/// The compound tags of a sequence as list items.
pub open spec fn compound_items(tags: Seq<CompoundTag>) -> Seq<TagValue> {
    tags.map_values(|t: CompoundTag| TagValue::Compound(tag_entries(t)))
}

/// Calls `CompoundTag::new`, which gives a tag that holds nothing.
#[verifier::external_body]
pub(crate) fn tag_new() -> (tag: CompoundTag)
    ensures
        tag_entries(tag) == no_entries(),
{
    CompoundTag::new()
}

/// Calls `CompoundTag::insert_i8`, which sets `name` to a byte tag and
/// leaves the other names as they were.
#[verifier::external_body]
pub(crate) fn tag_insert_i8(tag: &mut CompoundTag, name: &str, value: i8)
    ensures
        tag_entries(*final(tag)) == tag_entries(*old(tag)).insert(name@, TagValue::Byte(value)),
{
    tag.insert_i8(name, value)
}

/// Calls `CompoundTag::insert_i32`, which sets `name` to an int tag and
/// leaves the other names as they were.
#[verifier::external_body]
pub(crate) fn tag_insert_i32(tag: &mut CompoundTag, name: &str, value: i32)
    ensures
        tag_entries(*final(tag)) == tag_entries(*old(tag)).insert(name@, TagValue::Int(value)),
{
    tag.insert_i32(name, value)
}

/// Calls `CompoundTag::insert_i64`, which sets `name` to a long tag and
/// leaves the other names as they were.
#[verifier::external_body]
pub(crate) fn tag_insert_i64(tag: &mut CompoundTag, name: &str, value: i64)
    ensures
        tag_entries(*final(tag)) == tag_entries(*old(tag)).insert(name@, TagValue::Long(value)),
{
    tag.insert_i64(name, value)
}

/// Calls `CompoundTag::insert_str`, which sets `name` to a string tag and
/// leaves the other names as they were.
#[verifier::external_body]
pub(crate) fn tag_insert_str(tag: &mut CompoundTag, name: &str, value: &str)
    ensures
        tag_entries(*final(tag)) == tag_entries(*old(tag)).insert(name@, TagValue::Text(value@)),
{
    tag.insert_str(name, value)
}

/// Calls `CompoundTag::insert_i8_vec`, which sets `name` to a byte-array
/// tag and leaves the other names as they were.
#[verifier::external_body]
pub(crate) fn tag_insert_i8_vec(tag: &mut CompoundTag, name: &str, value: Vec<i8>)
    ensures
        tag_entries(*final(tag)) == tag_entries(*old(tag)).insert(
            name@,
            TagValue::ByteArray(value@),
        ),
{
    tag.insert_i8_vec(name, value)
}

/// Calls `CompoundTag::insert_i32_vec`, which sets `name` to an int-array
/// tag and leaves the other names as they were.
#[verifier::external_body]
pub(crate) fn tag_insert_i32_vec(tag: &mut CompoundTag, name: &str, value: Vec<i32>)
    ensures
        tag_entries(*final(tag)) == tag_entries(*old(tag)).insert(
            name@,
            TagValue::IntArray(value@),
        ),
{
    tag.insert_i32_vec(name, value)
}

/// Calls `CompoundTag::insert_i64_vec`, which sets `name` to a long-array
/// tag and leaves the other names as they were.
#[verifier::external_body]
pub(crate) fn tag_insert_i64_vec(tag: &mut CompoundTag, name: &str, value: Vec<i64>)
    ensures
        tag_entries(*final(tag)) == tag_entries(*old(tag)).insert(
            name@,
            TagValue::LongArray(value@),
        ),
{
    tag.insert_i64_vec(name, value)
}

/// Calls `CompoundTag::insert_compound_tag`, which sets `name` to the given
/// compound tag and leaves the other names as they were.
#[verifier::external_body]
pub(crate) fn tag_insert_compound(tag: &mut CompoundTag, name: &str, value: CompoundTag)
    ensures
        tag_entries(*final(tag)) == tag_entries(*old(tag)).insert(
            name@,
            TagValue::Compound(tag_entries(value)),
        ),
{
    tag.insert_compound_tag(name, value)
}

/// Calls `CompoundTag::insert_compound_tag_vec`, which sets `name` to a
/// list tag of the given compound tags, in their order, and leaves the
/// other names as they were.
#[verifier::external_body]
pub(crate) fn tag_insert_compound_vec(tag: &mut CompoundTag, name: &str, value: Vec<CompoundTag>)
    ensures
        tag_entries(*final(tag)) == tag_entries(*old(tag)).insert(
            name@,
            TagValue::List(compound_items(value@)),
        ),
{
    tag.insert_compound_tag_vec(name, value)
}

/// Whether every item of a list is a compound tag.
pub open spec fn all_compound(items: Seq<TagValue>) -> bool {
    forall|i: int| 0 <= i < items.len() ==> (#[trigger] items[i]) is Compound
}

/// The compound tags behind a sequence of references, as list items.
pub open spec fn compound_refs(tags: Seq<&CompoundTag>) -> Seq<TagValue> {
    tags.map_values(|t: &CompoundTag| TagValue::Compound(tag_entries(*t)))
}

/// Calls `CompoundTag::get_compound_tag`, which finds the tag at `name`
/// where there is one and it is a compound tag, and fails otherwise.
#[verifier::external_body]
pub(crate) fn tag_get_compound<'a>(tag: &'a CompoundTag, name: &'a str) -> (r: Option<
    &'a CompoundTag,
>)
    ensures
        match r {
            Some(t) => tag_entries(*tag).contains_key(name@) && tag_entries(*tag)[name@]
                == TagValue::Compound(tag_entries(*t)),
            None => !(tag_entries(*tag).contains_key(name@) && tag_entries(
                *tag,
            )[name@] is Compound),
        },
{
    tag.get_compound_tag(name).ok()
}

/// Calls `CompoundTag::get_compound_tag_vec`, which finds the items of the
/// list tag at `name` where there is one and all its items are compound
/// tags, and fails otherwise.
#[verifier::external_body]
pub(crate) fn tag_get_compound_vec<'a>(tag: &'a CompoundTag, name: &'a str) -> (r: Option<
    Vec<&'a CompoundTag>,
>)
    ensures
        match r {
            Some(v) => tag_entries(*tag).contains_key(name@) && tag_entries(*tag)[name@]
                == TagValue::List(compound_refs(v@)),
            None => !(tag_entries(*tag).contains_key(name@) && tag_entries(*tag)[name@] is List
                && all_compound(tag_entries(*tag)[name@]->List_0)),
        },
{
    tag.get_compound_tag_vec(name).ok()
}

/// Calls `CompoundTag::get_str`, which finds the text at `name` where there
/// is a tag and it is a string tag, and fails otherwise.
#[verifier::external_body]
pub(crate) fn tag_get_str<'a>(tag: &'a CompoundTag, name: &'a str) -> (r: Option<&'a str>)
    ensures
        match r {
            Some(s) => tag_entries(*tag).contains_key(name@) && tag_entries(*tag)[name@]
                == TagValue::Text(s@),
            None => !(tag_entries(*tag).contains_key(name@) && tag_entries(*tag)[name@] is Text),
        },
{
    tag.get_str(name).ok()
}

} // verus!
