use dump_to_map::adapter::PacketChunk;
use dump_to_map::chunk::{Chunk, ChunkData};
use dump_to_map::error::{ConfigError, DecodeError};
use dump_to_map::names::fname_xz;
use dump_to_map::palette::{BlockStates, GlobalPalette};
use dump_to_map::resource::{parse_resource, read_block_ids, read_resource};
use dump_to_map::search::{column_origin, find};
use nbt::CompoundTag;

fn entry(name: &str, states: &[i64]) -> BlockStates {
    BlockStates { name: name.to_string(), states: states.to_vec() }
}

fn small_palette() -> GlobalPalette {
    GlobalPalette::parse(&vec![
        entry("minecraft:air", &[0]),
        entry("minecraft:stone", &[1]),
        entry("minecraft:grass_block", &[8, 9]),
        entry("minecraft:diamond_block", &[7]),
    ])
}

fn section_bytes(bits: u8, palette: &[u8], words: &[i64]) -> Vec<u8> {
    let mut out = vec![0x00, 0x01, bits];
    if bits <= 8 {
        out.push(palette.len() as u8);
        out.extend_from_slice(palette);
    }
    out.push(words.len() as u8);
    for w in words {
        out.extend_from_slice(&w.to_be_bytes());
    }
    out
}

fn packet(x: i32, z: i32, mask: i32, data: Vec<u8>) -> PacketChunk {
    PacketChunk {
        x,
        z,
        groundUp: true,
        bitMap: mask,
        biomes: vec![1, 2, 3],
        chunkData: ChunkData { _type: String::from("Buffer"), data },
    }
}

#[test]
fn palette_from_resource_text() {
    let text = "{\"minecraft:stone\": {\"states\":[{\"id\":1}]}}";
    let palette = GlobalPalette::from_json(text).unwrap();
    assert_eq!(palette.resolve(1).unwrap(), "minecraft:stone");
    assert_eq!(palette.resolve(2), Err(DecodeError::UnknownBlockState(2)));
}

#[test]
fn resource_entries_in_document_order() {
    let text = "{\"b\": {\"states\": [{\"id\": 2, \"default\": true}, {\"id\": -3}]},
                 \"a\": {\"states\": [{\"id\": 2}], \"properties\": {}},
                 \"c\": {\"states\": []}}";
    let entries = parse_resource(text).unwrap();
    let document: serde_json::Value = serde_json::from_str(text).unwrap();
    let names: Vec<&String> = document.as_object().unwrap().keys().collect();
    assert_eq!(entries.len(), 3);
    for i in 0..3 {
        assert_eq!(&entries[i].name, names[i]);
    }
    let b = entries.iter().find(|e| e.name == "b").unwrap();
    assert_eq!(b.states, vec![2, -3]);
    let c = entries.iter().find(|e| e.name == "c").unwrap();
    assert_eq!(c.states, Vec::<i64>::new());
    let again = read_resource(&document).unwrap();
    assert_eq!(again.len(), 3);
    assert_eq!(again[0].name, entries[0].name);
    assert_eq!(read_block_ids(document.get("b").unwrap()), Ok(vec![2, -3]));
    let palette = GlobalPalette::from_json(text).unwrap();
    assert_eq!(palette.resolve(2).unwrap(), &entries.iter().rev().find(|e| e.states.contains(&2)).unwrap().name);
    assert_eq!(palette.resolve(-3).unwrap(), "b");
}

#[test]
fn empty_resource() {
    assert_eq!(parse_resource("{}").unwrap().len(), 0);
    assert!(!GlobalPalette::from_json("{}").unwrap().contains(0));
}

#[test]
fn resource_that_is_no_document() {
    assert_eq!(parse_resource("").unwrap_err(), ConfigError::NotJson);
    assert_eq!(parse_resource("{\"a\": {\"states\": [").unwrap_err(), ConfigError::NotJson);
    assert_eq!(parse_resource("{} {}").unwrap_err(), ConfigError::NotJson);
    assert!(matches!(GlobalPalette::from_json("{"), Err(ConfigError::NotJson)));
}

#[test]
fn resource_of_another_shape() {
    for text in [
        "[]",
        "1",
        "null",
        "{\"a\": 1}",
        "{\"a\": {}}",
        "{\"a\": {\"states\": {}}}",
        "{\"a\": {\"states\": [1]}}",
        "{\"a\": {\"states\": [{}]}}",
        "{\"a\": {\"states\": [{\"id\": \"1\"}]}}",
        "{\"a\": {\"states\": [{\"id\": 1.5}]}}",
        "{\"a\": {\"states\": [{\"id\": 18446744073709551615}]}}",
        "{\"a\": {\"states\": [{\"id\": 1}]}, \"b\": {\"states\": [{\"id\": 2}, {\"idx\": 3}]}}",
    ] {
        assert_eq!(parse_resource(text).unwrap_err(), ConfigError::WrongShape);
        assert!(matches!(GlobalPalette::from_json(text), Err(ConfigError::WrongShape)));
    }
    let big = "{\"a\": {\"states\": [{\"id\": 9223372036854775807}, {\"id\": -9223372036854775808}]}}";
    assert_eq!(parse_resource(big).unwrap()[0].states, vec![i64::MAX, i64::MIN]);
}

#[test]
fn palette_maps_every_state_to_its_block() {
    let palette = small_palette();
    assert_eq!(palette.resolve(8).unwrap(), "minecraft:grass_block");
    assert_eq!(palette.resolve(9).unwrap(), "minecraft:grass_block");
    assert_eq!(palette.resolve(0).unwrap(), "minecraft:air");
    assert!(palette.contains(7));
    assert!(!palette.contains(10));
    assert_eq!(palette.resolve(-1), Err(DecodeError::UnknownBlockState(-1)));
}

#[test]
fn palette_lookup_repeats() {
    let palette = small_palette();
    let first = palette.resolve(7).unwrap().clone();
    let second = palette.resolve(7).unwrap().clone();
    assert_eq!(first, second);
    assert_eq!(palette.resolve(99), palette.resolve(99));
}

#[test]
fn palette_later_entry_overrides() {
    let palette = GlobalPalette::parse(&vec![entry("a", &[1, 2]), entry("b", &[2])]);
    assert_eq!(palette.resolve(1).unwrap(), "a");
    assert_eq!(palette.resolve(2).unwrap(), "b");
}

#[test]
fn empty_palette_resolves_nothing() {
    let palette = GlobalPalette::parse(&vec![]);
    assert_eq!(palette.resolve(0), Err(DecodeError::UnknownBlockState(0)));
}

#[test]
fn section_palette_as_tags() {
    let palette = small_palette();
    let section = Chunk { palette: vec![7, 1], data: vec![5] };
    let tags = section.palette_compound(&palette).unwrap();
    assert_eq!(tags.len(), 2);
    assert_eq!(tags[0].get_str("Name").unwrap(), "minecraft:diamond_block");
    assert_eq!(tags[1].get_str("Name").unwrap(), "minecraft:stone");
    assert_eq!(section.block_states_compound(), vec![5]);
}

#[test]
fn section_palette_with_unknown_id() {
    let palette = small_palette();
    let section = Chunk { palette: vec![7, 42, 43], data: vec![] };
    assert_eq!(
        section.palette_compound(&palette).unwrap_err(),
        DecodeError::UnknownBlockState(42)
    );
}

#[test]
fn patch_file_yields_chunk_tag() {
    assert_eq!(fname_xz("5_70"), Some((5, 70)));
    let palette = small_palette();
    let chunk = packet(5, 70, 1, section_bytes(4, &[7], &[0, 0, 0, 0]));
    let tag = chunk.into_tag(&palette).unwrap();
    assert_eq!(tag.get_i32("DataVersion").unwrap(), 2230);
    let level = tag.get_compound_tag("Level").unwrap();
    assert_eq!(level.get_i32("xPos").unwrap(), 5);
    assert_eq!(level.get_i32("zPos").unwrap(), 70);
    assert_eq!(level.get_str("Status").unwrap(), "full");
    assert_eq!(level.get_i64("LastUpdate").unwrap(), 3);
    assert_eq!(level.get_i64("InhabitedTime").unwrap(), 0);
    assert_eq!(level.get_i8("isLightOn").unwrap(), 1);
    assert_eq!(level.get_i32_vec("Biomes").unwrap(), &vec![1, 2, 3]);
    assert!(level.get_compound_tag("Heightmaps").unwrap().is_empty());
    assert!(level.get_compound_tag("Structures").unwrap().is_empty());
    for name in ["TileEntities", "Entities", "TileTicks", "PostProcessing", "LiquidTicks"] {
        assert_eq!(level.get_compound_tag_vec(name).unwrap().len(), 0);
    }
    let sections = level.get_compound_tag_vec("Sections").unwrap();
    assert_eq!(sections.len(), 1);
    assert_eq!(sections[0].get_i8("Y").unwrap(), 0);
    assert_eq!(sections[0].get_i64_vec("BlockStates").unwrap(), &vec![0, 0, 0, 0]);
    assert_eq!(sections[0].get_i8_vec("SkyLight").unwrap(), &vec![0i8; 2048]);
    let entries = sections[0].get_compound_tag_vec("Palette").unwrap();
    assert_eq!(entries.len(), 1);
    assert_eq!(entries[0].get_str("Name").unwrap(), palette.resolve(7).unwrap());
}

#[test]
fn packed_words_pass_through_unchanged() {
    let palette = small_palette();
    let words = [0x0123_4567_89ab_cdefi64, -1, i64::MIN];
    let chunk = packet(0, 0, 1 << 3, section_bytes(14, &[], &words));
    let tag = chunk.into_tag(&palette).unwrap();
    let level = tag.get_compound_tag("Level").unwrap();
    let sections = level.get_compound_tag_vec("Sections").unwrap();
    assert_eq!(sections[0].get_i8("Y").unwrap(), 3);
    assert_eq!(sections[0].get_i64_vec("BlockStates").unwrap(), &words.to_vec());
    assert_eq!(sections[0].get_compound_tag_vec("Palette").unwrap().len(), 0);
}

#[test]
fn sections_come_out_lowest_first() {
    let palette = small_palette();
    let mut data = section_bytes(4, &[1], &[1]);
    data.extend(section_bytes(4, &[8, 9], &[2]));
    let tags = ChunkData { _type: String::new(), data }
        .read_data(0b1010, false)
        .unwrap()
        .into_tags(&palette)
        .unwrap();
    assert_eq!(tags.len(), 2);
    assert_eq!(tags[0].get_i8("Y").unwrap(), 1);
    assert_eq!(tags[1].get_i8("Y").unwrap(), 3);
    assert_eq!(tags[1].get_compound_tag_vec("Palette").unwrap().len(), 2);
}

#[test]
fn unresolved_id_fails_the_chunk() {
    let palette = small_palette();
    let chunk = packet(1, 2, 1, section_bytes(4, &[7, 100], &[]));
    assert_eq!(chunk.into_tag(&palette).unwrap_err(), DecodeError::UnknownBlockState(100));
}

#[test]
fn short_payload_fails_the_chunk() {
    let palette = small_palette();
    let chunk = packet(1, 2, 1, vec![0, 1]);
    assert_eq!(chunk.into_tag(&palette).unwrap_err(), DecodeError::ShortRead);
}

#[test]
fn search_reports_a_chunk_with_the_block() {
    let palette = small_palette();
    let mut data = section_bytes(4, &[1], &[]);
    data.extend(section_bytes(4, &[0, 7], &[]));
    data.extend(section_bytes(4, &[7], &[]));
    let tag = packet(3, -2, 0b111, data).into_tag(&palette).unwrap();
    let target = vec![String::from("minecraft:diamond_block")];
    assert_eq!(find(&tag, &target), Some(2));
    assert_eq!(column_origin(3, -2), (48, -32));
    let target = vec![String::from("minecraft:dirt"), String::from("minecraft:stone")];
    assert_eq!(find(&tag, &target), Some(1));
    assert_eq!(find(&tag, &vec![String::from("minecraft:dirt")]), Some(0));
    assert_eq!(find(&tag, &vec![]), Some(0));
}

#[test]
fn search_of_a_tag_without_sections() {
    let target = vec![String::from("minecraft:stone")];
    assert_eq!(find(&CompoundTag::new(), &target), None);
    let mut tag = CompoundTag::new();
    tag.insert_i32("Level", 1);
    assert_eq!(find(&tag, &target), None);
    let mut tag = CompoundTag::new();
    tag.insert_compound_tag("Level", CompoundTag::new());
    assert_eq!(find(&tag, &target), None);
    let mut level = CompoundTag::new();
    level.insert_i32_vec("Sections", vec![1]);
    let mut tag = CompoundTag::new();
    tag.insert_compound_tag("Level", level);
    assert_eq!(find(&tag, &target), None);
}

#[test]
fn search_passes_over_odd_sections() {
    let target = vec![String::from("minecraft:stone")];
    let mut named = CompoundTag::new();
    named.insert_str("Name", "minecraft:stone");
    let mut other = CompoundTag::new();
    other.insert_i32("Name", 1);
    let mut hit = CompoundTag::new();
    hit.insert_compound_tag_vec("Palette", vec![other.clone(), named]);
    let mut miss = CompoundTag::new();
    miss.insert_compound_tag_vec("Palette", vec![other, CompoundTag::new()]);
    let mut bare = CompoundTag::new();
    bare.insert_str_vec("Palette", vec!["minecraft:stone"]);
    let mut level = CompoundTag::new();
    level.insert_compound_tag_vec("Sections", vec![miss, hit, bare, CompoundTag::new()]);
    let mut tag = CompoundTag::new();
    tag.insert_compound_tag("Level", level);
    assert_eq!(find(&tag, &target), Some(1));
}
