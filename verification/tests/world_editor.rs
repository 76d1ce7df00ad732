use arnis::blocks::Block;
use arnis::nbt::{Compound, Tag};
use arnis::world_editor::common::{Blockstates, Chunk, ChunkToModify, PaletteItem, Section};
use arnis::world_editor::java::{
    create_chunk_nbt, create_section_nbt, get_entity_coords, merge_compound_list, value_to_i32,
};
use arnis::world_editor::region::{
    absolute_chunk, base_chunk_blocks, create_base_chunk, create_region_chunk, plan_region,
    region_file_name, ChunkSource, ChunkWrite, RegionChunk, SaveProgress,
};

const JAVA_DATA_VERSION: i32 = 3700;

fn compound(entries: Vec<(&str, Tag)>) -> Compound {
    let mut compound = Compound::new();
    for (name, tag) in entries {
        compound.insert(name.to_string(), tag);
    }
    compound
}

fn text(value: &str) -> Tag {
    Tag::String(value.to_string())
}

fn section(y: i8, name: &str) -> Section {
    Section {
        block_states: Blockstates {
            palette: vec![PaletteItem { name: name.to_string(), properties: None }],
            data: None,
            other: Compound::new(),
        },
        y,
        other: Compound::new(),
    }
}

fn chunk(sections: Vec<Section>, other: Compound) -> Chunk {
    Chunk { sections, x_pos: 12, z_pos: 34, is_light_on: 0, other }
}

/// A value as text, with the names of compounds in order.
fn shown(tag: &Tag) -> String {
    match tag {
        Tag::Compound(compound) => shown_compound(compound),
        Tag::List(list) => {
            let parts: Vec<String> = list.iter().map(shown).collect();
            format!("[{}]", parts.join(","))
        }
        other => format!("{:?}", other),
    }
}

fn shown_compound(compound: &Compound) -> String {
    let mut parts: Vec<String> = compound
        .clone()
        .into_entries()
        .iter()
        .map(|(name, tag)| format!("{}={}", name, shown(tag)))
        .collect();
    parts.sort();
    format!("{{{}}}", parts.join(","))
}

#[test]
fn create_chunk_nbt_uses_modern_root_fields() {
    let chunk = Chunk {
        sections: vec![Section {
            block_states: Blockstates {
                palette: vec![PaletteItem {
                    name: "minecraft:stone".to_string(),
                    properties: None,
                }],
                data: None,
                other: Compound::new(),
            },
            y: 0,
            other: Compound::new(),
        }],
        x_pos: 12,
        z_pos: 34,
        is_light_on: 0,
        other: Compound::new(),
    };

    let nbt = create_chunk_nbt(&chunk, JAVA_DATA_VERSION);

    assert!(matches!(nbt.get("DataVersion"), Some(Tag::Int(version)) if *version == JAVA_DATA_VERSION));
    assert!(matches!(nbt.get("Status"), Some(Tag::String(status)) if status == "minecraft:full"));
    assert!(!nbt.contains_key("Level"));

    let sections = match nbt.get("sections") {
        Some(Tag::List(sections)) => sections,
        other => panic!("expected sections list, got {other:?}"),
    };

    let section = match &sections[0] {
        Tag::Compound(section) => section,
        other => panic!("expected section compound, got {other:?}"),
    };

    assert!(section.contains_key("biomes"));
}

#[test]
fn chunk_has_all_its_fields() {
    let nbt = create_chunk_nbt(&chunk(vec![section(3, "a"), section(-2, "b")], Compound::new()), 7);
    let mut names: Vec<String> = nbt.clone().into_entries().into_iter().map(|e| e.0).collect();
    names.sort();
    assert_eq!(
        names,
        vec![
            "DataVersion",
            "Heightmaps",
            "InhabitedTime",
            "LastUpdate",
            "Status",
            "block_entities",
            "sections",
            "structures",
            "xPos",
            "yPos",
            "zPos",
        ]
    );
    assert!(matches!(nbt.get("xPos"), Some(Tag::Int(12))));
    assert!(matches!(nbt.get("zPos"), Some(Tag::Int(34))));
    assert!(matches!(nbt.get("yPos"), Some(Tag::Int(-2))));
    assert!(matches!(nbt.get("LastUpdate"), Some(Tag::Long(0))));
    assert!(matches!(nbt.get("InhabitedTime"), Some(Tag::Long(0))));
    assert_eq!(shown(nbt.get("Heightmaps").unwrap()), "{}");
    assert_eq!(shown(nbt.get("block_entities").unwrap()), "[]");
    assert_eq!(shown(nbt.get("structures").unwrap()), "{References={},starts={}}");
}

#[test]
fn chunk_without_sections_has_the_default_height() {
    let nbt = create_chunk_nbt(&chunk(Vec::new(), Compound::new()), 7);
    assert!(matches!(nbt.get("yPos"), Some(Tag::Int(-4))));
}

#[test]
fn other_values_of_a_chunk_replace_its_own() {
    let other = compound(vec![
        ("Status", text("empty")),
        ("Level", Tag::Int(1)),
        ("block_entities", Tag::List(vec![Tag::Int(5)])),
    ]);
    let nbt = create_chunk_nbt(&chunk(Vec::new(), other), 7);
    assert!(matches!(nbt.get("Status"), Some(Tag::String(status)) if status == "empty"));
    assert!(nbt.contains_key("Level"));
    assert_eq!(shown(nbt.get("block_entities").unwrap()), "[Int(5)]");
}

#[test]
fn section_has_its_blocks_and_biome() {
    let mut given = section(5, "minecraft:stone");
    given.block_states.palette.push(PaletteItem {
        name: "minecraft:log".to_string(),
        properties: Some(Tag::Compound(compound(vec![("axis", text("y"))]))),
    });
    given.block_states.data = Some(vec![1, -2]);
    given.other = compound(vec![("Y", Tag::Byte(9)), ("SkyLight", Tag::Byte(1))]);
    assert_eq!(
        shown(&create_section_nbt(&given)),
        "{SkyLight=Byte(1),Y=Byte(5),biomes={palette=[String(\"minecraft:plains\")]},\
         block_states={data=LongArray([1, -2]),palette=[{Name=String(\"minecraft:stone\")},\
         {Name=String(\"minecraft:log\"),Properties={axis=String(\"y\")}}]}}"
    );
}

#[test]
fn section_without_packed_numbers_saves_none() {
    let mut given = section(0, "minecraft:stone");
    given.block_states.data = Some(Vec::new());
    assert!(!shown(&create_section_nbt(&given)).contains("data"));
}

#[test]
fn numbers_become_integers() {
    assert_eq!(value_to_i32(&Tag::Byte(-3)), Some(-3));
    assert_eq!(value_to_i32(&Tag::Short(-300)), Some(-300));
    assert_eq!(value_to_i32(&Tag::Int(i32::MIN)), Some(i32::MIN));
    assert_eq!(value_to_i32(&Tag::Long(2147483647)), Some(i32::MAX));
    assert_eq!(value_to_i32(&Tag::Long(2147483648)), None);
    assert_eq!(value_to_i32(&Tag::Float((-2.9f32).to_bits())), Some(-2));
    assert_eq!(value_to_i32(&Tag::Double(1e20f64.to_bits())), Some(i32::MAX));
    assert_eq!(value_to_i32(&text("3")), None);
}

#[test]
fn entities_have_a_place() {
    let listed = |items: Vec<Tag>| compound(vec![("Pos", Tag::List(items)), ("x", Tag::Int(9))]);
    let three = || vec![Tag::Double(1.5f64.to_bits()), Tag::Int(2), Tag::Byte(3)];
    assert_eq!(get_entity_coords(&listed(three())), Some((1, 2, 3)));
    assert_eq!(get_entity_coords(&listed(vec![Tag::Int(1)])), None);
    let mut both = listed(vec![text("a"), Tag::Int(2), Tag::Int(3)]);
    both.insert("y".to_string(), Tag::Int(8));
    assert_eq!(get_entity_coords(&both), None);
    both.insert("z".to_string(), Tag::Int(7));
    assert_eq!(get_entity_coords(&both), Some((9, 8, 7)));
}

fn entity(id: &str, x: i32) -> Tag {
    Tag::Compound(compound(vec![
        ("id", text(id)),
        ("x", Tag::Int(x)),
        ("y", Tag::Int(0)),
        ("z", Tag::Int(0)),
    ]))
}

fn merged(existing: Option<Tag>, new: Option<Tag>) -> String {
    let with = |tag: Option<Tag>| match tag {
        Some(tag) => compound(vec![("entities", tag), ("kept", Tag::Int(1))]),
        None => compound(vec![("kept", Tag::Int(1))]),
    };
    let mut target = chunk(Vec::new(), with(existing));
    let source = ChunkToModify { sections: Vec::new(), other: with(new) };
    merge_compound_list(&mut target, &source, "entities");
    assert_eq!((target.x_pos, target.z_pos), (12, 34));
    assert!(matches!(target.other.get("kept"), Some(Tag::Int(1))));
    match target.other.get("entities") {
        Some(tag) => shown(tag),
        None => String::new(),
    }
}

#[test]
fn new_entities_replace_those_at_their_place() {
    let list = |items: Vec<Tag>| Some(Tag::List(items));
    let plain = || Tag::Int(4);
    assert_eq!(
        merged(
            list(vec![entity("a", 1), plain(), entity("b", 2)]),
            list(vec![entity("c", 1), plain()])
        ),
        format!(
            "[{},{},{},{}]",
            shown(&plain()),
            shown(&entity("b", 2)),
            shown(&entity("c", 1)),
            shown(&plain())
        )
    );
}

#[test]
fn lists_that_only_one_chunk_has_are_taken() {
    let list = || Some(Tag::List(vec![entity("a", 1)]));
    let whole = format!("[{}]", shown(&entity("a", 1)));
    assert_eq!(merged(list(), None), whole);
    assert_eq!(merged(None, list()), whole);
    assert_eq!(merged(None, None), "");
    assert_eq!(merged(Some(Tag::Int(1)), list()), "Int(1)");
    assert_eq!(merged(list(), Some(Tag::Int(1))), whole);
}

#[test]
fn compound_keeps_each_name_once() {
    let mut c = compound(vec![("a", Tag::Int(1)), ("b", Tag::Int(2)), ("a", Tag::Int(3))]);
    assert_eq!(shown_compound(&c), "{a=Int(3),b=Int(2)}");
    c.insert_if_absent("a".to_string(), Tag::Int(4));
    c.insert_if_absent("c".to_string(), Tag::Int(5));
    assert_eq!(shown_compound(&c), "{a=Int(3),b=Int(2),c=Int(5)}");
    assert!(matches!(c.remove("a"), Some(Tag::Int(3))));
    assert!(c.remove("a").is_none());
    assert!(!c.is_empty());
    assert!(Compound::new().is_empty());
}

#[test]
fn regions_have_file_names() {
    assert_eq!(region_file_name(0, 0), "r.0.0.mca");
    assert_eq!(region_file_name(-1, 27), "r.-1.27.mca");
    assert_eq!(region_file_name(i32::MIN, i32::MAX), "r.-2147483648.2147483647.mca");
}

#[test]
fn base_layer_is_grass() {
    let blocks = base_chunk_blocks();
    assert_eq!(blocks.len(), 256);
    let mut i = 0;
    for x in 0..16 {
        for z in 0..16 {
            assert_eq!((blocks[i].x, blocks[i].y, blocks[i].z), (x, -62, z));
            assert_eq!(blocks[i].block, Block::GrassBlock);
            i += 1;
        }
    }
}

fn region_chunk(chunk_x: i32, chunk_z: i32, sections: Vec<Section>, other: Compound) -> RegionChunk {
    RegionChunk { chunk_x, chunk_z, content: ChunkToModify { sections, other } }
}

#[test]
fn regions_are_written_chunk_by_chunk() {
    let chunks = vec![
        region_chunk(3, 4, vec![section(0, "a")], Compound::new()),
        region_chunk(0, 1, Vec::new(), Compound::new()),
        region_chunk(31, 31, Vec::new(), compound(vec![("k", Tag::Int(1))])),
    ];
    let writes = plan_region(&chunks);
    assert_eq!(writes.len(), 1024);
    let placed = |chunk_x, chunk_z, i| ChunkWrite {
        chunk_x,
        chunk_z,
        source: ChunkSource::Placed(i),
    };
    assert_eq!(writes[0], placed(3, 4, 0));
    assert_eq!(writes[1], placed(31, 31, 2));
    let base = |chunk_x, chunk_z| ChunkWrite { chunk_x, chunk_z, source: ChunkSource::Base };
    assert_eq!(writes[2], base(0, 0));
    assert_eq!(writes[3], base(0, 1));
    assert_eq!(writes[1023], base(31, 30));
    let places: std::collections::HashSet<(i32, i32)> =
        writes.iter().map(|w| (w.chunk_x, w.chunk_z)).collect();
    assert_eq!(places.len(), 1024);
}

#[test]
fn region_chunks_have_absolute_places() {
    assert_eq!(absolute_chunk(-2, 5), -59);
    let chunks = vec![region_chunk(3, 4, vec![section(1, "a")], Compound::new())];
    let base = vec![section(-4, "minecraft:grass_block")];
    let writes = plan_region(&chunks);
    let first = create_region_chunk(-1, 2, &chunks, writes[0], &base, 9);
    assert!(matches!(first.get("xPos"), Some(Tag::Int(-29))));
    assert!(matches!(first.get("zPos"), Some(Tag::Int(68))));
    assert!(matches!(first.get("yPos"), Some(Tag::Int(1))));
    let second = create_region_chunk(-1, 2, &chunks, writes[1], &base, 9);
    assert_eq!(shown_compound(&second), shown_compound(&create_base_chunk(-32, 64, &base, 9)));
    assert!(matches!(second.get("yPos"), Some(Tag::Int(-4))));
}

#[test]
fn base_chunks_differ_only_in_their_place() {
    let base = vec![section(-4, "minecraft:grass_block")];
    let mut one = create_base_chunk(1, 2, &base, 9);
    let mut other = create_base_chunk(-3, 4, &base, 9);
    assert!(matches!(one.remove("xPos"), Some(Tag::Int(1))));
    assert!(matches!(one.remove("zPos"), Some(Tag::Int(2))));
    assert!(matches!(other.remove("xPos"), Some(Tag::Int(-3))));
    assert!(matches!(other.remove("zPos"), Some(Tag::Int(4))));
    assert!(matches!(one.get("yPos"), Some(Tag::Int(-4))));
    assert_eq!(shown_compound(&one), shown_compound(&other));
}

#[test]
fn places_without_content_get_the_base_layer() {
    let chunks = vec![region_chunk(0, 0, Vec::new(), Compound::new())];
    let writes = plan_region(&chunks);
    assert_eq!(writes.len(), 1024);
    assert!(writes.iter().all(|write| write.source == ChunkSource::Base));
    assert_eq!((writes[0].chunk_x, writes[0].chunk_z), (0, 0));
}

#[test]
fn saving_reports_about_every_tenth() {
    let mut progress = SaveProgress::new(25);
    let mut shown = Vec::new();
    for done in 1..=25 {
        assert!(!progress.should_stop());
        if let Some(bits) = progress.note_saved() {
            assert_eq!(f64::from_bits(bits), 90.0 + (done as f64 / 25.0) * 9.0);
            shown.push(done);
        }
    }
    assert_eq!(shown, vec![2, 4, 6, 8, 10, 12, 14, 16, 18, 20, 22, 24, 25]);
    assert_eq!(progress.into_result(), Ok(()));
}

#[test]
fn first_failure_of_saving_is_kept() {
    let mut progress = SaveProgress::new(3);
    assert_eq!(progress.note_saved().map(f64::from_bits), Some(93.0));
    progress.note_failure("disk full".to_string());
    assert!(progress.should_stop());
    progress.note_failure("later".to_string());
    assert_eq!(progress.into_result(), Err("disk full".to_string()));
}
