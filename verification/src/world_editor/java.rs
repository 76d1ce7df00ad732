//! Worlds of the Java Edition in the Anvil format.

use crate::ieee754::{double_as_i32, double_to_i32, single_as_i32, single_to_i32};
use crate::nbt::{lemma_list_model, models, Compound, Nbt, Tag};
use crate::world_editor::common::{Blockstates, Chunk, ChunkToModify, PaletteItem, Section};
use vstd::prelude::*;

verus! {

/// The biome of every section.
pub const DEFAULT_BIOME: &'static str = "minecraft:plains";

/// The lowest section of a chunk without sections.
pub const DEFAULT_SECTION_Y: i8 = -4;

/// What is saved of a kind of block.
pub open spec fn palette_item_nbt(item: PaletteItem) -> Nbt {
    let named = map!["Name"@ => Nbt::Text(item.name@)];
    Nbt::Compound(
        match item.properties {
            Some(properties) => named.insert("Properties"@, properties@),
            None => named,
        },
    )
}

/// What is saved of the blocks of a section. Packed numbers are saved if there are any.
pub open spec fn block_states_nbt(block_states: Blockstates) -> Nbt {
    let palette =
        map!["palette"@ => Nbt::List(
        block_states.palette@.map_values(|item: PaletteItem| palette_item_nbt(item)),
    )];
    Nbt::Compound(
        match block_states.data {
            Some(data) => if data@.len() > 0 {
                palette.insert("data"@, Nbt::LongArray(data@))
            } else {
                palette
            },
            None => palette,
        },
    )
}

/// What is saved of a section. What else belongs to it does not replace its own values.
pub open spec fn section_nbt(section: Section) -> Nbt {
    Nbt::Compound(
        section.other@.union_prefer_right(
            map![
                "Y"@ => Nbt::Byte(section.y),
                "block_states"@ => block_states_nbt(section.block_states),
                "biomes"@ => Nbt::Compound(
                    map!["palette"@ => Nbt::List(seq![Nbt::Text(DEFAULT_BIOME@)])],
                ),
            ],
        ),
    )
}

/// What is saved of a kind of block.
fn create_palette_item_nbt(item: &PaletteItem) -> (tag: Tag)
    ensures
        tag@ == palette_item_nbt(*item),
{
    let mut entry = Compound::new();
    entry.insert("Name".to_string(), Tag::String(item.name.clone()));
    if let Some(properties) = &item.properties {
        entry.insert("Properties".to_string(), properties.clone());
    }
    Tag::Compound(entry)
}

/// What is saved of the blocks of a section.
fn create_block_states_nbt(block_states: &Blockstates) -> (tag: Tag)
    ensures
        tag@ == block_states_nbt(*block_states),
{
    let ghost wanted = block_states.palette@.map_values(|item: PaletteItem| palette_item_nbt(item));
    let mut palette: Vec<Tag> = Vec::new();
    let mut i: usize = 0;
    while i < block_states.palette.len()
        invariant
            i <= block_states.palette@.len(),
            wanted == block_states.palette@.map_values(
                |item: PaletteItem| palette_item_nbt(item),
            ),
            models(palette@) == wanted.take(i as int),
        decreases block_states.palette@.len() - i,
    {
        let ghost before = palette@;
        palette.push(create_palette_item_nbt(&block_states.palette[i]));
        proof {
            assert(models(palette@) == models(before).push(wanted[i as int]));
            assert(wanted.take(i + 1) == wanted.take(i as int).push(wanted[i as int]));
        }
        i = i + 1;
    }
    proof {
        assert(wanted.take(i as int) == wanted);
        lemma_list_model(palette@);
    }
    let mut tags = Compound::new();
    tags.insert("palette".to_string(), Tag::List(palette));
    if let Some(data) = &block_states.data {
        if data.len() > 0 {
            let copy = data.clone();
            assert(copy@ == data@);
            tags.insert("data".to_string(), Tag::LongArray(copy));
        }
    }
    Tag::Compound(tags)
}

/// What is saved of a section.
pub fn create_section_nbt(section: &Section) -> (tag: Tag)
    ensures
        tag@ == section_nbt(*section),
        tag@ matches Nbt::Compound(tags) && tags.contains_key("Y"@) && tags["Y"@] == Nbt::Byte(
            section.y,
        ),
{
    let names = vec![Tag::String(DEFAULT_BIOME.to_string())];
    proof {
        law_section_saved(*section);
        lemma_list_model(names@);
        assert(models(names@) == seq![Nbt::Text(DEFAULT_BIOME@)]);
    }
    let mut biomes = Compound::new();
    biomes.insert("palette".to_string(), Tag::List(names));
    let mut tags = Compound::new();
    tags.insert("Y".to_string(), Tag::Byte(section.y));
    tags.insert("block_states".to_string(), create_block_states_nbt(&section.block_states));
    tags.insert("biomes".to_string(), Tag::Compound(biomes));
    tags.add_missing(&section.other);
    Tag::Compound(tags)
}

/// Some section is at the height and none is below it. Without sections it is the height
/// that a chunk without sections has.
pub open spec fn is_lowest(sections: Seq<Section>, y: i8) -> bool {
    if sections.len() == 0 {
        y == DEFAULT_SECTION_Y
    } else {
        &&& exists|i: int| 0 <= i < sections.len() && (#[trigger] sections[i]).y == y
        &&& forall|i: int| 0 <= i < sections.len() ==> y <= (#[trigger] sections[i]).y
    }
}

/// The height of the lowest of some sections.
pub open spec fn lowest_section(sections: Seq<Section>) -> i8 {
    choose|y: i8| is_lowest(sections, y)
}

/// There is exactly one height that is the lowest.
pub proof fn law_lowest_section(sections: Seq<Section>, y: i8)
    ensures
        is_lowest(sections, y) <==> y == lowest_section(sections),
{
    lemma_some_lowest(sections);
    let low = lowest_section(sections);
    assert(is_lowest(sections, low));
    if is_lowest(sections, y) && sections.len() > 0 {
        let i = choose|i: int| 0 <= i < sections.len() && (#[trigger] sections[i]).y == y;
        let j = choose|j: int| 0 <= j < sections.len() && (#[trigger] sections[j]).y == low;
        assert(low <= sections[i].y);
        assert(y <= sections[j].y);
    }
}

proof fn lemma_some_lowest(sections: Seq<Section>) -> (y: i8)
    ensures
        is_lowest(sections, y),
    decreases sections.len(),
{
    if sections.len() == 0 {
        DEFAULT_SECTION_Y
    } else if sections.len() == 1 {
        sections[0].y
    } else {
        let before = sections.drop_last();
        let low = lemma_some_lowest(before);
        let last = sections.last().y;
        if last < low {
            assert(sections[sections.len() - 1].y == last);
            assert forall|i: int| 0 <= i < sections.len() implies last <= (
            #[trigger] sections[i]).y by {
                if i < before.len() {
                    assert(low <= before[i].y);
                }
            }
            last
        } else {
            let k = choose|k: int| 0 <= k < before.len() && (#[trigger] before[k]).y == low;
            assert(sections[k].y == low);
            assert forall|i: int| 0 <= i < sections.len() implies low <= (
            #[trigger] sections[i]).y by {
                if i < before.len() {
                    assert(low <= before[i].y);
                }
            }
            low
        }
    }
}

/// What is saved of a chunk with the given sections, place and other values. The other
/// values replace those of every chunk, but for the block entities, which are always
/// there.
pub open spec fn chunk_tags(
    sections: Seq<Section>,
    x_pos: i32,
    z_pos: i32,
    other: Map<Seq<char>, Nbt>,
    data_version: i32,
) -> Map<Seq<char>, Nbt> {
    let nothing = Nbt::Compound(Map::empty());
    map![
        "DataVersion"@ => Nbt::Int(data_version),
        "Status"@ => Nbt::Text("minecraft:full"@),
        "xPos"@ => Nbt::Int(x_pos),
        "zPos"@ => Nbt::Int(z_pos),
        "yPos"@ => Nbt::Int(lowest_section(sections) as i32),
        "LastUpdate"@ => Nbt::Long(0),
        "InhabitedTime"@ => Nbt::Long(0),
        "Heightmaps"@ => nothing,
        "sections"@ => Nbt::List(
            sections.map_values(|section: Section| section_nbt(section)),
        ),
        "block_entities"@ => if other.contains_key("block_entities"@) {
            other["block_entities"@]
        } else {
            Nbt::List(Seq::empty())
        },
        "structures"@ => Nbt::Compound(map!["starts"@ => nothing, "References"@ => nothing]),
    ].union_prefer_right(other.remove("block_entities"@))
}

/// What is saved of a chunk.
pub open spec fn chunk_nbt(chunk: Chunk, data_version: i32) -> Map<Seq<char>, Nbt> {
    chunk_tags(chunk.sections@, chunk.x_pos, chunk.z_pos, chunk.other@, data_version)
}

/// The lowest of some sections, or the lowest that a chunk without sections has.
fn min_section_y(sections: &Vec<Section>) -> (y: i8)
    ensures
        y == lowest_section(sections@),
{
    if sections.len() == 0 {
        proof {
            law_lowest_section(sections@, DEFAULT_SECTION_Y);
        }
        return DEFAULT_SECTION_Y;
    }
    let mut y: i8 = sections[0].y;
    let ghost mut at: int = 0;
    let mut i: usize = 1;
    while i < sections.len()
        invariant
            1 <= i <= sections@.len(),
            0 <= at < sections@.len(),
            sections@[at].y == y,
            forall|j: int| 0 <= j < i ==> y <= (#[trigger] sections@[j]).y,
        decreases sections@.len() - i,
    {
        if sections[i].y < y {
            y = sections[i].y;
            proof {
                at = i as int;
            }
        }
        i = i + 1;
    }
    proof {
        law_lowest_section(sections@, y);
    }
    y
}

/// What is saved of each of some sections.
fn create_sections_nbt(sections: &Vec<Section>) -> (tag: Tag)
    ensures
        tag@ == Nbt::List(sections@.map_values(|section: Section| section_nbt(section))),
{
    let ghost wanted = sections@.map_values(|section: Section| section_nbt(section));
    let mut tags: Vec<Tag> = Vec::new();
    let mut i: usize = 0;
    while i < sections.len()
        invariant
            i <= sections@.len(),
            wanted == sections@.map_values(|section: Section| section_nbt(section)),
            models(tags@) == wanted.take(i as int),
        decreases sections@.len() - i,
    {
        let ghost before = tags@;
        tags.push(create_section_nbt(&sections[i]));
        proof {
            assert(models(tags@) == models(before).push(wanted[i as int]));
            assert(wanted.take(i + 1) == wanted.take(i as int).push(wanted[i as int]));
        }
        i = i + 1;
    }
    proof {
        assert(wanted.take(i as int) == wanted);
        lemma_list_model(tags@);
    }
    Tag::List(tags)
}

/// What is saved of a chunk, in the layout of the given data version.
pub fn create_chunk_nbt(chunk: &Chunk, data_version: i32) -> (tags: Compound)
    ensures
        tags@ == chunk_nbt(*chunk, data_version),
{
    create_chunk_tags(&chunk.sections, chunk.x_pos, chunk.z_pos, &chunk.other, data_version)
}

/// What is saved of a chunk with the given sections, place and other values.
pub fn create_chunk_tags(
    sections: &Vec<Section>,
    x_pos: i32,
    z_pos: i32,
    other: &Compound,
    data_version: i32,
) -> (tags: Compound)
    ensures
        tags@ == chunk_tags(sections@, x_pos, z_pos, other@, data_version),
{
    let mut structures = Compound::new();
    structures.insert("starts".to_string(), Tag::Compound(Compound::new()));
    structures.insert("References".to_string(), Tag::Compound(Compound::new()));
    let block_entities = match other.get("block_entities") {
        Some(tag) => tag.clone(),
        None => {
            let none: Vec<Tag> = Vec::new();
            proof {
                lemma_list_model(none@);
                assert(models(none@) == Seq::<Nbt>::empty());
            }
            Tag::List(none)
        },
    };
    let mut tags = Compound::new();
    tags.insert("DataVersion".to_string(), Tag::Int(data_version));
    tags.insert("Status".to_string(), Tag::String("minecraft:full".to_string()));
    tags.insert("xPos".to_string(), Tag::Int(x_pos));
    tags.insert("zPos".to_string(), Tag::Int(z_pos));
    tags.insert("yPos".to_string(), Tag::Int(min_section_y(sections) as i32));
    tags.insert("LastUpdate".to_string(), Tag::Long(0));
    tags.insert("InhabitedTime".to_string(), Tag::Long(0));
    tags.insert("Heightmaps".to_string(), Tag::Compound(Compound::new()));
    tags.insert("sections".to_string(), create_sections_nbt(sections));
    tags.insert("block_entities".to_string(), block_entities);
    tags.insert("structures".to_string(), Tag::Compound(structures));
    tags.add_all_but(other, "block_entities");
    tags
}

/// A value as an `i32`, if it is a number that can be one.
pub open spec fn as_i32(value: Nbt) -> Option<i32> {
    match value {
        Nbt::Byte(n) => Some(n as i32),
        Nbt::Short(n) => Some(n as i32),
        Nbt::Int(n) => Some(n),
        Nbt::Long(n) => if i32::MIN <= n <= i32::MAX {
            Some(n as i32)
        } else {
            None
        },
        Nbt::Float(bits) => Some(single_as_i32(bits) as i32),
        Nbt::Double(bits) => Some(double_as_i32(bits) as i32),
        _ => None,
    }
}

/// A value as an `i32`, if it is a number that can be one. Numbers with a fraction lose
/// it, and are kept in the range.
pub fn value_to_i32(value: &Tag) -> (number: Option<i32>)
    ensures
        number == as_i32(value@),
{
    match value {
        Tag::Byte(n) => Some(*n as i32),
        Tag::Short(n) => Some(*n as i32),
        Tag::Int(n) => Some(*n),
        Tag::Long(n) => if i32::MIN as i64 <= *n && *n <= i32::MAX as i64 {
            Some(*n as i32)
        } else {
            None
        },
        Tag::Float(bits) => Some(single_to_i32(*bits)),
        Tag::Double(bits) => Some(double_to_i32(*bits)),
        _ => None,
    }
}

/// Three numbers, if all are there.
pub open spec fn all_three(x: Option<i32>, y: Option<i32>, z: Option<i32>) -> Option<(
    i32,
    i32,
    i32,
)> {
    match (x, y, z) {
        (Some(x), Some(y), Some(z)) => Some((x, y, z)),
        _ => None,
    }
}

/// The number with a name.
pub open spec fn number_named(entity: Map<Seq<char>, Nbt>, name: Seq<char>) -> Option<i32> {
    if entity.contains_key(name) {
        as_i32(entity[name])
    } else {
        None
    }
}

/// The place that an entity gives in a list of three numbers.
pub open spec fn listed_place(entity: Map<Seq<char>, Nbt>) -> Option<(i32, i32, i32)> {
    if entity.contains_key("Pos"@) {
        match entity["Pos"@] {
            Nbt::List(place) => if place.len() == 3 {
                all_three(as_i32(place[0]), as_i32(place[1]), as_i32(place[2]))
            } else {
                None
            },
            _ => None,
        }
    } else {
        None
    }
}

/// The place of an entity: the one that it lists, else the one of its three coordinates.
pub open spec fn entity_place(entity: Map<Seq<char>, Nbt>) -> Option<(i32, i32, i32)> {
    match listed_place(entity) {
        Some(place) => Some(place),
        None => all_three(
            number_named(entity, "x"@),
            number_named(entity, "y"@),
            number_named(entity, "z"@),
        ),
    }
}

/// The number with a name.
fn coordinate(entity: &Compound, name: &str) -> (number: Option<i32>)
    ensures
        number == number_named(entity@, name@),
{
    match entity.get(name) {
        Some(value) => value_to_i32(value),
        None => None,
    }
}

/// The place of an entity: the one that it lists under "Pos", else the one that "x", "y"
/// and "z" give.
pub fn get_entity_coords(entity: &Compound) -> (place: Option<(i32, i32, i32)>)
    ensures
        place == entity_place(entity@),
{
    if let Some(Tag::List(listed)) = entity.get("Pos") {
        proof {
            lemma_list_model(listed@);
        }
        if listed.len() == 3 {
            if let (Some(x), Some(y), Some(z)) = (
                value_to_i32(&listed[0]),
                value_to_i32(&listed[1]),
                value_to_i32(&listed[2]),
            ) {
                return Some((x, y, z));
            }
        }
    }
    if let (Some(x), Some(y), Some(z)) = (
        coordinate(entity, "x"),
        coordinate(entity, "y"),
        coordinate(entity, "z"),
    ) {
        Some((x, y, z))
    } else {
        None
    }
}

/// One of the new entities is at the place of an entity.
pub open spec fn is_replaced(entity: Nbt, new: Seq<Nbt>) -> bool {
    match entity {
        Nbt::Compound(tags) => entity_place(tags) is Some && exists|i: int|
            {
                &&& 0 <= i < new.len()
                &&& (#[trigger] new[i]) matches Nbt::Compound(others)
                &&& entity_place(others) == entity_place(tags)
            },
        _ => false,
    }
}

/// The entities that no new one replaces, and then the new ones.
pub open spec fn merged_entities(existing: Seq<Nbt>, new: Seq<Nbt>) -> Seq<Nbt> {
    existing.filter(|entity: Nbt| !is_replaced(entity, new)) + new
}

/// The values of a chunk after the list `key` of new values was merged in.
pub open spec fn merged_list(
    existing: Map<Seq<char>, Nbt>,
    new: Map<Seq<char>, Nbt>,
    key: Seq<char>,
) -> Map<Seq<char>, Nbt> {
    if !new.contains_key(key) {
        existing
    } else if !existing.contains_key(key) {
        existing.insert(key, new[key])
    } else {
        match (existing[key], new[key]) {
            (Nbt::List(there), Nbt::List(come)) => existing.insert(
                key,
                Nbt::List(merged_entities(there, come)),
            ),
            _ => existing,
        }
    }
}

/// Whether one of the new entities is at the place of an entity.
fn has_replacement(entity: &Tag, new: &Vec<Tag>) -> (replaced: bool)
    ensures
        replaced == is_replaced(entity@, models(new@)),
{
    if let Tag::Compound(tags) = entity {
        if let Some(place) = get_entity_coords(tags) {
            let mut i: usize = 0;
            while i < new.len()
                invariant
                    i <= new@.len(),
                    entity@ == Nbt::Compound(tags@),
                    entity_place(tags@) == Some(place),
                    forall|j: int|
                        0 <= j < i ==> !((#[trigger] models(new@)[j]) matches Nbt::Compound(others)
                            && entity_place(others) == Some(place)),
                decreases new@.len() - i,
            {
                assert(models(new@)[i as int] == new@[i as int].model());
                if let Tag::Compound(others) = &new[i] {
                    if let Some((x, y, z)) = get_entity_coords(others) {
                        if x == place.0 && y == place.1 && z == place.2 {
                            return true;
                        }
                    }
                }
                i = i + 1;
            }
        }
    }
    false
}

/// The entities that no new one replaces, and then the new ones.
fn merge_entities(existing: Vec<Tag>, new: &Vec<Tag>) -> (merged: Vec<Tag>)
    ensures
        models(merged@) == merged_entities(models(existing@), models(new@)),
{
    let ghost there = models(existing@);
    let ghost come = models(new@);
    let ghost stays = |entity: Nbt| !is_replaced(entity, come);
    let mut merged: Vec<Tag> = Vec::new();
    proof {
        reveal(Seq::filter);
        assert(models(merged@) == there.take(0).filter(stays));
    }
    for entity in iter: existing
        invariant
            iter.seq() == existing@,
            there == models(existing@),
            come == models(new@),
            stays == (|entity: Nbt| !is_replaced(entity, come)),
            models(merged@) == there.take(iter.index()).filter(stays),
    {
        let ghost i = iter.index();
        let ghost before = merged@;
        proof {
            reveal(Seq::filter);
            assert(there.take(i + 1).drop_last() == there.take(i));
            assert(there.take(i + 1).last() == entity.model());
        }
        if !has_replacement(&entity, new) {
            merged.push(entity);
            proof {
                assert(models(merged@) == models(before).push(entity.model()));
            }
        }
    }
    proof {
        assert(there.take(there.len() as int) == there);
    }
    let ghost kept = merged@;
    let mut i: usize = 0;
    while i < new.len()
        invariant
            i <= new@.len(),
            come == models(new@),
            models(merged@) == models(kept) + come.take(i as int),
        decreases new@.len() - i,
    {
        let ghost before = merged@;
        merged.push(new[i].clone());
        proof {
            assert(models(merged@) == models(before).push(come[i as int]));
            assert(come.take(i + 1) == come.take(i as int).push(come[i as int]));
        }
        i = i + 1;
    }
    proof {
        assert(come.take(i as int) == come);
    }
    merged
}

/// Merges a list of entities or block entities that were placed into the one of a chunk.
/// New entities take the place of those that are at the same coordinates.
pub fn merge_compound_list(chunk: &mut Chunk, chunk_to_modify: &ChunkToModify, key: &str)
    ensures
        final(chunk).other@ == merged_list(old(chunk).other@, chunk_to_modify.other@, key@),
        final(chunk).sections == old(chunk).sections,
        final(chunk).x_pos == old(chunk).x_pos,
        final(chunk).z_pos == old(chunk).z_pos,
        final(chunk).is_light_on == old(chunk).is_light_on,
{
    let new = match chunk_to_modify.other.get(key) {
        Some(new) => new,
        None => {
            return;
        },
    };
    let ghost before = chunk.other@;
    match chunk.other.remove(key) {
        None => {
            proof {
                assert(before.remove(key@) =~= before);
            }
            chunk.other.insert(key.to_string(), new.clone());
        },
        Some(existing) => {
            let ghost was = existing.model();
            let merged = match existing {
                Tag::List(there) => match new {
                    Tag::List(come) => {
                        let all = merge_entities(there, come);
                        proof {
                            lemma_list_model(there@);
                            lemma_list_model(come@);
                            lemma_list_model(all@);
                        }
                        Tag::List(all)
                    },
                    _ => Tag::List(there),
                },
                other => other,
            };
            proof {
                assert(before.remove(key@).insert(key@, merged.model()) =~= before.insert(
                    key@,
                    merged.model(),
                ));
                assert(before.insert(key@, was) =~= before);
            }
            chunk.other.insert(key.to_string(), merged);
        },
    }
}

/// Every chunk has the fields of the modern layout at its root, in the version that was
/// asked for, unless its other values replace them.
pub proof fn law_chunk_has_root_fields(chunk: Chunk, data_version: i32, name: Seq<char>)
    requires
        seq![
            "DataVersion"@,
            "Status"@,
            "xPos"@,
            "zPos"@,
            "yPos"@,
            "LastUpdate"@,
            "InhabitedTime"@,
            "Heightmaps"@,
            "sections"@,
            "block_entities"@,
            "structures"@,
        ].contains(name),
    ensures
        chunk_nbt(chunk, data_version).contains_key(name),
        !chunk.other@.contains_key("DataVersion"@) ==> chunk_nbt(
            chunk,
            data_version,
        )["DataVersion"@] == Nbt::Int(data_version),
{
    lemma_names_differ();
}

/// A chunk has nothing but those fields and its other values; so it has no "Level" unless
/// that is one of them.
pub proof fn law_chunk_has_nothing_else(chunk: Chunk, data_version: i32)
    ensures
        chunk_nbt(chunk, data_version).contains_key("Level"@) == chunk.other@.contains_key(
            "Level"@,
        ),
{
    lemma_names_differ();
}

/// "Level" is none of the names at the root, and the version is not named like another.
proof fn lemma_names_differ()
    ensures
        "Level"@ != "DataVersion"@,
        "Level"@ != "Status"@,
        "Level"@ != "xPos"@,
        "Level"@ != "zPos"@,
        "Level"@ != "yPos"@,
        "Level"@ != "LastUpdate"@,
        "Level"@ != "InhabitedTime"@,
        "Level"@ != "Heightmaps"@,
        "Level"@ != "sections"@,
        "Level"@ != "block_entities"@,
        "Level"@ != "structures"@,
        "DataVersion"@ != "Status"@,
        "DataVersion"@ != "xPos"@,
        "DataVersion"@ != "zPos"@,
        "DataVersion"@ != "yPos"@,
        "DataVersion"@ != "LastUpdate"@,
        "DataVersion"@ != "InhabitedTime"@,
        "DataVersion"@ != "Heightmaps"@,
        "DataVersion"@ != "sections"@,
        "DataVersion"@ != "block_entities"@,
        "DataVersion"@ != "structures"@,
{
    reveal_strlit("Level");
    reveal_strlit("DataVersion");
    reveal_strlit("Status");
    reveal_strlit("xPos");
    reveal_strlit("zPos");
    reveal_strlit("yPos");
    reveal_strlit("LastUpdate");
    reveal_strlit("InhabitedTime");
    reveal_strlit("Heightmaps");
    reveal_strlit("sections");
    reveal_strlit("block_entities");
    reveal_strlit("structures");
    assert("DataVersion"@[0] == 'D');
    assert("Level"@[0] == 'L');
    assert("LastUpdate"@[1] == 'a');
    assert("Level"@[1] == 'e');
    assert("Status"@[0] == 'S');
    assert("xPos"@[0] == 'x');
    assert("zPos"@[0] == 'z');
    assert("yPos"@[0] == 'y');
    assert("InhabitedTime"@[0] == 'I');
    assert("Heightmaps"@[0] == 'H');
    assert("sections"@[0] == 's');
    assert("block_entities"@[0] == 'b');
    assert("structures"@[0] == 's');
    assert("LastUpdate"@[0] == 'L');
}

/// Every new entity is in a merged list.
pub proof fn law_new_entities_kept(existing: Seq<Nbt>, new: Seq<Nbt>, i: int)
    requires
        0 <= i < new.len(),
    ensures
        merged_entities(existing, new).contains(new[i]),
{
    let kept = existing.filter(|entity: Nbt| !is_replaced(entity, new));
    assert(merged_entities(existing, new)[kept.len() + i] == new[i]);
}

/// An entity that was there stays in a merged list if and only if none of the new ones is
/// at its place or equal to it.
pub proof fn law_existing_entities(existing: Seq<Nbt>, new: Seq<Nbt>, i: int)
    requires
        0 <= i < existing.len(),
        !new.contains(existing[i]),
    ensures
        merged_entities(existing, new).contains(existing[i]) == !is_replaced(existing[i], new),
{
    broadcast use vstd::seq_lib::group_filter_ensures;

    let stays = |entity: Nbt| !is_replaced(entity, new);
    let kept = existing.filter(stays);
    let all = merged_entities(existing, new);
    let entity = existing[i];
    if !is_replaced(entity, new) {
        assert(stays(entity));
        assert(kept.contains(entity));
        let k = choose|k: int| 0 <= k < kept.len() && kept[k] == entity;
        assert(all[k] == entity);
    }
    if all.contains(entity) {
        let k = choose|k: int| 0 <= k < all.len() && all[k] == entity;
        if k < kept.len() {
            assert(kept[k] == entity);
            assert(stays(kept[k]));
        } else {
            assert(new[k - kept.len()] == entity);
        }
    }
}

/// What is saved of a kind of block is its name, and its properties if it has any.
pub proof fn law_palette_item_saved(item: PaletteItem)
    ensures
        ({
            &&& palette_item_nbt(item) matches Nbt::Compound(tags)
            &&& tags.contains_key("Name"@) && tags["Name"@] == Nbt::Text(item.name@)
            &&& tags.contains_key("Properties"@) == (item.properties is Some)
            &&& item.properties matches Some(properties) ==> tags["Properties"@] == properties@
            &&& forall|name: Seq<char>| #[trigger]
                tags.contains_key(name) ==> name == "Name"@ || name == "Properties"@
        }),
{
    reveal_strlit("Name");
    reveal_strlit("Properties");
    assert("Name"@.len() == 4);
    assert("Properties"@.len() == 10);
}

/// What is saved of the blocks of a section is each of their kinds, in order, and the packed
/// numbers if there are any.
pub proof fn law_block_states_saved(block_states: Blockstates)
    ensures
        ({
            let packed = block_states.data is Some && block_states.data->0@.len() > 0;
            &&& block_states_nbt(block_states) matches Nbt::Compound(tags)
            &&& tags.contains_key("palette"@)
            &&& tags["palette"@] matches Nbt::List(kinds)
            &&& kinds.len() == block_states.palette@.len()
            &&& forall|i: int|
                0 <= i < kinds.len() ==> #[trigger] kinds[i] == palette_item_nbt(
                    block_states.palette@[i],
                )
            &&& tags.contains_key("data"@) == packed
            &&& packed ==> tags["data"@] == Nbt::LongArray(block_states.data->0@)
            &&& forall|name: Seq<char>| #[trigger]
                tags.contains_key(name) ==> name == "palette"@ || name == "data"@
        }),
{
    reveal_strlit("palette");
    reveal_strlit("data");
    assert("palette"@.len() == 7);
    assert("data"@.len() == 4);
}

/// What is saved of a section is its height, below zero too, its blocks, one biome, and of
/// its other values all that are not named like these.
pub proof fn law_section_saved(section: Section)
    ensures
        ({
            &&& section_nbt(section) matches Nbt::Compound(tags)
            &&& tags.contains_key("Y"@) && tags["Y"@] == Nbt::Byte(section.y)
            &&& tags.contains_key("block_states"@) && tags["block_states"@] == block_states_nbt(
                section.block_states,
            )
            &&& tags.contains_key("biomes"@)
            &&& tags["biomes"@] matches Nbt::Compound(biomes)
            &&& biomes.dom() == set!["palette"@]
            &&& biomes["palette"@] == Nbt::List(seq![Nbt::Text("minecraft:plains"@)])
            &&& forall|name: Seq<char>|
                name != "Y"@ && name != "block_states"@ && name != "biomes"@ ==> (
                #[trigger] tags.contains_key(name) == section.other@.contains_key(name)) && (
                section.other@.contains_key(name) ==> tags[name] == section.other@[name])
        }),
{
    reveal_strlit("Y");
    reveal_strlit("block_states");
    reveal_strlit("biomes");
    assert("Y"@.len() == 1);
    assert("block_states"@.len() == 12);
    assert("biomes"@.len() == 6);
    let tags = section_nbt(section)->Compound_0;
    let biomes = tags["biomes"@]->Compound_0;
    assert(biomes.dom() =~= set!["palette"@]);
}

/// Sections at different heights are saved with different heights.
pub proof fn law_heights_kept_apart(one: Section, other: Section)
    ensures
        ({
            &&& section_nbt(one) matches Nbt::Compound(a)
            &&& section_nbt(other) matches Nbt::Compound(b)
            &&& a["Y"@] == b["Y"@] <==> one.y == other.y
        }),
{
    law_section_saved(one);
    law_section_saved(other);
}

/// A chunk is saved with its place, the version that was asked for, one tag for each section
/// in order, and the fields that all chunks have; its other values replace these, and it
/// always has block entities.
pub proof fn law_chunk_saved(
    sections: Seq<Section>,
    x_pos: i32,
    z_pos: i32,
    other: Map<Seq<char>, Nbt>,
    data_version: i32,
)
    ensures
        ({
            let tags = chunk_tags(sections, x_pos, z_pos, other, data_version);
            let own = |name: Seq<char>, value: Nbt|
                !other.contains_key(name) ==> tags.contains_key(name) && tags[name] == value;
            let nothing = Nbt::Compound(Map::<Seq<char>, Nbt>::empty());
            &&& own("DataVersion"@, Nbt::Int(data_version))
            &&& own("Status"@, Nbt::Text("minecraft:full"@))
            &&& own("xPos"@, Nbt::Int(x_pos))
            &&& own("zPos"@, Nbt::Int(z_pos))
            &&& own("LastUpdate"@, Nbt::Long(0))
            &&& own("InhabitedTime"@, Nbt::Long(0))
            &&& own("Heightmaps"@, nothing)
            &&& own("block_entities"@, Nbt::List(Seq::empty()))
            &&& !other.contains_key("structures"@) ==> tags.contains_key("structures"@) && (
            tags["structures"@] matches Nbt::Compound(structures) && structures.dom()
                == set!["starts"@, "References"@] && structures["starts"@] == nothing
                && structures["References"@] == nothing)
            &&& forall|name: Seq<char>| #[trigger]
                other.contains_key(name) ==> tags.contains_key(name) && tags[name] == other[name]
            &&& forall|name: Seq<char>| #[trigger]
                tags.contains_key(name) ==> other.contains_key(name) || name == "DataVersion"@
                    || name == "Status"@ || name == "xPos"@ || name == "zPos"@ || name == "yPos"@
                    || name == "LastUpdate"@ || name == "InhabitedTime"@ || name == "Heightmaps"@
                    || name == "sections"@ || name == "block_entities"@ || name == "structures"@
            &&& !other.contains_key("sections"@) ==> tags.contains_key("sections"@) && (
            tags["sections"@] matches Nbt::List(saved) && saved.len() == sections.len()
                && forall|i: int|
                0 <= i < saved.len() ==> #[trigger] saved[i] == section_nbt(sections[i]))
        }),
{
    lemma_root_names_differ();
    let tags = chunk_tags(sections, x_pos, z_pos, other, data_version);
    reveal_strlit("starts");
    reveal_strlit("References");
    assert("starts"@.len() == 6);
    assert("References"@.len() == 10);
    if !other.contains_key("structures"@) {
        let structures = tags["structures"@]->Compound_0;
        assert(structures.dom() =~= set!["starts"@, "References"@]);
    }
}

/// The height that is saved of a chunk is the least that is saved of its sections, and -4 if
/// it has none.
pub proof fn law_height_of_chunk(
    sections: Seq<Section>,
    x_pos: i32,
    z_pos: i32,
    other: Map<Seq<char>, Nbt>,
    data_version: i32,
)
    requires
        !other.contains_key("yPos"@),
    ensures
        ({
            let tags = chunk_tags(sections, x_pos, z_pos, other, data_version);
            &&& tags.contains_key("yPos"@)
            &&& tags["yPos"@] matches Nbt::Int(y)
            &&& forall|i: int|
                0 <= i < sections.len() ==> (section_nbt(#[trigger] sections[i]) matches Nbt::Compound(
                    saved,
                ) && (saved["Y"@] matches Nbt::Byte(own) && y <= own))
            &&& sections.len() > 0 ==> exists|i: int|
                0 <= i < sections.len() && (section_nbt(#[trigger] sections[i]) matches Nbt::Compound(
                    saved,
                ) && (saved["Y"@] matches Nbt::Byte(own) && y == own))
            &&& sections.len() == 0 ==> y == -4
        }),
{
    lemma_root_names_differ();
    let low = lowest_section(sections);
    law_lowest_section(sections, low);
    assert forall|i: int| 0 <= i < sections.len() implies (section_nbt(
        #[trigger] sections[i],
    ) matches Nbt::Compound(saved) && (saved["Y"@] matches Nbt::Byte(own) && low <= own)) by {
        law_section_saved(sections[i]);
    }
    if sections.len() > 0 {
        let i = choose|i: int| 0 <= i < sections.len() && (#[trigger] sections[i]).y == low;
        law_section_saved(sections[i]);
    }
}

/// The names at the root of a chunk are all different.
proof fn lemma_root_names_differ()
    ensures
        "DataVersion"@ != "Status"@,
        "DataVersion"@ != "xPos"@,
        "DataVersion"@ != "zPos"@,
        "DataVersion"@ != "yPos"@,
        "DataVersion"@ != "LastUpdate"@,
        "DataVersion"@ != "InhabitedTime"@,
        "DataVersion"@ != "Heightmaps"@,
        "DataVersion"@ != "sections"@,
        "DataVersion"@ != "block_entities"@,
        "DataVersion"@ != "structures"@,
        "Status"@ != "xPos"@,
        "Status"@ != "zPos"@,
        "Status"@ != "yPos"@,
        "Status"@ != "LastUpdate"@,
        "Status"@ != "InhabitedTime"@,
        "Status"@ != "Heightmaps"@,
        "Status"@ != "sections"@,
        "Status"@ != "block_entities"@,
        "Status"@ != "structures"@,
        "xPos"@ != "zPos"@,
        "xPos"@ != "yPos"@,
        "xPos"@ != "LastUpdate"@,
        "xPos"@ != "InhabitedTime"@,
        "xPos"@ != "Heightmaps"@,
        "xPos"@ != "sections"@,
        "xPos"@ != "block_entities"@,
        "xPos"@ != "structures"@,
        "zPos"@ != "yPos"@,
        "zPos"@ != "LastUpdate"@,
        "zPos"@ != "InhabitedTime"@,
        "zPos"@ != "Heightmaps"@,
        "zPos"@ != "sections"@,
        "zPos"@ != "block_entities"@,
        "zPos"@ != "structures"@,
        "yPos"@ != "LastUpdate"@,
        "yPos"@ != "InhabitedTime"@,
        "yPos"@ != "Heightmaps"@,
        "yPos"@ != "sections"@,
        "yPos"@ != "block_entities"@,
        "yPos"@ != "structures"@,
        "LastUpdate"@ != "InhabitedTime"@,
        "LastUpdate"@ != "Heightmaps"@,
        "LastUpdate"@ != "sections"@,
        "LastUpdate"@ != "block_entities"@,
        "LastUpdate"@ != "structures"@,
        "InhabitedTime"@ != "Heightmaps"@,
        "InhabitedTime"@ != "sections"@,
        "InhabitedTime"@ != "block_entities"@,
        "InhabitedTime"@ != "structures"@,
        "Heightmaps"@ != "sections"@,
        "Heightmaps"@ != "block_entities"@,
        "Heightmaps"@ != "structures"@,
        "sections"@ != "block_entities"@,
        "sections"@ != "structures"@,
        "block_entities"@ != "structures"@,
{
    reveal_strlit("DataVersion");
    reveal_strlit("Status");
    reveal_strlit("xPos");
    reveal_strlit("zPos");
    reveal_strlit("yPos");
    reveal_strlit("LastUpdate");
    reveal_strlit("InhabitedTime");
    reveal_strlit("Heightmaps");
    reveal_strlit("sections");
    reveal_strlit("block_entities");
    reveal_strlit("structures");
    assert("Heightmaps"@[0] == 'H');
    assert("LastUpdate"@[0] == 'L');
    assert("structures"@[0] == 's');
    assert("xPos"@[0] == 'x');
    assert("yPos"@[0] == 'y');
    assert("zPos"@[0] == 'z');
    assert("DataVersion"@.len() == 11);
    assert("Status"@.len() == 6);
    assert("xPos"@.len() == 4);
    assert("zPos"@.len() == 4);
    assert("yPos"@.len() == 4);
    assert("LastUpdate"@.len() == 10);
    assert("InhabitedTime"@.len() == 13);
    assert("Heightmaps"@.len() == 10);
    assert("sections"@.len() == 8);
    assert("block_entities"@.len() == 14);
    assert("structures"@.len() == 10);
}

/// A whole number is itself as an `i32`, if it is one. Nothing but a number is one.
pub proof fn law_whole_numbers(value: Nbt)
    ensures
        value matches Nbt::Byte(n) ==> as_i32(value) is Some && as_i32(value)->0 == n,
        value matches Nbt::Short(n) ==> as_i32(value) is Some && as_i32(value)->0 == n,
        value matches Nbt::Int(n) ==> as_i32(value) == Some(n),
        value matches Nbt::Long(n) ==> (as_i32(value) is Some <==> -0x8000_0000 <= n
            <= 0x7fff_ffff) && (as_i32(value) is Some ==> as_i32(value)->0 == n),
        as_i32(value) is Some ==> value is Byte || value is Short || value is Int || value is Long
            || value is Float || value is Double,
{
}

/// An entity that lists three numbers under "Pos" is there, whatever else it holds.
pub proof fn law_listed_place(
    entity: Map<Seq<char>, Nbt>,
    place: Seq<Nbt>,
    x: i32,
    y: i32,
    z: i32,
)
    requires
        entity.contains_key("Pos"@),
        entity["Pos"@] == Nbt::List(place),
        place.len() == 3,
        as_i32(place[0]) == Some(x),
        as_i32(place[1]) == Some(y),
        as_i32(place[2]) == Some(z),
    ensures
        entity_place(entity) == Some((x, y, z)),
{
}

/// An entity without a list of three numbers under "Pos" is where "x", "y" and "z" say, and
/// nowhere if one of them is no number.
pub proof fn law_place_by_coordinates(entity: Map<Seq<char>, Nbt>)
    requires
        !entity.contains_key("Pos"@) || !(entity["Pos"@] is List) || entity["Pos"@]->List_0.len()
            != 3 || (exists|i: int|
            0 <= i < 3 && as_i32(#[trigger] entity["Pos"@]->List_0[i]) is None),
    ensures
        ({
            let known = |name: Seq<char>|
                entity.contains_key(name) && as_i32(entity[name]) is Some;
            let all = known("x"@) && known("y"@) && known("z"@);
            &&& all ==> entity_place(entity) == Some(
                (as_i32(entity["x"@])->0, as_i32(entity["y"@])->0, as_i32(entity["z"@])->0),
            )
            &&& !all ==> entity_place(entity) is None
        }),
{
    if entity.contains_key("Pos"@) && entity["Pos"@] is List && entity["Pos"@]->List_0.len() == 3 {
        let place = entity["Pos"@]->List_0;
        let i = choose|i: int| 0 <= i < 3 && as_i32(#[trigger] place[i]) is None;
        assert(i == 0 || i == 1 || i == 2);
    }
}

/// An entity is replaced exactly if it has a place and one of the new ones has the same.
pub proof fn law_replaced_by_place(entity: Nbt, new: Seq<Nbt>)
    ensures
        is_replaced(entity, new) <==> exists|i: int, place: (i32, i32, i32)|
            0 <= i < new.len() && #[trigger] is_at(new[i], place) && is_at(entity, place),
{
    if is_replaced(entity, new) {
        let tags = entity->Compound_0;
        let i = choose|i: int|
            {
                &&& 0 <= i < new.len()
                &&& (#[trigger] new[i]) matches Nbt::Compound(others)
                &&& entity_place(others) == entity_place(tags)
            };
        let place = entity_place(tags)->0;
        assert(is_at(new[i], place) && is_at(entity, place));
    }
    if exists|i: int, place: (i32, i32, i32)|
        0 <= i < new.len() && #[trigger] is_at(new[i], place) && is_at(entity, place) {
        let (i, place) = choose|i: int, place: (i32, i32, i32)|
            0 <= i < new.len() && #[trigger] is_at(new[i], place) && is_at(entity, place);
        let tags = entity->Compound_0;
        assert(new[i] matches Nbt::Compound(others) && entity_place(others) == entity_place(tags));
    }
}

/// A value is an entity at a place.
pub open spec fn is_at(entity: Nbt, place: (i32, i32, i32)) -> bool {
    entity matches Nbt::Compound(tags) && entity_place(tags) == Some(place)
}

/// The new entities come last, in order. What stands before them is as if the last of the
/// existing ones had not been there, followed by that one unless it is replaced.
pub proof fn law_entities_in_order(existing: Seq<Nbt>, new: Seq<Nbt>, last: Nbt)
    ensures
        merged_entities(Seq::empty(), new) == new,
        ({
            let before = merged_entities(existing, new);
            let kept = before.len() - new.len();
            &&& kept >= 0
            &&& before.skip(kept) == new
            &&& merged_entities(existing.push(last), new) == if is_replaced(last, new) {
                before
            } else {
                before.take(kept).push(last) + new
            }
        }),
{
    reveal(Seq::filter);
    let stays = |entity: Nbt| !is_replaced(entity, new);
    assert(Seq::<Nbt>::empty().filter(stays) + new =~= new);
    let all = existing.push(last);
    assert(all.drop_last() =~= existing);
    let kept = existing.filter(stays);
    let before = merged_entities(existing, new);
    assert(before.skip(before.len() - new.len()) =~= new);
    assert(before.take(before.len() - new.len()) =~= kept);
}

/// Merging a list touches no value but that list, and takes a list that only the new values
/// have as it is.
pub proof fn law_merging_a_list(
    existing: Map<Seq<char>, Nbt>,
    new: Map<Seq<char>, Nbt>,
    key: Seq<char>,
    name: Seq<char>,
)
    ensures
        ({
            let after = merged_list(existing, new, key);
            &&& name != key ==> after.contains_key(name) == existing.contains_key(name) && (
            existing.contains_key(name) ==> after[name] == existing[name])
            &&& after.contains_key(key) == (existing.contains_key(key) || new.contains_key(key))
            &&& new.contains_key(key) && !existing.contains_key(key) ==> after[key] == new[key]
            &&& existing.contains_key(key) && !new.contains_key(key) ==> after[key] == existing[key]
            &&& existing.contains_key(key) && new.contains_key(key) && existing[key] is List
                && new[key] is List ==> after[key] == Nbt::List(
                merged_entities(existing[key]->List_0, new[key]->List_0),
            )
            &&& existing.contains_key(key) && new.contains_key(key) && !(existing[key] is List
                && new[key] is List) ==> after[key] == existing[key]
        }),
{
}

} // verus!
