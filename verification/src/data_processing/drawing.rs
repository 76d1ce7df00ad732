//! What is drawn by which generator, told by the tags of an element alone.

use crate::data_processing::elements::{
    first_match, generator_of, is_outline_in, is_suppressed, Generator, ProcessedElement,
    ProcessedMemberRole, ProcessedNode, ProcessedRelation, ProcessedWay,
};
use vstd::prelude::*;

verus! {

/// What draws a way, told by its tags: a building is drawn unless it is suppressed, and of
/// everything else the first of these keys that the way has decides, whatever its value.
/// Only a waterway, a service and a tomb are told by their values.
pub proof fn law_way_generator(way: ProcessedWay, suppressed: Set<u64>)
    ensures
        ({
            let tags = way.tags@;
            let drawn = generator_of(ProcessedElement::Way(way), suppressed);
            let building = tags.contains_key("building"@) || tags.contains_key("building:part"@);
            let no_road = !building && !tags.contains_key("highway"@);
            let no_land = no_road && !tags.contains_key("landuse"@);
            let no_nature = no_land && !tags.contains_key("natural"@);
            let no_amenity = no_nature && !tags.contains_key("amenity"@);
            let no_leisure = no_amenity && !tags.contains_key("leisure"@);
            let no_barrier = no_leisure && !tags.contains_key("barrier"@);
            let no_water = no_barrier && !tags.contains_key("waterway"@);
            let no_rail = no_water && !tags.contains_key("railway"@);
            let no_coaster = no_rail && !tags.contains_key("roller_coaster"@);
            let no_air = no_coaster && !tags.contains_key("aeroway"@) && !tags.contains_key(
                "area:aeroway"@,
            );
            let siding = tags.contains_key("service"@) && tags["service"@]@ == "siding"@;
            let pyramid = tags.contains_key("tomb"@) && tags["tomb"@]@ == "pyramid"@;
            let no_tomb = no_air && !siding && !pyramid;
            let no_work = no_tomb && !tags.contains_key("man_made"@);
            let no_power = no_work && !tags.contains_key("power"@);
            &&& building && suppressed.contains(way.id) ==> drawn is None
            &&& building && !suppressed.contains(way.id) ==> drawn == Some(Generator::Buildings)
            &&& !building && tags.contains_key("highway"@) ==> drawn == Some(Generator::Highways)
            &&& no_road && tags.contains_key("landuse"@) ==> drawn == Some(Generator::Landuse)
            &&& no_land && tags.contains_key("natural"@) ==> drawn == Some(Generator::Natural)
            &&& no_nature && tags.contains_key("amenity"@) ==> drawn == Some(Generator::Amenities)
            &&& no_amenity && tags.contains_key("leisure"@) ==> drawn == Some(Generator::Leisure)
            &&& no_leisure && tags.contains_key("barrier"@) ==> drawn == Some(Generator::Barriers)
            &&& no_barrier && tags.contains_key("waterway"@) && tags["waterway"@]@ == "dock"@
                ==> drawn == Some(Generator::WaterAreaFromWay)
            &&& no_barrier && tags.contains_key("waterway"@) && tags["waterway"@]@ != "dock"@
                ==> drawn == Some(Generator::Waterways)
            &&& no_water && tags.contains_key("railway"@) ==> drawn == Some(Generator::Railways)
            &&& no_rail && tags.contains_key("roller_coaster"@) ==> drawn == Some(
                Generator::RollerCoaster,
            )
            &&& no_coaster && (tags.contains_key("aeroway"@) || tags.contains_key("area:aeroway"@))
                ==> drawn == Some(Generator::Aeroway)
            &&& no_air && siding ==> drawn == Some(Generator::Siding)
            &&& no_air && !siding && pyramid ==> drawn == Some(Generator::Pyramid)
            &&& no_tomb && tags.contains_key("man_made"@) ==> drawn == Some(Generator::ManMade)
            &&& no_work && tags.contains_key("power"@) ==> drawn == Some(Generator::Power)
            &&& no_power && tags.contains_key("place"@) ==> drawn == Some(Generator::Place)
            &&& no_power && !tags.contains_key("place"@) ==> drawn is None
        }),
{
    reveal_with_fuel(first_match, 20);
}

/// What draws a node, told by its tags: the first of these keys that the node has decides,
/// whatever its value. Of natural things only a tree is drawn.
pub proof fn law_node_generator(node: ProcessedNode, suppressed: Set<u64>)
    ensures
        ({
            let tags = node.tags@;
            let drawn = generator_of(ProcessedElement::Node(node), suppressed);
            let door = tags.contains_key("door"@) || tags.contains_key("entrance"@);
            let tree = tags.contains_key("natural"@) && tags["natural"@]@ == "tree"@;
            let no_tree = !door && !tree;
            let no_amenity = no_tree && !tags.contains_key("amenity"@);
            let no_barrier = no_amenity && !tags.contains_key("barrier"@);
            let no_road = no_barrier && !tags.contains_key("highway"@);
            let no_tourism = no_road && !tags.contains_key("tourism"@);
            let no_work = no_tourism && !tags.contains_key("man_made"@);
            let no_power = no_work && !tags.contains_key("power"@);
            let no_history = no_power && !tags.contains_key("historic"@);
            let no_emergency = no_history && !tags.contains_key("emergency"@);
            &&& door ==> drawn == Some(Generator::Doors)
            &&& !door && tree ==> drawn == Some(Generator::Natural)
            &&& no_tree && tags.contains_key("amenity"@) ==> drawn == Some(Generator::Amenities)
            &&& no_amenity && tags.contains_key("barrier"@) ==> drawn == Some(
                Generator::BarrierNodes,
            )
            &&& no_barrier && tags.contains_key("highway"@) ==> drawn == Some(Generator::Highways)
            &&& no_road && tags.contains_key("tourism"@) ==> drawn == Some(Generator::Tourisms)
            &&& no_tourism && tags.contains_key("man_made"@) ==> drawn == Some(
                Generator::ManMadeNodes,
            )
            &&& no_work && tags.contains_key("power"@) ==> drawn == Some(Generator::PowerNodes)
            &&& no_power && tags.contains_key("historic"@) ==> drawn == Some(Generator::Historic)
            &&& no_history && tags.contains_key("emergency"@) ==> drawn == Some(
                Generator::Emergency,
            )
            &&& no_emergency && tags.contains_key("advertising"@) ==> drawn == Some(
                Generator::Advertising,
            )
            &&& no_emergency && !tags.contains_key("advertising"@) ==> drawn is None
        }),
{
    reveal_with_fuel(first_match, 13);
}

/// What draws a relation, told by its tags. Natural water and bays are water areas, and of
/// leisure only parks are drawn.
pub proof fn law_relation_generator(relation: ProcessedRelation, suppressed: Set<u64>)
    ensures
        ({
            let tags = relation.tags@;
            let drawn = generator_of(ProcessedElement::Relation(relation), suppressed);
            let building = tags.contains_key("building"@) || tags.contains_key("building:part"@)
                || (tags.contains_key("type"@) && tags["type"@]@ == "building"@);
            let water = tags.contains_key("water"@) || (tags.contains_key("natural"@) && (
            tags["natural"@]@ == "water"@ || tags["natural"@]@ == "bay"@));
            let no_water = !building && !water;
            let no_nature = no_water && !tags.contains_key("natural"@);
            let no_land = no_nature && !tags.contains_key("landuse"@);
            let park = tags.contains_key("leisure"@) && tags["leisure"@]@ == "park"@;
            &&& building ==> drawn == Some(Generator::BuildingFromRelation)
            &&& !building && water ==> drawn == Some(Generator::WaterAreasFromRelation)
            &&& no_water && tags.contains_key("natural"@) ==> drawn == Some(
                Generator::NaturalFromRelation,
            )
            &&& no_nature && tags.contains_key("landuse"@) ==> drawn == Some(
                Generator::LanduseFromRelation,
            )
            &&& no_land && park ==> drawn == Some(Generator::LeisureFromRelation)
            &&& no_land && !park && tags.contains_key("man_made"@) ==> drawn == Some(
                Generator::ManMade,
            )
            &&& no_land && !park && !tags.contains_key("man_made"@) ==> drawn is None
        }),
{
    reveal_with_fuel(first_match, 11);
}


/// The keys that decide are all different.
proof fn lemma_keys_differ()
    ensures
        "advertising"@ != "aeroway"@,
        "advertising"@ != "amenity"@,
        "advertising"@ != "area:aeroway"@,
        "advertising"@ != "barrier"@,
        "advertising"@ != "building"@,
        "advertising"@ != "building:part"@,
        "advertising"@ != "door"@,
        "advertising"@ != "emergency"@,
        "advertising"@ != "entrance"@,
        "advertising"@ != "highway"@,
        "advertising"@ != "historic"@,
        "advertising"@ != "landuse"@,
        "advertising"@ != "leisure"@,
        "advertising"@ != "man_made"@,
        "advertising"@ != "natural"@,
        "advertising"@ != "place"@,
        "advertising"@ != "power"@,
        "advertising"@ != "railway"@,
        "advertising"@ != "roller_coaster"@,
        "advertising"@ != "service"@,
        "advertising"@ != "tomb"@,
        "advertising"@ != "tourism"@,
        "advertising"@ != "type"@,
        "advertising"@ != "water"@,
        "advertising"@ != "waterway"@,
        "aeroway"@ != "amenity"@,
        "aeroway"@ != "area:aeroway"@,
        "aeroway"@ != "barrier"@,
        "aeroway"@ != "building"@,
        "aeroway"@ != "building:part"@,
        "aeroway"@ != "door"@,
        "aeroway"@ != "emergency"@,
        "aeroway"@ != "entrance"@,
        "aeroway"@ != "highway"@,
        "aeroway"@ != "historic"@,
        "aeroway"@ != "landuse"@,
        "aeroway"@ != "leisure"@,
        "aeroway"@ != "man_made"@,
        "aeroway"@ != "natural"@,
        "aeroway"@ != "place"@,
        "aeroway"@ != "power"@,
        "aeroway"@ != "railway"@,
        "aeroway"@ != "roller_coaster"@,
        "aeroway"@ != "service"@,
        "aeroway"@ != "tomb"@,
        "aeroway"@ != "tourism"@,
        "aeroway"@ != "type"@,
        "aeroway"@ != "water"@,
        "aeroway"@ != "waterway"@,
        "amenity"@ != "area:aeroway"@,
        "amenity"@ != "barrier"@,
        "amenity"@ != "building"@,
        "amenity"@ != "building:part"@,
        "amenity"@ != "door"@,
        "amenity"@ != "emergency"@,
        "amenity"@ != "entrance"@,
        "amenity"@ != "highway"@,
        "amenity"@ != "historic"@,
        "amenity"@ != "landuse"@,
        "amenity"@ != "leisure"@,
        "amenity"@ != "man_made"@,
        "amenity"@ != "natural"@,
        "amenity"@ != "place"@,
        "amenity"@ != "power"@,
        "amenity"@ != "railway"@,
        "amenity"@ != "roller_coaster"@,
        "amenity"@ != "service"@,
        "amenity"@ != "tomb"@,
        "amenity"@ != "tourism"@,
        "amenity"@ != "type"@,
        "amenity"@ != "water"@,
        "amenity"@ != "waterway"@,
        "area:aeroway"@ != "barrier"@,
        "area:aeroway"@ != "building"@,
        "area:aeroway"@ != "building:part"@,
        "area:aeroway"@ != "door"@,
        "area:aeroway"@ != "emergency"@,
        "area:aeroway"@ != "entrance"@,
        "area:aeroway"@ != "highway"@,
        "area:aeroway"@ != "historic"@,
        "area:aeroway"@ != "landuse"@,
        "area:aeroway"@ != "leisure"@,
        "area:aeroway"@ != "man_made"@,
        "area:aeroway"@ != "natural"@,
        "area:aeroway"@ != "place"@,
        "area:aeroway"@ != "power"@,
        "area:aeroway"@ != "railway"@,
        "area:aeroway"@ != "roller_coaster"@,
        "area:aeroway"@ != "service"@,
        "area:aeroway"@ != "tomb"@,
        "area:aeroway"@ != "tourism"@,
        "area:aeroway"@ != "type"@,
        "area:aeroway"@ != "water"@,
        "area:aeroway"@ != "waterway"@,
        "barrier"@ != "building"@,
        "barrier"@ != "building:part"@,
        "barrier"@ != "door"@,
        "barrier"@ != "emergency"@,
        "barrier"@ != "entrance"@,
        "barrier"@ != "highway"@,
        "barrier"@ != "historic"@,
        "barrier"@ != "landuse"@,
        "barrier"@ != "leisure"@,
        "barrier"@ != "man_made"@,
        "barrier"@ != "natural"@,
        "barrier"@ != "place"@,
        "barrier"@ != "power"@,
        "barrier"@ != "railway"@,
        "barrier"@ != "roller_coaster"@,
        "barrier"@ != "service"@,
        "barrier"@ != "tomb"@,
        "barrier"@ != "tourism"@,
        "barrier"@ != "type"@,
        "barrier"@ != "water"@,
        "barrier"@ != "waterway"@,
        "building"@ != "building:part"@,
        "building"@ != "door"@,
        "building"@ != "emergency"@,
        "building"@ != "entrance"@,
        "building"@ != "highway"@,
        "building"@ != "historic"@,
        "building"@ != "landuse"@,
        "building"@ != "leisure"@,
        "building"@ != "man_made"@,
        "building"@ != "natural"@,
        "building"@ != "place"@,
        "building"@ != "power"@,
        "building"@ != "railway"@,
        "building"@ != "roller_coaster"@,
        "building"@ != "service"@,
        "building"@ != "tomb"@,
        "building"@ != "tourism"@,
        "building"@ != "type"@,
        "building"@ != "water"@,
        "building"@ != "waterway"@,
        "building:part"@ != "door"@,
        "building:part"@ != "emergency"@,
        "building:part"@ != "entrance"@,
        "building:part"@ != "highway"@,
        "building:part"@ != "historic"@,
        "building:part"@ != "landuse"@,
        "building:part"@ != "leisure"@,
        "building:part"@ != "man_made"@,
        "building:part"@ != "natural"@,
        "building:part"@ != "place"@,
        "building:part"@ != "power"@,
        "building:part"@ != "railway"@,
        "building:part"@ != "roller_coaster"@,
        "building:part"@ != "service"@,
        "building:part"@ != "tomb"@,
        "building:part"@ != "tourism"@,
        "building:part"@ != "type"@,
        "building:part"@ != "water"@,
        "building:part"@ != "waterway"@,
        "door"@ != "emergency"@,
        "door"@ != "entrance"@,
        "door"@ != "highway"@,
        "door"@ != "historic"@,
        "door"@ != "landuse"@,
        "door"@ != "leisure"@,
        "door"@ != "man_made"@,
        "door"@ != "natural"@,
        "door"@ != "place"@,
        "door"@ != "power"@,
        "door"@ != "railway"@,
        "door"@ != "roller_coaster"@,
        "door"@ != "service"@,
        "door"@ != "tomb"@,
        "door"@ != "tourism"@,
        "door"@ != "type"@,
        "door"@ != "water"@,
        "door"@ != "waterway"@,
        "emergency"@ != "entrance"@,
        "emergency"@ != "highway"@,
        "emergency"@ != "historic"@,
        "emergency"@ != "landuse"@,
        "emergency"@ != "leisure"@,
        "emergency"@ != "man_made"@,
        "emergency"@ != "natural"@,
        "emergency"@ != "place"@,
        "emergency"@ != "power"@,
        "emergency"@ != "railway"@,
        "emergency"@ != "roller_coaster"@,
        "emergency"@ != "service"@,
        "emergency"@ != "tomb"@,
        "emergency"@ != "tourism"@,
        "emergency"@ != "type"@,
        "emergency"@ != "water"@,
        "emergency"@ != "waterway"@,
        "entrance"@ != "highway"@,
        "entrance"@ != "historic"@,
        "entrance"@ != "landuse"@,
        "entrance"@ != "leisure"@,
        "entrance"@ != "man_made"@,
        "entrance"@ != "natural"@,
        "entrance"@ != "place"@,
        "entrance"@ != "power"@,
        "entrance"@ != "railway"@,
        "entrance"@ != "roller_coaster"@,
        "entrance"@ != "service"@,
        "entrance"@ != "tomb"@,
        "entrance"@ != "tourism"@,
        "entrance"@ != "type"@,
        "entrance"@ != "water"@,
        "entrance"@ != "waterway"@,
        "highway"@ != "historic"@,
        "highway"@ != "landuse"@,
        "highway"@ != "leisure"@,
        "highway"@ != "man_made"@,
        "highway"@ != "natural"@,
        "highway"@ != "place"@,
        "highway"@ != "power"@,
        "highway"@ != "railway"@,
        "highway"@ != "roller_coaster"@,
        "highway"@ != "service"@,
        "highway"@ != "tomb"@,
        "highway"@ != "tourism"@,
        "highway"@ != "type"@,
        "highway"@ != "water"@,
        "highway"@ != "waterway"@,
        "historic"@ != "landuse"@,
        "historic"@ != "leisure"@,
        "historic"@ != "man_made"@,
        "historic"@ != "natural"@,
        "historic"@ != "place"@,
        "historic"@ != "power"@,
        "historic"@ != "railway"@,
        "historic"@ != "roller_coaster"@,
        "historic"@ != "service"@,
        "historic"@ != "tomb"@,
        "historic"@ != "tourism"@,
        "historic"@ != "type"@,
        "historic"@ != "water"@,
        "historic"@ != "waterway"@,
        "landuse"@ != "leisure"@,
        "landuse"@ != "man_made"@,
        "landuse"@ != "natural"@,
        "landuse"@ != "place"@,
        "landuse"@ != "power"@,
        "landuse"@ != "railway"@,
        "landuse"@ != "roller_coaster"@,
        "landuse"@ != "service"@,
        "landuse"@ != "tomb"@,
        "landuse"@ != "tourism"@,
        "landuse"@ != "type"@,
        "landuse"@ != "water"@,
        "landuse"@ != "waterway"@,
        "leisure"@ != "man_made"@,
        "leisure"@ != "natural"@,
        "leisure"@ != "place"@,
        "leisure"@ != "power"@,
        "leisure"@ != "railway"@,
        "leisure"@ != "roller_coaster"@,
        "leisure"@ != "service"@,
        "leisure"@ != "tomb"@,
        "leisure"@ != "tourism"@,
        "leisure"@ != "type"@,
        "leisure"@ != "water"@,
        "leisure"@ != "waterway"@,
        "man_made"@ != "natural"@,
        "man_made"@ != "place"@,
        "man_made"@ != "power"@,
        "man_made"@ != "railway"@,
        "man_made"@ != "roller_coaster"@,
        "man_made"@ != "service"@,
        "man_made"@ != "tomb"@,
        "man_made"@ != "tourism"@,
        "man_made"@ != "type"@,
        "man_made"@ != "water"@,
        "man_made"@ != "waterway"@,
        "natural"@ != "place"@,
        "natural"@ != "power"@,
        "natural"@ != "railway"@,
        "natural"@ != "roller_coaster"@,
        "natural"@ != "service"@,
        "natural"@ != "tomb"@,
        "natural"@ != "tourism"@,
        "natural"@ != "type"@,
        "natural"@ != "water"@,
        "natural"@ != "waterway"@,
        "place"@ != "power"@,
        "place"@ != "railway"@,
        "place"@ != "roller_coaster"@,
        "place"@ != "service"@,
        "place"@ != "tomb"@,
        "place"@ != "tourism"@,
        "place"@ != "type"@,
        "place"@ != "water"@,
        "place"@ != "waterway"@,
        "power"@ != "railway"@,
        "power"@ != "roller_coaster"@,
        "power"@ != "service"@,
        "power"@ != "tomb"@,
        "power"@ != "tourism"@,
        "power"@ != "type"@,
        "power"@ != "water"@,
        "power"@ != "waterway"@,
        "railway"@ != "roller_coaster"@,
        "railway"@ != "service"@,
        "railway"@ != "tomb"@,
        "railway"@ != "tourism"@,
        "railway"@ != "type"@,
        "railway"@ != "water"@,
        "railway"@ != "waterway"@,
        "roller_coaster"@ != "service"@,
        "roller_coaster"@ != "tomb"@,
        "roller_coaster"@ != "tourism"@,
        "roller_coaster"@ != "type"@,
        "roller_coaster"@ != "water"@,
        "roller_coaster"@ != "waterway"@,
        "service"@ != "tomb"@,
        "service"@ != "tourism"@,
        "service"@ != "type"@,
        "service"@ != "water"@,
        "service"@ != "waterway"@,
        "tomb"@ != "tourism"@,
        "tomb"@ != "type"@,
        "tomb"@ != "water"@,
        "tomb"@ != "waterway"@,
        "tourism"@ != "type"@,
        "tourism"@ != "water"@,
        "tourism"@ != "waterway"@,
        "type"@ != "water"@,
        "type"@ != "waterway"@,
        "water"@ != "waterway"@,
{
    reveal_strlit("advertising");
    reveal_strlit("aeroway");
    reveal_strlit("amenity");
    reveal_strlit("area:aeroway");
    reveal_strlit("barrier");
    reveal_strlit("building");
    reveal_strlit("building:part");
    reveal_strlit("door");
    reveal_strlit("emergency");
    reveal_strlit("entrance");
    reveal_strlit("highway");
    reveal_strlit("historic");
    reveal_strlit("landuse");
    reveal_strlit("leisure");
    reveal_strlit("man_made");
    reveal_strlit("natural");
    reveal_strlit("place");
    reveal_strlit("power");
    reveal_strlit("railway");
    reveal_strlit("roller_coaster");
    reveal_strlit("service");
    reveal_strlit("tomb");
    reveal_strlit("tourism");
    reveal_strlit("type");
    reveal_strlit("water");
    reveal_strlit("waterway");
    assert("aeroway"@[0] == 'a');
    assert("aeroway"@[1] == 'e');
    assert("amenity"@[0] == 'a');
    assert("amenity"@[1] == 'm');
    assert("barrier"@[0] == 'b');
    assert("building"@[0] == 'b');
    assert("door"@[0] == 'd');
    assert("entrance"@[0] == 'e');
    assert("highway"@[0] == 'h');
    assert("historic"@[0] == 'h');
    assert("landuse"@[0] == 'l');
    assert("landuse"@[1] == 'a');
    assert("leisure"@[0] == 'l');
    assert("leisure"@[1] == 'e');
    assert("man_made"@[0] == 'm');
    assert("natural"@[0] == 'n');
    assert("place"@[0] == 'p');
    assert("place"@[1] == 'l');
    assert("power"@[0] == 'p');
    assert("power"@[1] == 'o');
    assert("railway"@[0] == 'r');
    assert("service"@[0] == 's');
    assert("tomb"@[0] == 't');
    assert("tomb"@[1] == 'o');
    assert("tourism"@[0] == 't');
    assert("type"@[0] == 't');
    assert("type"@[1] == 'y');
    assert("water"@[0] == 'w');
    assert("waterway"@[0] == 'w');
    assert("advertising"@.len() == 11);
    assert("aeroway"@.len() == 7);
    assert("amenity"@.len() == 7);
    assert("area:aeroway"@.len() == 12);
    assert("barrier"@.len() == 7);
    assert("building"@.len() == 8);
    assert("building:part"@.len() == 13);
    assert("door"@.len() == 4);
    assert("emergency"@.len() == 9);
    assert("entrance"@.len() == 8);
    assert("highway"@.len() == 7);
    assert("historic"@.len() == 8);
    assert("landuse"@.len() == 7);
    assert("leisure"@.len() == 7);
    assert("man_made"@.len() == 8);
    assert("natural"@.len() == 7);
    assert("place"@.len() == 5);
    assert("power"@.len() == 5);
    assert("railway"@.len() == 7);
    assert("roller_coaster"@.len() == 14);
    assert("service"@.len() == 7);
    assert("tomb"@.len() == 4);
    assert("tourism"@.len() == 7);
    assert("type"@.len() == 4);
    assert("water"@.len() == 5);
    assert("waterway"@.len() == 8);
}

/// A way with a single tag is drawn by the generator of its key, whatever the value.
pub proof fn law_way_with_one_tag(way: ProcessedWay, suppressed: Set<u64>)
    requires
        !suppressed.contains(way.id),
    ensures
        ({
            let keys = way.tags@.dom();
            let drawn = generator_of(ProcessedElement::Way(way), suppressed);
            &&& keys == set!["building"@] ==> drawn == Some(Generator::Buildings)
            &&& keys == set!["building:part"@] ==> drawn == Some(Generator::Buildings)
            &&& keys == set!["highway"@] ==> drawn == Some(Generator::Highways)
            &&& keys == set!["landuse"@] ==> drawn == Some(Generator::Landuse)
            &&& keys == set!["natural"@] ==> drawn == Some(Generator::Natural)
            &&& keys == set!["amenity"@] ==> drawn == Some(Generator::Amenities)
            &&& keys == set!["leisure"@] ==> drawn == Some(Generator::Leisure)
            &&& keys == set!["barrier"@] ==> drawn == Some(Generator::Barriers)
            &&& keys == set!["waterway"@] ==> drawn is Some
            &&& keys == set!["railway"@] ==> drawn == Some(Generator::Railways)
            &&& keys == set!["roller_coaster"@] ==> drawn == Some(Generator::RollerCoaster)
            &&& keys == set!["aeroway"@] ==> drawn == Some(Generator::Aeroway)
            &&& keys == set!["area:aeroway"@] ==> drawn == Some(Generator::Aeroway)
            &&& keys == set!["man_made"@] ==> drawn == Some(Generator::ManMade)
            &&& keys == set!["power"@] ==> drawn == Some(Generator::Power)
            &&& keys == set!["place"@] ==> drawn == Some(Generator::Place)
            &&& keys == Set::<Seq<char>>::empty() ==> drawn is None
        }),
{
    lemma_keys_differ();
    law_way_generator(way, suppressed);
    let keys = way.tags@.dom();
    assert(way.tags@.contains_key("building"@) == keys.contains("building"@));
    assert(way.tags@.contains_key("building:part"@) == keys.contains("building:part"@));
    assert(way.tags@.contains_key("highway"@) == keys.contains("highway"@));
    assert(way.tags@.contains_key("landuse"@) == keys.contains("landuse"@));
    assert(way.tags@.contains_key("natural"@) == keys.contains("natural"@));
    assert(way.tags@.contains_key("amenity"@) == keys.contains("amenity"@));
    assert(way.tags@.contains_key("leisure"@) == keys.contains("leisure"@));
    assert(way.tags@.contains_key("barrier"@) == keys.contains("barrier"@));
    assert(way.tags@.contains_key("waterway"@) == keys.contains("waterway"@));
    assert(way.tags@.contains_key("railway"@) == keys.contains("railway"@));
    assert(way.tags@.contains_key("roller_coaster"@) == keys.contains("roller_coaster"@));
    assert(way.tags@.contains_key("aeroway"@) == keys.contains("aeroway"@));
    assert(way.tags@.contains_key("area:aeroway"@) == keys.contains("area:aeroway"@));
    assert(way.tags@.contains_key("service"@) == keys.contains("service"@));
    assert(way.tags@.contains_key("tomb"@) == keys.contains("tomb"@));
    assert(way.tags@.contains_key("man_made"@) == keys.contains("man_made"@));
    assert(way.tags@.contains_key("power"@) == keys.contains("power"@));
    assert(way.tags@.contains_key("place"@) == keys.contains("place"@));
}

/// A node with a single tag is drawn by the generator of its key, whatever the value.
pub proof fn law_node_with_one_tag(node: ProcessedNode, suppressed: Set<u64>)
    requires
        !suppressed.contains(node.id),
    ensures
        ({
            let keys = node.tags@.dom();
            let drawn = generator_of(ProcessedElement::Node(node), suppressed);
            &&& keys == set!["door"@] ==> drawn == Some(Generator::Doors)
            &&& keys == set!["entrance"@] ==> drawn == Some(Generator::Doors)
            &&& keys == set!["amenity"@] ==> drawn == Some(Generator::Amenities)
            &&& keys == set!["barrier"@] ==> drawn == Some(Generator::BarrierNodes)
            &&& keys == set!["highway"@] ==> drawn == Some(Generator::Highways)
            &&& keys == set!["tourism"@] ==> drawn == Some(Generator::Tourisms)
            &&& keys == set!["man_made"@] ==> drawn == Some(Generator::ManMadeNodes)
            &&& keys == set!["power"@] ==> drawn == Some(Generator::PowerNodes)
            &&& keys == set!["historic"@] ==> drawn == Some(Generator::Historic)
            &&& keys == set!["emergency"@] ==> drawn == Some(Generator::Emergency)
            &&& keys == set!["advertising"@] ==> drawn == Some(Generator::Advertising)
            &&& keys == Set::<Seq<char>>::empty() ==> drawn is None
        }),
{
    lemma_keys_differ();
    law_node_generator(node, suppressed);
    let keys = node.tags@.dom();
    assert(node.tags@.contains_key("door"@) == keys.contains("door"@));
    assert(node.tags@.contains_key("entrance"@) == keys.contains("entrance"@));
    assert(node.tags@.contains_key("natural"@) == keys.contains("natural"@));
    assert(node.tags@.contains_key("amenity"@) == keys.contains("amenity"@));
    assert(node.tags@.contains_key("barrier"@) == keys.contains("barrier"@));
    assert(node.tags@.contains_key("highway"@) == keys.contains("highway"@));
    assert(node.tags@.contains_key("tourism"@) == keys.contains("tourism"@));
    assert(node.tags@.contains_key("man_made"@) == keys.contains("man_made"@));
    assert(node.tags@.contains_key("power"@) == keys.contains("power"@));
    assert(node.tags@.contains_key("historic"@) == keys.contains("historic"@));
    assert(node.tags@.contains_key("emergency"@) == keys.contains("emergency"@));
    assert(node.tags@.contains_key("advertising"@) == keys.contains("advertising"@));
}

/// A relation with a single tag is drawn by the generator of its key, whatever the value.
pub proof fn law_relation_with_one_tag(relation: ProcessedRelation, suppressed: Set<u64>)
    requires
        !suppressed.contains(relation.id),
    ensures
        ({
            let keys = relation.tags@.dom();
            let drawn = generator_of(ProcessedElement::Relation(relation), suppressed);
            &&& keys == set!["building"@] ==> drawn == Some(Generator::BuildingFromRelation)
            &&& keys == set!["building:part"@] ==> drawn == Some(Generator::BuildingFromRelation)
            &&& keys == set!["water"@] ==> drawn == Some(Generator::WaterAreasFromRelation)
            &&& keys == set!["natural"@] ==> drawn is Some
            &&& keys == set!["landuse"@] ==> drawn == Some(Generator::LanduseFromRelation)
            &&& keys == set!["man_made"@] ==> drawn == Some(Generator::ManMade)
            &&& keys == Set::<Seq<char>>::empty() ==> drawn is None
        }),
{
    lemma_keys_differ();
    law_relation_generator(relation, suppressed);
    let keys = relation.tags@.dom();
    assert(relation.tags@.contains_key("building"@) == keys.contains("building"@));
    assert(relation.tags@.contains_key("building:part"@) == keys.contains("building:part"@));
    assert(relation.tags@.contains_key("type"@) == keys.contains("type"@));
    assert(relation.tags@.contains_key("water"@) == keys.contains("water"@));
    assert(relation.tags@.contains_key("natural"@) == keys.contains("natural"@));
    assert(relation.tags@.contains_key("landuse"@) == keys.contains("landuse"@));
    assert(relation.tags@.contains_key("leisure"@) == keys.contains("leisure"@));
    assert(relation.tags@.contains_key("man_made"@) == keys.contains("man_made"@));
}

/// The ways that are not drawn on their own are told by the relations alone: a way is
/// suppressed if and only if some relation of the type building has it as an outer member and
/// has a part.
pub proof fn law_suppressed_by_relations(elements: Seq<ProcessedElement>, id: u64)
    ensures
        is_suppressed(elements, id) <==> exists|e: int, p: int, o: int|
            {
                &&& 0 <= e < elements.len()
                &&& #[trigger] is_building_part(elements[e], p)
                &&& #[trigger] is_building_outline(elements[e], o, id)
            },
{
    if is_suppressed(elements, id) {
        let e = choose|e: int|
            0 <= e < elements.len() && (#[trigger] elements[e] matches ProcessedElement::Relation(
                relation,
            ) && is_outline_in(relation, id));
        let relation = elements[e]->Relation_0;
        let p = choose|p: int|
            0 <= p < relation.members@.len() && (#[trigger] relation.members@[p]).role
                == ProcessedMemberRole::Part;
        let o = choose|o: int|
            0 <= o < relation.members@.len() && (#[trigger] relation.members@[o]).role
                == ProcessedMemberRole::Outer && relation.members@[o].way.id == id;
        assert(is_building_part(elements[e], p));
        assert(is_building_outline(elements[e], o, id));
    }
    if exists|e: int, p: int, o: int|
        {
            &&& 0 <= e < elements.len()
            &&& #[trigger] is_building_part(elements[e], p)
            &&& #[trigger] is_building_outline(elements[e], o, id)
        } {
        let (e, p, o) = choose|e: int, p: int, o: int|
            {
                &&& 0 <= e < elements.len()
                &&& #[trigger] is_building_part(elements[e], p)
                &&& #[trigger] is_building_outline(elements[e], o, id)
            };
        let relation = elements[e]->Relation_0;
        assert(relation.members@[p].role == ProcessedMemberRole::Part);
        assert(relation.members@[o].role == ProcessedMemberRole::Outer);
        assert(elements[e] matches ProcessedElement::Relation(r)
            && is_outline_in(r, id));
    }
}

/// The element is a relation of the type building whose member with the given number is a
/// part.
pub open spec fn is_building_part(element: ProcessedElement, p: int) -> bool {
    element matches ProcessedElement::Relation(relation) && relation.tags@.contains_key("type"@)
        && relation.tags@["type"@]@ == "building"@ && 0 <= p < relation.members@.len()
        && relation.members@[p].role == ProcessedMemberRole::Part
}

/// The element is a relation of the type building whose member with the given number is the
/// way as an outline.
pub open spec fn is_building_outline(element: ProcessedElement, o: int, id: u64) -> bool {
    element matches ProcessedElement::Relation(relation) && relation.tags@.contains_key("type"@)
        && relation.tags@["type"@]@ == "building"@ && 0 <= o < relation.members@.len()
        && relation.members@[o].role == ProcessedMemberRole::Outer && relation.members@[o].way.id
        == id
}

} // verus!
