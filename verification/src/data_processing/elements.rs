//! Map elements, and which generator draws which of them.

use crate::text::same;
use std::collections::HashSet;
use std::sync::Arc;
use vstd::hash_map::StringHashMap;
use vstd::prelude::*;

verus! {

broadcast use vstd::std_specs::hash::group_hash_axioms;

/// The tags of an element.
pub type Tags = StringHashMap<String>;

/// A point of the map, with its place in the world.
pub struct ProcessedNode {
    pub id: u64,
    pub tags: Tags,
    pub x: i32,
    pub z: i32,
}

/// A line or an outline on the map.
pub struct ProcessedWay {
    pub id: u64,
    pub nodes: Vec<ProcessedNode>,
    pub tags: Tags,
}

/// What a way is in a relation.
#[derive(Clone, Copy, Debug, PartialEq, Eq, Structural)]
pub enum ProcessedMemberRole {
    Outer,
    Inner,
    Part,
}

/// A way in a relation.
pub struct ProcessedMember {
    pub role: ProcessedMemberRole,
    pub way: Arc<ProcessedWay>,
}

/// Ways that belong together.
pub struct ProcessedRelation {
    pub id: u64,
    pub tags: Tags,
    pub members: Vec<ProcessedMember>,
}

/// A map element.
pub enum ProcessedElement {
    Node(ProcessedNode),
    Way(ProcessedWay),
    Relation(ProcessedRelation),
}

/// What draws an element.
#[derive(Clone, Copy, Debug, PartialEq, Eq, Structural)]
pub enum Generator {
    Buildings,
    BuildingFromRelation,
    Highways,
    Aeroway,
    Siding,
    Landuse,
    LanduseFromRelation,
    Place,
    Natural,
    NaturalFromRelation,
    Amenities,
    Leisure,
    LeisureFromRelation,
    Barriers,
    BarrierNodes,
    Waterways,
    WaterAreaFromWay,
    WaterAreasFromRelation,
    Railways,
    RollerCoaster,
    Pyramid,
    Historic,
    ManMade,
    ManMadeNodes,
    Power,
    PowerNodes,
    Doors,
    Tourisms,
    Emergency,
    Advertising,
}

/// A condition on tags.
pub enum Tagged {
    /// There is a tag with this key.
    Has(Seq<char>),
    /// There is a tag with this key and this value.
    Is(Seq<char>, Seq<char>),
}

impl Tagged {
    /// The condition is met.
    pub open spec fn holds(self, tags: Map<Seq<char>, String>) -> bool {
        match self {
            Tagged::Has(key) => tags.contains_key(key),
            Tagged::Is(key, value) => tags.contains_key(key) && tags[key]@ == value,
        }
    }
}

/// The generators of ways, each with the condition under which it draws one. Of several
/// conditions that are met, the first counts.
pub open spec fn way_rules() -> Seq<(Tagged, Generator)> {
    seq![
        (Tagged::Has("building"@), Generator::Buildings),
        (Tagged::Has("building:part"@), Generator::Buildings),
        (Tagged::Has("highway"@), Generator::Highways),
        (Tagged::Has("landuse"@), Generator::Landuse),
        (Tagged::Has("natural"@), Generator::Natural),
        (Tagged::Has("amenity"@), Generator::Amenities),
        (Tagged::Has("leisure"@), Generator::Leisure),
        (Tagged::Has("barrier"@), Generator::Barriers),
        (Tagged::Is("waterway"@, "dock"@), Generator::WaterAreaFromWay),
        (Tagged::Has("waterway"@), Generator::Waterways),
        (Tagged::Has("railway"@), Generator::Railways),
        (Tagged::Has("roller_coaster"@), Generator::RollerCoaster),
        (Tagged::Has("aeroway"@), Generator::Aeroway),
        (Tagged::Has("area:aeroway"@), Generator::Aeroway),
        (Tagged::Is("service"@, "siding"@), Generator::Siding),
        (Tagged::Is("tomb"@, "pyramid"@), Generator::Pyramid),
        (Tagged::Has("man_made"@), Generator::ManMade),
        (Tagged::Has("power"@), Generator::Power),
        (Tagged::Has("place"@), Generator::Place),
    ]
}

/// The generators of nodes.
pub open spec fn node_rules() -> Seq<(Tagged, Generator)> {
    seq![
        (Tagged::Has("door"@), Generator::Doors),
        (Tagged::Has("entrance"@), Generator::Doors),
        (Tagged::Is("natural"@, "tree"@), Generator::Natural),
        (Tagged::Has("amenity"@), Generator::Amenities),
        (Tagged::Has("barrier"@), Generator::BarrierNodes),
        (Tagged::Has("highway"@), Generator::Highways),
        (Tagged::Has("tourism"@), Generator::Tourisms),
        (Tagged::Has("man_made"@), Generator::ManMadeNodes),
        (Tagged::Has("power"@), Generator::PowerNodes),
        (Tagged::Has("historic"@), Generator::Historic),
        (Tagged::Has("emergency"@), Generator::Emergency),
        (Tagged::Has("advertising"@), Generator::Advertising),
    ]
}

/// The generators of relations.
pub open spec fn relation_rules() -> Seq<(Tagged, Generator)> {
    seq![
        (Tagged::Has("building"@), Generator::BuildingFromRelation),
        (Tagged::Has("building:part"@), Generator::BuildingFromRelation),
        (Tagged::Is("type"@, "building"@), Generator::BuildingFromRelation),
        (Tagged::Has("water"@), Generator::WaterAreasFromRelation),
        (Tagged::Is("natural"@, "water"@), Generator::WaterAreasFromRelation),
        (Tagged::Is("natural"@, "bay"@), Generator::WaterAreasFromRelation),
        (Tagged::Has("natural"@), Generator::NaturalFromRelation),
        (Tagged::Has("landuse"@), Generator::LanduseFromRelation),
        (Tagged::Is("leisure"@, "park"@), Generator::LeisureFromRelation),
        (Tagged::Has("man_made"@), Generator::ManMade),
    ]
}

/// The generator of the first rule, from the rule with the given number on, whose
/// condition is met.
pub open spec fn first_match(
    rules: Seq<(Tagged, Generator)>,
    tags: Map<Seq<char>, String>,
    from: nat,
) -> Option<Generator>
    decreases rules.len() - from,
{
    if from >= rules.len() {
        None
    } else if rules[from as int].0.holds(tags) {
        Some(rules[from as int].1)
    } else {
        first_match(rules, tags, from + 1)
    }
}

/// The generator that draws an element, if one does. A way that would be drawn as a
/// building is not drawn if it is suppressed.
pub open spec fn generator_of(element: ProcessedElement, suppressed: Set<u64>) -> Option<
    Generator,
> {
    match element {
        ProcessedElement::Way(way) => {
            let found = first_match(way_rules(), way.tags@, 0);
            if found == Some(Generator::Buildings) && suppressed.contains(way.id) {
                None
            } else {
                found
            }
        },
        ProcessedElement::Node(node) => first_match(node_rules(), node.tags@, 0),
        ProcessedElement::Relation(relation) => first_match(relation_rules(), relation.tags@, 0),
    }
}

/// Whether there is a tag with the given key and value.
fn tag_is(tags: &Tags, key: &str, value: &str) -> (is: bool)
    ensures
        is == Tagged::Is(key@, value@).holds(tags@),
{
    match tags.get(key) {
        Some(found) => same(found.as_str(), value),
        None => false,
    }
}

fn way_generator(tags: &Tags) -> (generator: Option<Generator>)
    ensures
        generator == first_match(way_rules(), tags@, 0),
{
    proof {
        reveal_with_fuel(first_match, 20);
    }
    if tags.contains_key("building") || tags.contains_key("building:part") {
        Some(Generator::Buildings)
    } else if tags.contains_key("highway") {
        Some(Generator::Highways)
    } else if tags.contains_key("landuse") {
        Some(Generator::Landuse)
    } else if tags.contains_key("natural") {
        Some(Generator::Natural)
    } else if tags.contains_key("amenity") {
        Some(Generator::Amenities)
    } else if tags.contains_key("leisure") {
        Some(Generator::Leisure)
    } else if tags.contains_key("barrier") {
        Some(Generator::Barriers)
    } else if tags.contains_key("waterway") {
        if tag_is(tags, "waterway", "dock") {
            Some(Generator::WaterAreaFromWay)
        } else {
            Some(Generator::Waterways)
        }
    } else if tags.contains_key("railway") {
        Some(Generator::Railways)
    } else if tags.contains_key("roller_coaster") {
        Some(Generator::RollerCoaster)
    } else if tags.contains_key("aeroway") || tags.contains_key("area:aeroway") {
        Some(Generator::Aeroway)
    } else if tag_is(tags, "service", "siding") {
        Some(Generator::Siding)
    } else if tag_is(tags, "tomb", "pyramid") {
        Some(Generator::Pyramid)
    } else if tags.contains_key("man_made") {
        Some(Generator::ManMade)
    } else if tags.contains_key("power") {
        Some(Generator::Power)
    } else if tags.contains_key("place") {
        Some(Generator::Place)
    } else {
        None
    }
}

fn node_generator(tags: &Tags) -> (generator: Option<Generator>)
    ensures
        generator == first_match(node_rules(), tags@, 0),
{
    proof {
        reveal_with_fuel(first_match, 13);
    }
    if tags.contains_key("door") || tags.contains_key("entrance") {
        Some(Generator::Doors)
    } else if tag_is(tags, "natural", "tree") {
        Some(Generator::Natural)
    } else if tags.contains_key("amenity") {
        Some(Generator::Amenities)
    } else if tags.contains_key("barrier") {
        Some(Generator::BarrierNodes)
    } else if tags.contains_key("highway") {
        Some(Generator::Highways)
    } else if tags.contains_key("tourism") {
        Some(Generator::Tourisms)
    } else if tags.contains_key("man_made") {
        Some(Generator::ManMadeNodes)
    } else if tags.contains_key("power") {
        Some(Generator::PowerNodes)
    } else if tags.contains_key("historic") {
        Some(Generator::Historic)
    } else if tags.contains_key("emergency") {
        Some(Generator::Emergency)
    } else if tags.contains_key("advertising") {
        Some(Generator::Advertising)
    } else {
        None
    }
}

fn relation_generator(tags: &Tags) -> (generator: Option<Generator>)
    ensures
        generator == first_match(relation_rules(), tags@, 0),
{
    proof {
        reveal_with_fuel(first_match, 11);
    }
    if tags.contains_key("building") || tags.contains_key("building:part") || tag_is(
        tags,
        "type",
        "building",
    ) {
        Some(Generator::BuildingFromRelation)
    } else if tags.contains_key("water") || tag_is(tags, "natural", "water") || tag_is(
        tags,
        "natural",
        "bay",
    ) {
        Some(Generator::WaterAreasFromRelation)
    } else if tags.contains_key("natural") {
        Some(Generator::NaturalFromRelation)
    } else if tags.contains_key("landuse") {
        Some(Generator::LanduseFromRelation)
    } else if tag_is(tags, "leisure", "park") {
        Some(Generator::LeisureFromRelation)
    } else if tags.contains_key("man_made") {
        Some(Generator::ManMade)
    } else {
        None
    }
}

/// The generator that draws an element, if one does.
pub fn process_one_element(
    element: &ProcessedElement,
    suppressed_building_outlines: &HashSet<u64>,
) -> (generator: Option<Generator>)
    ensures
        generator == generator_of(*element, suppressed_building_outlines@),
{
    match element {
        ProcessedElement::Way(way) => {
            let found = way_generator(&way.tags);
            if let Some(Generator::Buildings) = found {
                if suppressed_building_outlines.contains(&way.id) {
                    return None;
                }
            }
            found
        },
        ProcessedElement::Node(node) => node_generator(&node.tags),
        ProcessedElement::Relation(relation) => relation_generator(&relation.tags),
    }
}

/// The relation is a building that is drawn part by part.
pub open spec fn is_drawn_by_parts(relation: ProcessedRelation) -> bool {
    &&& Tagged::Is("type"@, "building"@).holds(relation.tags@)
    &&& exists|m: int|
        0 <= m < relation.members@.len() && (#[trigger] relation.members@[m]).role
            == ProcessedMemberRole::Part
}

/// A relation that is drawn part by part has the way as an outline.
pub open spec fn is_outline_in(relation: ProcessedRelation, id: u64) -> bool {
    &&& is_drawn_by_parts(relation)
    &&& exists|m: int|
        0 <= m < relation.members@.len() && (#[trigger] relation.members@[m]).role
            == ProcessedMemberRole::Outer && relation.members@[m].way.id == id
}

/// The way with the given number is an outline of a building that is drawn part by part.
pub open spec fn is_suppressed(elements: Seq<ProcessedElement>, id: u64) -> bool {
    exists|e: int|
        0 <= e < elements.len() && (#[trigger] elements[e] matches ProcessedElement::Relation(
            relation,
        ) && is_outline_in(relation, id))
}

/// Whether a relation has a member that is a part.
fn has_part(members: &Vec<ProcessedMember>) -> (found: bool)
    ensures
        found == exists|m: int|
            0 <= m < members@.len() && (#[trigger] members@[m]).role == ProcessedMemberRole::Part,
{
    let mut m: usize = 0;
    while m < members.len()
        invariant
            m <= members@.len(),
            forall|i: int|
                0 <= i < m ==> (#[trigger] members@[i]).role != ProcessedMemberRole::Part,
        decreases members@.len() - m,
    {
        if members[m].role == ProcessedMemberRole::Part {
            return true;
        }
        m = m + 1;
    }
    false
}

/// The numbers of the ways that are not drawn as buildings of their own: the outlines of
/// the buildings that are drawn part by part.
pub fn suppressed_building_outlines(elements: &Vec<ProcessedElement>) -> (outlines: HashSet<u64>)
    ensures
        forall|id: u64| #[trigger] outlines@.contains(id) <==> is_suppressed(elements@, id),
{
    let mut outlines: HashSet<u64> = HashSet::new();
    let mut e: usize = 0;
    while e < elements.len()
        invariant
            e <= elements@.len(),
            forall|id: u64| #[trigger]
                outlines@.contains(id) <==> is_suppressed(elements@.take(e as int), id),
        decreases elements@.len() - e,
    {
        let ghost seen = elements@.take(e as int);
        let ghost next = elements@.take(e + 1);
        let ghost before = outlines@;
        proof {
            assert(next == seen.push(elements@[e as int]));
        }
        if let ProcessedElement::Relation(relation) = &elements[e] {
            if tag_is(&relation.tags, "type", "building") && has_part(&relation.members) {
                let mut m: usize = 0;
                while m < relation.members.len()
                    invariant
                        m <= relation.members@.len(),
                        forall|id: u64| #[trigger]
                            outlines@.contains(id) <==> (before.contains(id) || exists|i: int|
                                0 <= i < m && (#[trigger] relation.members@[i]).role
                                    == ProcessedMemberRole::Outer && relation.members@[i].way.id
                                    == id),
                    decreases relation.members@.len() - m,
                {
                    let member = &relation.members[m];
                    if member.role == ProcessedMemberRole::Outer {
                        outlines.insert(member.way.id);
                    }
                    m = m + 1;
                }
            }
        }
        proof {
            assert forall|id: u64| #[trigger]
                outlines@.contains(id) <==> is_suppressed(next, id) by {
                if is_suppressed(seen, id) {
                    let i = choose|i: int|
                        0 <= i < seen.len() && (#[trigger] seen[i] matches ProcessedElement::Relation(
                            relation,
                        ) && is_outline_in(relation, id));
                    assert(next[i] == seen[i]);
                }
                if is_suppressed(next, id) {
                    let i = choose|i: int|
                        0 <= i < next.len() && (#[trigger] next[i] matches ProcessedElement::Relation(
                            relation,
                        ) && is_outline_in(relation, id));
                    if i < e {
                        assert(next[i] == seen[i]);
                    }
                }
                if outlines@.contains(id) && !before.contains(id) {
                    assert(next[e as int] == elements@[e as int]);
                }
            }
        }
        e = e + 1;
    }
    proof {
        assert(elements@.take(e as int) == elements@);
    }
    outlines
}

/// An outline of a building that is drawn part by part is not drawn as a building of its
/// own.
pub proof fn law_outlines_not_drawn(
    elements: Seq<ProcessedElement>,
    suppressed: Set<u64>,
    relation: ProcessedRelation,
    way: ProcessedWay,
)
    requires
        forall|id: u64| #[trigger] suppressed.contains(id) <==> is_suppressed(elements, id),
        elements.contains(ProcessedElement::Relation(relation)),
        is_outline_in(relation, way.id),
    ensures
        generator_of(ProcessedElement::Way(way), suppressed) != Some(Generator::Buildings),
{
    let e = choose|e: int|
        0 <= e < elements.len() && elements[e] == ProcessedElement::Relation(relation);
    assert(elements[e] matches ProcessedElement::Relation(r) && is_outline_in(r, way.id));
    assert(is_suppressed(elements, way.id));
}

/// Suppression touches nothing but ways that are drawn as buildings: every other element
/// is drawn by the same generator whatever is suppressed.
pub proof fn law_suppression_of_buildings_only(
    element: ProcessedElement,
    suppressed: Set<u64>,
    other: Set<u64>,
)
    requires
        generator_of(element, other) != Some(Generator::Buildings),
        generator_of(element, other) is Some,
    ensures
        generator_of(element, suppressed) == generator_of(element, other),
{
}

} // verus!
