use arnis::blocks::{Block, Placement};
use arnis::coordinate_system::XZBBox;
use arnis::data_processing::elements::{
    process_one_element, suppressed_building_outlines, Generator, ProcessedElement,
    ProcessedMember, ProcessedMemberRole, ProcessedNode, ProcessedRelation, ProcessedWay, Tags,
};
use arnis::data_processing::generation::{
    bbox_text, element_message, finishing_steps, generation_steps, has_cities, spawn_warning,
    FinishingStep, GenerationOptions, Step, WorldFormat,
};
use arnis::data_processing::ground::{
    chunk_coords, chunk_of, columns_of_chunk, ground_column, ground_of_columns, ground_report,
    total_chunks, Column, MIN_Y,
};
use arnis::data_processing::preview::{
    preview_notice, MapPreviewInfo, PreviewNotice, PreviewResult, MAX_MAP_PREVIEW_AREA,
};
use arnis::data_processing::stages::{
    plan_stages, should_parallelize_priority, thread_count, Stage,
};
use std::collections::{HashMap, HashSet};
use std::path::PathBuf;
use std::sync::Arc;

fn tags(pairs: &[(&str, &str)]) -> Tags {
    let mut tags = Tags::new();
    for (key, value) in pairs {
        tags.insert(key.to_string(), value.to_string());
    }
    tags
}

fn way(id: u64, pairs: &[(&str, &str)]) -> ProcessedWay {
    ProcessedWay { id, nodes: Vec::new(), tags: tags(pairs) }
}

fn way_generator(pairs: &[(&str, &str)]) -> Option<Generator> {
    process_one_element(&ProcessedElement::Way(way(1, pairs)), &HashSet::new())
}

fn node_generator(pairs: &[(&str, &str)]) -> Option<Generator> {
    let node = ProcessedNode { id: 1, tags: tags(pairs), x: 0, z: 0 };
    process_one_element(&ProcessedElement::Node(node), &HashSet::new())
}

fn relation(pairs: &[(&str, &str)], members: Vec<(ProcessedMemberRole, u64)>) -> ProcessedElement {
    ProcessedElement::Relation(ProcessedRelation {
        id: 1,
        tags: tags(pairs),
        members: members
            .into_iter()
            .map(|(role, id)| ProcessedMember { role, way: Arc::new(way(id, &[])) })
            .collect(),
    })
}

fn relation_generator(pairs: &[(&str, &str)]) -> Option<Generator> {
    process_one_element(&relation(pairs, Vec::new()), &HashSet::new())
}

#[test]
fn priority_parallelization_matches_staged_plan() {
    assert!(!should_parallelize_priority(0));
    assert!(should_parallelize_priority(1));
    assert!(should_parallelize_priority(2));
    assert!(should_parallelize_priority(3));
    assert!(should_parallelize_priority(4));
    assert!(should_parallelize_priority(5));
    assert!(!should_parallelize_priority(6));
    assert!(!should_parallelize_priority(7));
}

#[test]
fn ways_are_drawn_by_the_first_generator_that_knows_them() {
    let cases: Vec<(&[(&str, &str)], Generator)> = vec![
        (&[("building", "yes"), ("highway", "path")], Generator::Buildings),
        (&[("building:part", "yes")], Generator::Buildings),
        (&[("highway", "path"), ("landuse", "grass")], Generator::Highways),
        (&[("landuse", "grass"), ("natural", "wood")], Generator::Landuse),
        (&[("natural", "wood"), ("amenity", "bench")], Generator::Natural),
        (&[("amenity", "bench"), ("leisure", "park")], Generator::Amenities),
        (&[("leisure", "park"), ("barrier", "wall")], Generator::Leisure),
        (&[("barrier", "wall"), ("waterway", "dock")], Generator::Barriers),
        (&[("waterway", "dock"), ("railway", "rail")], Generator::WaterAreaFromWay),
        (&[("waterway", "river"), ("railway", "rail")], Generator::Waterways),
        (&[("railway", "rail"), ("roller_coaster", "track")], Generator::Railways),
        (&[("roller_coaster", "track"), ("aeroway", "runway")], Generator::RollerCoaster),
        (&[("aeroway", "runway")], Generator::Aeroway),
        (&[("area:aeroway", "runway"), ("service", "siding")], Generator::Aeroway),
        (&[("service", "siding"), ("tomb", "pyramid")], Generator::Siding),
        (&[("service", "alley"), ("tomb", "pyramid"), ("man_made", "pier")], Generator::Pyramid),
        (&[("tomb", "mound"), ("man_made", "pier"), ("power", "line")], Generator::ManMade),
        (&[("power", "line"), ("place", "square")], Generator::Power),
        (&[("place", "square")], Generator::Place),
    ];
    for (pairs, generator) in cases {
        assert_eq!(way_generator(pairs), Some(generator), "{:?}", pairs);
    }
    assert_eq!(way_generator(&[("service", "alley"), ("tourism", "hotel")]), None);
    assert_eq!(way_generator(&[]), None);
}

#[test]
fn nodes_are_drawn_by_the_first_generator_that_knows_them() {
    let cases: Vec<(&[(&str, &str)], Generator)> = vec![
        (&[("door", "yes"), ("amenity", "bench")], Generator::Doors),
        (&[("entrance", "main"), ("natural", "tree")], Generator::Doors),
        (&[("natural", "tree"), ("amenity", "bench")], Generator::Natural),
        (&[("natural", "peak"), ("amenity", "bench")], Generator::Amenities),
        (&[("barrier", "bollard"), ("highway", "crossing")], Generator::BarrierNodes),
        (&[("highway", "crossing"), ("tourism", "artwork")], Generator::Highways),
        (&[("tourism", "artwork"), ("man_made", "mast")], Generator::Tourisms),
        (&[("man_made", "mast"), ("power", "pole")], Generator::ManMadeNodes),
        (&[("power", "pole"), ("historic", "ruin")], Generator::PowerNodes),
        (&[("historic", "ruin"), ("emergency", "hydrant")], Generator::Historic),
        (&[("emergency", "hydrant"), ("advertising", "column")], Generator::Emergency),
        (&[("advertising", "column")], Generator::Advertising),
    ];
    for (pairs, generator) in cases {
        assert_eq!(node_generator(pairs), Some(generator), "{:?}", pairs);
    }
    assert_eq!(node_generator(&[("natural", "peak")]), None);
}

#[test]
fn relations_are_drawn_by_the_first_generator_that_knows_them() {
    let cases: Vec<(&[(&str, &str)], Generator)> = vec![
        (&[("building", "yes"), ("water", "lake")], Generator::BuildingFromRelation),
        (&[("building:part", "yes")], Generator::BuildingFromRelation),
        (&[("type", "building"), ("natural", "water")], Generator::BuildingFromRelation),
        (&[("water", "lake"), ("natural", "wood")], Generator::WaterAreasFromRelation),
        (&[("natural", "water")], Generator::WaterAreasFromRelation),
        (&[("natural", "bay")], Generator::WaterAreasFromRelation),
        (&[("natural", "wood"), ("landuse", "grass")], Generator::NaturalFromRelation),
        (&[("landuse", "grass"), ("leisure", "park")], Generator::LanduseFromRelation),
        (&[("leisure", "park"), ("man_made", "pier")], Generator::LeisureFromRelation),
        (&[("leisure", "pitch"), ("man_made", "pier")], Generator::ManMade),
    ];
    for (pairs, generator) in cases {
        assert_eq!(relation_generator(pairs), Some(generator), "{:?}", pairs);
    }
    assert_eq!(relation_generator(&[("type", "multipolygon"), ("leisure", "pitch")]), None);
}

#[test]
fn outlines_of_buildings_with_parts_are_suppressed() {
    let outer = ProcessedMemberRole::Outer;
    let inner = ProcessedMemberRole::Inner;
    let part = ProcessedMemberRole::Part;
    let elements = vec![
        relation(&[("type", "building")], vec![(outer, 1), (part, 2), (inner, 3)]),
        relation(&[("type", "building")], vec![(outer, 4)]),
        relation(&[("type", "multipolygon"), ("building", "yes")], vec![(outer, 5), (part, 6)]),
        ProcessedElement::Way(way(7, &[("building", "yes")])),
        relation(&[("type", "building")], vec![(part, 8), (outer, 9)]),
    ];
    let suppressed = suppressed_building_outlines(&elements);
    assert_eq!(suppressed, HashSet::from([1, 9]));

    let building = |id| ProcessedElement::Way(way(id, &[("building", "yes")]));
    assert_eq!(process_one_element(&building(1), &suppressed), None);
    assert_eq!(process_one_element(&building(2), &suppressed), Some(Generator::Buildings));
    let road = ProcessedElement::Way(way(1, &[("highway", "path")]));
    assert_eq!(process_one_element(&road, &suppressed), Some(Generator::Highways));
}

#[test]
fn stages_are_runs_of_equal_priority() {
    let stages = plan_stages(&vec![0, 0, 3, 3, 3, 3, 3, 2, 6, 6, 3], 1);
    let stage = |start, end, batch_size| Stage { start, end, batch_size };
    assert_eq!(
        stages,
        vec![
            stage(0, 2, None),
            stage(2, 7, Some(3)),
            stage(7, 8, None),
            stage(8, 10, None),
            stage(10, 11, None),
        ]
    );
    assert_eq!(plan_stages(&Vec::new(), 4), Vec::new());
}

#[test]
fn batches_number_at_most_two_per_thread() {
    for threads in 1..9 {
        for len in 2..60 {
            let stages = plan_stages(&vec![1; len], threads);
            let size = stages[0].batch_size.unwrap();
            assert_eq!(size, len.div_ceil((threads * 2).min(len).max(1)));
            assert!(len.div_ceil(size) <= threads * 2);
        }
    }
    assert_eq!(plan_stages(&vec![1, 1, 1], 0)[0].batch_size, Some(3));
}

#[test]
fn threads_are_counted() {
    assert_eq!(thread_count(Some(12)), 12);
    assert_eq!(thread_count(Some(0)), 1);
    assert_eq!(thread_count(None), 4);
}

#[test]
fn chunks_are_those_of_the_arithmetic_shift() {
    for block in [i32::MIN, -33, -32, -17, -16, -1, 0, 15, 16, 31, i32::MAX] {
        assert_eq!(chunk_of(block), block >> 4);
    }
}

#[test]
fn chunks_of_a_rectangle_are_gone_through_once() {
    let bbox = XZBBox { min_x: -20, max_x: 17, min_z: 5, max_z: 16 };
    assert_eq!(
        chunk_coords(&bbox),
        vec![(-2, 0), (-2, 1), (-1, 0), (-1, 1), (0, 0), (0, 1), (1, 0), (1, 1)]
    );
    assert_eq!(total_chunks(&bbox), 8);

    let mut columns = HashSet::new();
    for (chunk_x, chunk_z) in chunk_coords(&bbox) {
        let range = columns_of_chunk(&bbox, chunk_x, chunk_z);
        for x in range.min_x..=range.max_x {
            for z in range.min_z..=range.max_z {
                assert!(columns.insert((x, z)));
            }
        }
    }
    assert_eq!(columns.len(), 38 * 12);
    let corner = columns_of_chunk(&bbox, -2, 0);
    assert_eq!(corner, XZBBox { min_x: -20, max_x: -17, min_z: 5, max_z: 15 });
}

#[test]
fn largest_rectangle_has_its_chunks_counted() {
    let bbox = XZBBox { min_x: i32::MIN, max_x: i32::MAX, min_z: i32::MIN, max_z: i32::MAX };
    assert_eq!(total_chunks(&bbox), 1u64 << 56);
}

fn laid(
    existing: &[(i32, Block)],
    ground_y: i32,
    urban: bool,
    fill: bool,
) -> Vec<(i32, Block)> {
    let existing: HashMap<i32, Block> = existing.iter().copied().collect();
    let mut laid: Vec<(i32, Block)> = ground_column(3, 4, &existing, ground_y, urban, fill)
        .into_iter()
        .map(|p| {
            assert_eq!((p.x, p.z), (3, 4));
            (p.y, p.block)
        })
        .collect();
    laid.sort_by_key(|(y, _)| *y);
    laid
}

#[test]
fn ground_has_a_surface_and_bedrock() {
    assert_eq!(
        laid(&[], -62 + 10, false, false),
        vec![
            (MIN_Y, Block::Bedrock),
            (-54, Block::Dirt),
            (-53, Block::Dirt),
            (-52, Block::GrassBlock),
        ]
    );
    assert_eq!(laid(&[], -52, true, false)[3], (-52, Block::SmoothStone));
}

#[test]
fn ground_is_filled_with_stone() {
    let column = laid(&[(-63, Block::Other(9))], -58, false, true);
    assert_eq!(
        column,
        vec![
            (-64, Block::Bedrock),
            (-62, Block::Stone),
            (-61, Block::Stone),
            (-60, Block::Dirt),
            (-59, Block::Dirt),
            (-58, Block::GrassBlock),
        ]
    );
}

#[test]
fn ground_replaces_nothing_but_the_bottom() {
    let column = laid(
        &[(-64, Block::Stone), (-53, Block::Other(1)), (-52, Block::Other(2))],
        -52,
        false,
        false,
    );
    assert_eq!(column, vec![(-64, Block::Bedrock), (-54, Block::Dirt)]);
}

#[test]
fn stone_surface_is_left_alone() {
    assert_eq!(
        laid(&[(-52, Block::Stone), (-64, Block::Bedrock)], -52, false, false),
        Vec::new()
    );
}

#[test]
fn bedrock_wins_over_the_surface_layers() {
    assert_eq!(
        laid(&[], -63, false, true),
        vec![(-65, Block::Dirt), (-64, Block::Bedrock), (-63, Block::GrassBlock)]
    );
}

#[test]
fn ground_is_laid_once() {
    for (ground_y, start) in [(-55, vec![]), (-55, vec![(-55, Block::Stone)]), (-64, vec![])] {
        let mut existing: HashMap<i32, Block> = start.into_iter().collect();
        for p in ground_column(0, 0, &existing, ground_y, false, true) {
            existing.insert(p.y, p.block);
        }
        assert!(ground_column(0, 0, &existing, ground_y, false, true).is_empty());
        for y in MIN_Y..=ground_y {
            let gap = existing.get(&ground_y) == Some(&Block::Stone) && y >= ground_y - 2;
            assert!(gap || existing.contains_key(&y));
        }
    }
}

#[test]
fn ground_is_laid_anew_under_stone_at_the_very_bottom() {
    let mut existing = HashMap::from([(MIN_Y, Block::Stone)]);
    for p in ground_column(0, 0, &existing, MIN_Y, false, false) {
        existing.insert(p.y, p.block);
    }
    assert_eq!(ground_column(0, 0, &existing, MIN_Y, false, false).len(), 2);
}

#[test]
fn ground_of_columns_keeps_their_places() {
    let range = XZBBox { min_x: -1, max_x: 0, min_z: 5, max_z: 7 };
    let columns: Vec<Column> = (0..6)
        .map(|i| Column { existing: HashMap::new(), ground_y: i, urban: i % 2 == 1 })
        .collect();
    let ground = ground_of_columns(&range, &columns, false);
    let places = [(-1, 5), (-1, 6), (-1, 7), (0, 5), (0, 6), (0, 7)];
    assert_eq!(ground.len(), 6);
    for (i, (x, z)) in places.into_iter().enumerate() {
        let block = if i % 2 == 1 { Block::SmoothStone } else { Block::GrassBlock };
        assert!(ground[i].contains(&Placement { x, y: i as i32, z, block }));
        assert_eq!(ground[i].len(), 4);
        assert!(ground[i].iter().all(|p| (p.x, p.z) == (x, z)));
    }
}

#[test]
fn ground_is_reported_about_eighty_times() {
    let shown = |done, total| ground_report(done, total).map(f64::from_bits);
    assert_eq!(shown(1, 1), Some(90.0));
    assert_eq!(shown(1, 400), None);
    assert_eq!(shown(5, 400), Some(70.0 + (5.0 / 400.0) * 20.0));
    assert_eq!(shown(400, 400), Some(90.0));
    let reports = (1..=10_007).filter(|done| shown(*done, 10_007).is_some()).count();
    assert_eq!(reports, 81);
}

#[test]
fn steps_come_in_order() {
    let stages = plan_stages(&vec![0, 1], 2);
    assert_eq!(
        generation_steps(true, &stages),
        vec![
            Step::ConnectHighways,
            Step::SetGround,
            Step::FillOutlines,
            Step::CollectFootprints,
            Step::CollectCentroids,
            Step::Process(stages[0]),
            Step::Process(stages[1]),
            Step::FindUrbanGround,
            Step::LayGround,
            Step::Save,
        ]
    );
    assert!(!generation_steps(false, &stages).contains(&Step::CollectCentroids));
}

#[test]
fn cities_need_bounds_and_buildings() {
    assert!(has_cities(true, 1));
    assert!(!has_cities(true, 0));
    assert!(!has_cities(false, 1));
}

#[test]
fn saved_worlds_are_finished_off() {
    let path = || Some("world.mcworld".to_string());
    let java = WorldFormat::JavaAnvil;
    let bedrock = WorldFormat::BedrockMcWorld;
    let steps = finishing_steps(Ok(()), java, true, true, path()).unwrap();
    assert!(matches!(steps.as_slice(), [FinishingStep::UpdateSpawn]));
    assert!(finishing_steps(Ok(()), java, false, true, path()).unwrap().is_empty());
    assert!(finishing_steps(Ok(()), java, true, false, path()).unwrap().is_empty());
    let steps = finishing_steps(Ok(()), bedrock, true, true, path()).unwrap();
    assert!(matches!(steps.as_slice(), [FinishingStep::OpenMcworld(to)] if to == "world.mcworld"));
    assert!(finishing_steps(Ok(()), bedrock, true, true, None).unwrap().is_empty());
    let failed = finishing_steps(Err("disk full".to_string()), bedrock, true, true, path());
    assert_eq!(failed.unwrap_err(), "disk full");
}

#[test]
fn messages_of_a_generation() {
    assert_eq!(bbox_text("1", "2.5", "3", "-4"), "1,2.5,3,-4");
    assert_eq!(spawn_warning("odd"), "Failed to update spawn point Y coordinate: odd");
    assert_eq!(element_message(true, 1230, "way"), "(Element ID: 1230 / Type: way)");
    assert_eq!(element_message(false, 1230, "way"), "");
}

#[test]
fn options_hold_what_is_asked() {
    let options = GenerationOptions {
        path: PathBuf::from("world"),
        format: WorldFormat::JavaAnvil,
        level_name: Some("Level".to_string()),
        spawn_point: Some((1, 2)),
    };
    let copy = options.clone();
    assert_eq!(copy.path, PathBuf::from("world"));
    assert_eq!(copy.format, WorldFormat::JavaAnvil);
    assert_eq!(copy.level_name, Some("Level".to_string()));
    assert_eq!(copy.spawn_point, Some((1, 2)));
}

#[test]
fn preview_knows_its_area() {
    let bbox = XZBBox { min_x: -10, max_x: 90, min_z: 5, max_z: 55 };
    let info = MapPreviewInfo::new(PathBuf::from("world"), &bbox).clone();
    assert_eq!(info.world_path, PathBuf::from("world"));
    assert_eq!((info.min_x, info.max_x, info.min_z, info.max_z), (-10, 90, 5, 55));
    assert_eq!(info.world_area, 5000);
    assert!(info.is_within_limit());
}

#[test]
fn preview_is_drawn_up_to_the_limit() {
    let info = |max_x, max_z| {
        MapPreviewInfo::new(
            PathBuf::new(),
            &XZBBox { min_x: 0, max_x, min_z: 0, max_z },
        )
    };
    assert_eq!(MAX_MAP_PREVIEW_AREA, 44_160_000);
    assert!(info(6400, 6900).is_within_limit());
    assert!(!info(6401, 6900).is_within_limit());
    assert_eq!(info(i32::MAX, i32::MAX).world_area, (i32::MAX as i64) * (i32::MAX as i64));
}

#[test]
fn preview_results_are_told() {
    assert!(matches!(preview_notice(PreviewResult::Drawn), PreviewNotice::Ready));
    match preview_notice(PreviewResult::Failed("odd".to_string())) {
        PreviewNotice::Warning(text) => {
            assert_eq!(text, "Warning: Failed to generate map preview: odd");
        }
        other => panic!("{:?}", other),
    }
    match preview_notice(PreviewResult::Panicked) {
        PreviewNotice::Warning(text) => {
            assert_eq!(text, "Warning: Map preview generation panicked unexpectedly");
        }
        other => panic!("{:?}", other),
    }
}
