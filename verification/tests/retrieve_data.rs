use arnis::coordinate_system::{InvalidBounds, LLBBox};
use arnis::retrieve_data::adaptive::AdaptiveFetch;
use arnis::retrieve_data::area_name::{
    area_name, area_name_url, read_area_reply, without_city_prefix, without_lowered_prefix,
    AreaReply,
};
use arnis::retrieve_data::course::MOST_REPLIES;
use arnis::retrieve_data::overpass::{
    build_overpass_query, download_overpass_query, overpass_error_suggests_split,
    overpass_remark_suggests_split, read_http_reply, read_program_output, DownloadProgram,
    DownloadRequest, HttpReply,
};
use arnis::retrieve_data::reports::{judge_data, DataVerdict, WithoutData};
use arnis::retrieve_data::responses::{
    element_identity, merge_raw_overpass_responses, RawOverpassResponse,
};
use arnis::retrieve_data::servers::{
    api_servers, fallback_api_servers, server_order, ServerSearch,
};
use arnis::retrieve_data::tiles::{initial_tiles_for_bbox, split_bbox_into_grid};

fn bbox(min_lat: f64, min_lng: f64, max_lat: f64, max_lng: f64) -> LLBBox {
    LLBBox::new(
        min_lat.to_bits(),
        min_lng.to_bits(),
        max_lat.to_bits(),
        max_lng.to_bits(),
    )
    .unwrap()
}

fn degrees(tile: &LLBBox) -> (f64, f64, f64, f64) {
    (
        f64::from_bits(tile.min.lat),
        f64::from_bits(tile.min.lng),
        f64::from_bits(tile.max.lat),
        f64::from_bits(tile.max.lng),
    )
}

fn json(text: &str) -> serde_json::Value {
    serde_json::from_str(text).unwrap()
}

fn reply(elements: &[&str], remark: Option<&str>) -> RawOverpassResponse {
    RawOverpassResponse {
        elements: elements.iter().map(|text| json(text)).collect(),
        remark: remark.map(|text| text.to_string()),
    }
}

#[test]
fn overpass_query_omits_bare_way_union() {
    let (min_lat, min_lng, max_lat, max_lng) = (54.6, 25.2, 54.7, 25.3);
    let query = build_overpass_query(
        &format!("{}", min_lat),
        &format!("{}", min_lng),
        &format!("{}", max_lat),
        &format!("{}", max_lng),
    );

    assert!(query.contains("way[\"place\"]"));
    assert!(!query.contains("\n        way;\n"));
}

#[test]
fn query_begins_with_timeout_and_bounds() {
    let query = build_overpass_query("54.6", "25.2", "54.7", "25.3");
    assert!(query.starts_with("[out:json][timeout:360][bbox:54.6,25.2,54.7,25.3];\n    (\n"));
    assert!(query.ends_with("    .nodesinbbox out skel qt;"));
}

#[test]
fn initial_tiling_splits_large_bboxes() {
    let bbox = bbox(41.30, 2.05, 41.48, 2.26);
    let tiles = initial_tiles_for_bbox(bbox);

    assert!(tiles.len() > 1);
    assert_eq!(tiles.first().unwrap().min, bbox.min);
    assert_eq!(tiles.last().unwrap().max, bbox.max);
}

#[test]
fn initial_tiling_computes_in_double_precision() {
    let (a, b, c, d): (f64, f64, f64, f64) = (41.30, 2.05, 41.48, 2.26);
    let tiles = initial_tiles_for_bbox(bbox(a, b, c, d));
    let rows = (((c - a) / 0.03).ceil() as usize).clamp(1, 8);
    let columns = (((d - b) / 0.03).ceil() as usize).clamp(1, 8);
    assert_eq!(tiles.len(), rows * columns);
    let lat_step = (c - a) / rows as f64;
    let lng_step = (d - b) / columns as f64;
    for row in 0..rows {
        for column in 0..columns {
            let top = if row + 1 == rows { c } else { a + lat_step * (row + 1) as f64 };
            let right = if column + 1 == columns { d } else { b + lng_step * (column + 1) as f64 };
            let expected = (a + lat_step * row as f64, b + lng_step * column as f64, top, right);
            assert_eq!(degrees(&tiles[row * columns + column]), expected);
        }
    }
}

#[test]
fn small_area_is_one_tile() {
    let area = bbox(54.60, 25.20, 54.62, 25.22);
    assert_eq!(initial_tiles_for_bbox(area), vec![area]);
}

#[test]
fn large_area_has_at_most_eight_tiles_per_axis() {
    assert_eq!(initial_tiles_for_bbox(bbox(-90.0, -180.0, 90.0, 180.0)).len(), 64);
}

#[test]
fn grid_without_rows_or_columns_is_one_tile() {
    let area = bbox(1.0, 2.0, 3.0, 4.0);
    assert_eq!(split_bbox_into_grid(area, 0, 0), vec![area]);
}

#[test]
fn quarters_share_their_edges() {
    let quarters = split_bbox_into_grid(bbox(1.0, 2.0, 3.0, 5.0), 2, 2);
    let found: Vec<(f64, f64, f64, f64)> = quarters.iter().map(degrees).collect();
    assert_eq!(
        found,
        vec![
            (1.0, 2.0, 2.0, 3.5),
            (1.0, 3.5, 2.0, 5.0),
            (2.0, 2.0, 3.0, 3.5),
            (2.0, 3.5, 3.0, 5.0),
        ]
    );
}

#[test]
fn tiles_without_extent_are_left_out() {
    let low: f64 = 50.0;
    let high = f64::from_bits(low.to_bits() + 1);
    let tiles = split_bbox_into_grid(bbox(low, 1.0, high, 2.0), 4, 1);
    assert_eq!(tiles.len(), 1);
    assert_eq!(degrees(&tiles[0]), (low, 1.0, high, 2.0));
}

#[test]
fn computed_edge_of_a_tiny_box_passes_its_end() {
    let tiny = LLBBox::new(0, 0, 5, 0x3ff0_0000_0000_0000).unwrap();
    let tiles = split_bbox_into_grid(tiny, 8, 1);
    assert_eq!(tiles.last().unwrap().max.lat, 7);
}

#[test]
fn bounds_off_the_globe_are_rejected() {
    let new = |a: f64, b: f64, c: f64, d: f64| {
        LLBBox::new(a.to_bits(), b.to_bits(), c.to_bits(), d.to_bits())
    };
    assert_eq!(new(0.0, 0.0, 91.0, 1.0), Err(InvalidBounds::OutOfRange));
    assert_eq!(new(0.0, f64::NAN, 1.0, 1.0), Err(InvalidBounds::OutOfRange));
    assert_eq!(new(2.0, 0.0, 1.0, 1.0), Err(InvalidBounds::Empty));
    assert_eq!(new(1.0, 1.0, 2.0, 1.0), Err(InvalidBounds::Empty));
}

#[test]
fn merge_raw_responses_deduplicates_by_type_and_id() {
    let merged = merge_raw_overpass_responses(vec![
        RawOverpassResponse {
            elements: vec![
                json(r#"{"type":"node","id":1,"lat":1.0,"lon":2.0}"#),
                json(r#"{"type":"way","id":7,"nodes":[1,2]}"#),
            ],
            remark: None,
        },
        RawOverpassResponse {
            elements: vec![
                json(r#"{"type":"node","id":1,"lat":1.0,"lon":2.0}"#),
                json(r#"{"type":"relation","id":9,"members":[]}"#),
            ],
            remark: Some("runtime error: out of memory".to_string()),
        },
    ]);

    assert_eq!(merged.elements.len(), 3);
    assert!(merged.remark.unwrap().contains("out of memory"));
}

#[test]
fn merging_keeps_the_first_of_each_identity_in_order() {
    let merged = merge_raw_overpass_responses(vec![
        reply(&[r#"{"type":"node","id":1,"a":1}"#, r#"{"type":"way","id":1}"#], Some("one")),
        reply(&[r#"{"type":"node","id":1,"a":2}"#, r#"{"type":"node","id":2}"#], Some("")),
        reply(&[], Some("two")),
    ]);
    assert_eq!(
        merged.elements,
        vec![
            json(r#"{"type":"node","id":1,"a":1}"#),
            json(r#"{"type":"way","id":1}"#),
            json(r#"{"type":"node","id":2}"#),
        ]
    );
    assert_eq!(merged.remark.unwrap(), "one | two");
}

#[test]
fn merging_keeps_every_element_without_identity() {
    let merged = merge_raw_overpass_responses(vec![
        reply(&[r#"{"id":1}"#, r#"{"id":1}"#], None),
        reply(&[r#"{"type":"node","id":-1}"#, "7"], None),
    ]);
    assert_eq!(merged.elements.len(), 4);
    assert_eq!(merged.remark, None);
}

#[test]
fn merging_in_groups_gives_the_same() {
    let first = || reply(&[r#"{"type":"node","id":1}"#], Some("a"));
    let second = || reply(&[r#"{"type":"node","id":1}"#, r#"{"type":"way","id":2}"#], Some("b"));
    let third = || reply(&[r#"{"type":"way","id":2}"#], Some("c"));
    let whole = merge_raw_overpass_responses(vec![first(), second(), third()]);
    let grouped = merge_raw_overpass_responses(vec![
        merge_raw_overpass_responses(vec![first(), second()]),
        merge_raw_overpass_responses(vec![third()]),
    ]);
    assert_eq!(whole.elements, grouped.elements);
    assert_eq!(whole.remark, grouped.remark);
    assert_eq!(whole.remark.unwrap(), "a | b | c");
}

#[test]
fn merging_again_changes_nothing() {
    let merged = merge_raw_overpass_responses(vec![reply(
        &[r#"{"type":"node","id":1}"#, r#"{"type":"node","id":1}"#],
        Some("x"),
    )]);
    let elements = merged.elements.clone();
    let again = merge_raw_overpass_responses(vec![merged]);
    assert_eq!(again.elements, elements);
    assert_eq!(again.remark.unwrap(), "x");
}

#[test]
fn identity_needs_a_type_and_a_natural_number() {
    let identity = |text: &str| element_identity(&json(text));
    assert_eq!(identity(r#"{"type":"way","id":7}"#), Some(("way".to_string(), 7)));
    assert_eq!(identity(r#"{"type":"way"}"#), None);
    assert_eq!(identity(r#"{"type":3,"id":7}"#), None);
    assert_eq!(identity(r#"{"type":"way","id":-7}"#), None);
    assert_eq!(identity(r#"{"type":"way","id":7.5}"#), None);
    assert_eq!(identity("[1]"), None);
    assert_eq!(
        identity(r#"{"type":"way","id":18446744073709551615}"#),
        Some(("way".to_string(), u64::MAX))
    );
}

#[test]
fn split_is_suggested_for_oom_and_timeout() {
    assert!(overpass_error_suggests_split(
        "Request timed out. Try selecting a smaller area."
    ));
    assert!(overpass_error_suggests_split(
        "Error! Received response code: 504"
    ));
    assert!(overpass_remark_suggests_split(
        "runtime error: Query run out of memory"
    ));
}

#[test]
fn split_is_suggested_whatever_the_case() {
    assert!(overpass_error_suggests_split("TIMED OUT"));
    assert!(overpass_remark_suggests_split("TimeOut"));
    for status in ["429 Too Many Requests", "502 Bad Gateway", "503", "504 Gateway Timeout"] {
        let message = read_http_reply(HttpReply::Status(status.to_string())).unwrap_err();
        assert!(overpass_error_suggests_split(&message));
    }
}

#[test]
fn split_is_not_suggested_for_other_failures() {
    assert!(!overpass_error_suggests_split("No internet connection."));
    assert!(!overpass_error_suggests_split("Error! Received response code: 400"));
    assert!(!overpass_error_suggests_split("timeout"));
    assert!(!overpass_remark_suggests_split("The data is a day old"));
}

#[test]
fn download_method_picks_the_program() {
    match download_overpass_query("http://a/b", "q;", "curl") {
        DownloadRequest::Program { program, address } => {
            assert_eq!(program, DownloadProgram::Curl);
            assert_eq!(address, "http://a/b?data=q;");
            assert_eq!((program.name(), program.flag()), ("curl", "-s"));
        }
        other => panic!("{:?}", other),
    }
    match download_overpass_query("http://a/b", "q;", "wget") {
        DownloadRequest::Program { program, address } => {
            assert_eq!(program, DownloadProgram::Wget);
            assert_eq!(address, "http://a/b?data=q;");
            assert_eq!((program.name(), program.flag()), ("wget", "-qO-"));
        }
        other => panic!("{:?}", other),
    }
    for method in ["requests", "Curl", ""] {
        match download_overpass_query("http://a/b", "q;", method) {
            DownloadRequest::Http { url, query } => {
                assert_eq!((url.as_str(), query.as_str()), ("http://a/b", "q;"));
            }
            other => panic!("{:?}", other),
        }
    }
}

#[test]
fn http_replies_are_read() {
    assert_eq!(read_http_reply(HttpReply::Body("{}".to_string())), Ok("{}".to_string()));
    let message = |reply| read_http_reply(reply).unwrap_err();
    assert_eq!(message(HttpReply::Body(String::new())), "Error! Received invalid from server");
    assert_eq!(message(HttpReply::Unreadable("cut off".to_string())), "cut off");
    assert_eq!(
        message(HttpReply::Status("404 Not Found".to_string())),
        "Error! Received response code: 404 Not Found"
    );
    assert_eq!(
        message(HttpReply::TimedOut),
        "Request timed out. Try selecting a smaller area."
    );
    assert_eq!(message(HttpReply::NotConnected), "No internet connection.");
    assert_eq!(message(HttpReply::Failed("odd".to_string())), "odd");
}

#[test]
fn program_output_is_read() {
    let output = b"gr\xc3\xbcn".to_vec();
    assert_eq!(
        read_program_output(DownloadProgram::Curl, true, output),
        Ok("gr\u{fc}n".to_string())
    );
    assert_eq!(
        read_program_output(DownloadProgram::Curl, true, vec![0x61, 0xff]),
        Ok("a\u{fffd}".to_string())
    );
    assert_eq!(
        read_program_output(DownloadProgram::Curl, false, Vec::new()),
        Err("Curl command failed".to_string())
    );
    assert_eq!(
        read_program_output(DownloadProgram::Wget, false, Vec::new()),
        Err("Wget command failed".to_string())
    );
}

#[test]
fn servers_share_the_load_and_fallbacks_come_last() {
    let mut seen_orders = std::collections::HashSet::new();
    for _ in 0..200 {
        let order = server_order(api_servers(), fallback_api_servers());
        assert_eq!(order.len(), 4);
        assert_eq!(order[3], "https://maps.mail.ru/osm/tools/overpass/api/interpreter");
        let mut shared = order[..3].to_vec();
        seen_orders.insert(shared.clone());
        shared.sort();
        assert_eq!(
            shared,
            vec![
                "https://lz4.overpass-api.de/api/interpreter",
                "https://overpass-api.de/api/interpreter",
                "https://z.overpass-api.de/api/interpreter",
            ]
        );
    }
    assert!(seen_orders.len() > 1);
}

#[test]
fn search_prefers_the_error_that_calls_for_a_split() {
    let servers = vec!["a".to_string(), "b".to_string(), "c".to_string()];
    let search = ServerSearch::new(servers);
    assert_eq!(search.next_server().unwrap(), "a");
    let search = search.with_failure("odd".to_string());
    assert_eq!(search.next_server().unwrap(), "b");
    let search = search.with_failure("timed out".to_string());
    assert_eq!(search.next_server().unwrap(), "c");
    let search = search.with_failure("out of memory".to_string());
    assert!(search.next_server().is_none());
    assert_eq!(search.into_error(), "timed out");
}

#[test]
fn search_ends_with_the_last_error_or_none_at_all() {
    let search = ServerSearch::new(vec!["a".to_string(), "b".to_string()])
        .with_failure("one".to_string())
        .with_failure("two".to_string())
        .with_failure("three".to_string());
    assert_eq!(search.into_error(), "two");
    assert_eq!(
        ServerSearch::new(Vec::new()).into_error(),
        "No Overpass servers available."
    );
}

#[test]
fn small_area_is_fetched_with_one_request() {
    let area = bbox(54.60, 25.20, 54.62, 25.22);
    let fetch = AdaptiveFetch::new(area);
    assert_eq!(fetch.wanted_tile(), Some(area));
    let fetch = fetch.with_reply(Ok(reply(
        &[r#"{"type":"node","id":1}"#, r#"{"type":"node","id":1}"#],
        Some("fine"),
    )));
    assert_eq!(fetch.wanted_tile(), None);
    let result = fetch.into_result().unwrap().unwrap();
    assert_eq!(result.elements.len(), 2);
    assert_eq!(result.remark.unwrap(), "fine");
}

#[test]
fn overloaded_server_is_asked_for_quarters() {
    let area = bbox(54.60, 25.20, 54.62, 25.22);
    let mut fetch = AdaptiveFetch::new(area).with_reply(Err("timed out".to_string()));
    for (number, quarter) in split_bbox_into_grid(area, 2, 2).into_iter().enumerate() {
        assert_eq!(fetch.wanted_tile(), Some(quarter));
        let element = format!("{{\"type\":\"node\",\"id\":{}}}", number % 2);
        fetch = fetch.with_reply(Ok(reply(&[&element], None)));
    }
    assert_eq!(fetch.wanted_tile(), None);
    assert_eq!(fetch.into_result().unwrap().unwrap().elements.len(), 2);
}

#[test]
fn remark_of_an_overloaded_server_leads_to_quarters_too() {
    let area = bbox(54.60, 25.20, 54.62, 25.22);
    let fetch = AdaptiveFetch::new(area).with_reply(Ok(reply(
        &[r#"{"type":"node","id":1}"#],
        Some("runtime error: Query timed out"),
    )));
    assert_eq!(fetch.wanted_tile(), Some(split_bbox_into_grid(area, 2, 2)[0]));
    assert!(fetch.into_result().is_none());
}

#[test]
fn hopeless_failure_ends_the_fetch() {
    let area = bbox(41.30, 2.05, 41.48, 2.26);
    let fetch = AdaptiveFetch::new(area)
        .with_reply(Ok(reply(&[r#"{"type":"node","id":1}"#], None)))
        .with_reply(Err("No internet connection.".to_string()));
    assert_eq!(fetch.wanted_tile(), None);
    assert_eq!(
        fetch.into_result().unwrap().unwrap_err(),
        "No internet connection."
    );
}

#[test]
fn fetch_gives_up_cutting_after_three_cuts() {
    let mut fetch = AdaptiveFetch::new(bbox(54.60, 25.20, 54.62, 25.22));
    let mut asked = 0;
    while fetch.wanted_tile().is_some() {
        asked += 1;
        fetch = fetch.with_reply(Err("timed out".to_string()));
    }
    assert_eq!(asked, 4);
    assert_eq!(fetch.into_result().unwrap().unwrap_err(), "timed out");
}

#[test]
fn longest_fetch_uses_all_the_replies_that_it_may() {
    let mut fetch = AdaptiveFetch::new(bbox(0.0, 0.0, 10.0, 10.0));
    let mut asked = 0;
    while fetch.wanted_tile().is_some() {
        asked += 1;
        fetch = fetch.with_reply(Ok(reply(&[], Some("timeout"))));
    }
    assert_eq!(asked, MOST_REPLIES);
    assert!(fetch.into_result().unwrap().is_ok());
}

#[test]
fn usable_data_is_judged_so() {
    assert!(matches!(judge_data(false, Some("odd"), false), DataVerdict::Usable));
}

#[test]
fn empty_data_is_reported() {
    let judge = |remark, gui| match judge_data(true, remark, gui) {
        DataVerdict::Empty { console, window, then } => (console, window, then),
        other => panic!("{:?}", other),
    };
    assert_eq!(
        judge(Some("runtime error: out of memory"), true),
        (
            "Error! The query ran out of memory on the Overpass API server. Try using a smaller area."
                .to_string(),
            "Try using a smaller area.".to_string(),
            WithoutData::Fail
        )
    );
    assert_eq!(
        judge(Some("out of memory"), false),
        (
            "Error! API returned: out of memory".to_string(),
            "API returned: out of memory".to_string(),
            WithoutData::Exit
        )
    );
    assert_eq!(
        judge(None, false),
        (
            "Error! API returned no data. Please try again!".to_string(),
            "API returned no data. Please try again!".to_string(),
            WithoutData::Exit
        )
    );
}

#[test]
fn area_is_asked_for_by_its_coordinates() {
    assert_eq!(
        area_name_url("54.6", "-25.2"),
        "https://nominatim.openstreetmap.org/reverse?format=jsonv2&lat=54.6&lon=-25.2&addressdetails=1"
    );
}

#[test]
fn area_name_is_the_first_that_is_known() {
    let name = |text: &str| area_name(&json(text));
    assert_eq!(
        name(r#"{"address":{"suburb":"S","town":"T","city":5}}"#),
        Some("T".to_string())
    );
    assert_eq!(name(r#"{"address":{"road":"R"}}"#), None);
    assert_eq!(name(r#"{"name":"N"}"#), None);
}

#[test]
fn city_prefix_is_removed() {
    let name = |text: &str| area_name(&json(text)).unwrap();
    assert_eq!(name(r#"{"address":{"city":"City of London"}}"#), "London");
    assert_eq!(name(r#"{"address":{"city":"City Of London"}}"#), "London");
    assert_eq!(name(r#"{"address":{"city":"CITY OF LONDON"}}"#), "LONDON");
    assert_eq!(name(r#"{"address":{"city":"City Of Isle of Man"}}"#), "Isle of Man");
    assert_eq!(name(r#"{"address":{"city":"Isle of Man"}}"#), "Isle of Man");
}

#[test]
fn city_prefix_is_removed_only_at_the_start() {
    assert_eq!(without_city_prefix("City of "), "");
    assert_eq!(without_city_prefix("City of"), "City of");
    assert_eq!(without_city_prefix(""), "");
    assert_eq!(without_city_prefix("Old City of Acre"), "Old City of Acre");
    assert_eq!(without_city_prefix("City of K\u{f6}ln"), "K\u{f6}ln");
    assert_eq!(without_city_prefix("C\u{130}TY OF X"), "C\u{130}TY OF X");
    assert_eq!(without_lowered_prefix("City of Angels", "city of "), "Angels");
    assert_eq!(without_lowered_prefix("City of Angels", "no prefix"), "City of Angels");
    assert_eq!(without_lowered_prefix("Angels", "city of "), "Angels");
}

#[test]
fn area_replies_are_read() {
    assert_eq!(read_area_reply(AreaReply::Refused), Ok(None));
    assert_eq!(
        read_area_reply(AreaReply::Unreadable("no JSON".to_string())),
        Err("no JSON".to_string())
    );
    assert_eq!(
        read_area_reply(AreaReply::Json(json(r#"{"address":{"city":"City Of London"}}"#))),
        Ok(Some("London".to_string()))
    );
    assert_eq!(read_area_reply(AreaReply::Json(json("[]"))), Ok(None));
}

#[test]
fn queries_differ_only_before_the_first_semicolon() {
    let first = build_overpass_query("54.6", "25.2", "54.7", "25.3");
    let second = build_overpass_query("-1", "-2", "3", "4");
    let (head, rest) = first.split_once(';').unwrap();
    assert_eq!(head, "[out:json][timeout:360][bbox:54.6,25.2,54.7,25.3]");
    let (head, other) = second.split_once(';').unwrap();
    assert_eq!(head, "[out:json][timeout:360][bbox:-1,-2,3,4]");
    assert_eq!(rest, other);
    assert!(rest.starts_with("\n    (\n        nwr[\"building\"];\n"));
}

#[test]
fn whole_grid_of_many_tiles_covers_its_box() {
    let tiles = split_bbox_into_grid(bbox(1.0, 2.0, 3.0, 5.0), 300, 7);
    assert_eq!(tiles.len(), 2100);
    let (lat, lng) = (2.718281828, 3.14159265);
    let holding = tiles
        .iter()
        .map(degrees)
        .filter(|(a, b, c, d)| *a <= lat && lat <= *c && *b <= lng && lng <= *d)
        .count();
    assert_eq!(holding, 1);
}
