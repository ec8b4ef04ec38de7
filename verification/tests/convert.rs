use llika::gtfs::convert::{draws_the_same_line, stated_color, to_schema, FALLBACK_PALETTE};
use llika::gtfs::feed::{Feed, Route, Stop, StopTime, Trip};
use llika::gtfs::{summary, DropReason, DroppedRoute, ImportError, ImportParams, MergedRoute};

fn ids(list: &[&str]) -> Vec<String> {
    list.iter().map(|id| id.to_string()).collect()
}

fn stop(id: &str) -> Stop {
    Stop {
        stop_id: id.to_string(),
        stop_name: None,
        stop_lat_bits: Some(0f64.to_bits()),
        stop_lon_bits: Some(0f64.to_bits()),
        location_type: None,
        parent_station: None,
    }
}

fn route(id: &str) -> Route {
    Route {
        route_id: id.to_string(),
        route_short_name: None,
        route_long_name: None,
        route_type: 1,
        route_color: None,
    }
}

fn trip((route_id, trip_id): (&str, &str)) -> Trip {
    Trip { route_id: route_id.to_string(), trip_id: trip_id.to_string() }
}

fn stop_time((trip_id, stop_id, stop_sequence): (&str, &str, u32)) -> StopTime {
    StopTime { trip_id: trip_id.to_string(), stop_id: Some(stop_id.to_string()), stop_sequence }
}

#[test]
fn a_line_already_drawn_absorbs_its_reverse_and_its_twin_and_nothing_else() {
    let drawn = ids(&["A", "B", "C", "D"]);

    assert!(draws_the_same_line(&drawn, &ids(&["D", "C", "B", "A"])));
    assert!(draws_the_same_line(&drawn, &ids(&["A", "B", "C", "D"])));

    assert!(!draws_the_same_line(&drawn, &ids(&["A", "C", "B", "D"])));
    assert!(!draws_the_same_line(&drawn, &ids(&["B", "C"])));
    assert!(!draws_the_same_line(&drawn, &ids(&["A", "B", "C", "E"])));
}

#[test]
fn the_earlier_route_keeps_the_line_and_the_absorbed_one_takes_no_palette_index() {
    let feed = Feed {
        stops: ["A", "B", "C"].map(stop).into_iter().collect(),
        routes: ["R1", "R2", "R3"].map(route).into_iter().collect(),
        trips: [("R1", "t1"), ("R2", "t2"), ("R3", "t3")].map(trip).into_iter().collect(),
        stop_times: [
            ("t1", "A", 1),
            ("t1", "B", 2),
            ("t1", "C", 3),
            ("t2", "C", 1),
            ("t2", "B", 2),
            ("t2", "A", 3),
            ("t3", "A", 1),
            ("t3", "C", 2),
        ]
        .map(stop_time)
        .into_iter()
        .collect(),
    };

    let (schema, report) = to_schema(&feed, &ImportParams::default()).expect("the feed imports");

    let lines: Vec<&str> = schema.lines.iter().map(|line| line.id.as_str()).collect();
    assert_eq!(lines, ["R1", "R3"], "the earlier row keeps the line");
    assert_eq!(schema.lines[0].stations, ids(&["A", "B", "C"]), "and keeps its own direction");
    assert_eq!(
        report.routes_merged,
        [MergedRoute { route_id: "R2".to_string(), into: "R1".to_string() }]
    );
    assert_eq!(report.routes_kept, 3, "merging is not filtering");

    assert_eq!(schema.lines[0].color, FALLBACK_PALETTE[0]);
    assert_eq!(schema.lines[1].color, FALLBACK_PALETTE[1], "R2 must not have consumed the second palette colour");
}

#[test]
fn a_stated_colour_survives_and_only_a_malformed_one_falls_back() {
    assert_eq!(stated_color(Some("FFFFFF")).as_deref(), Some("#FFFFFF"));
    assert_eq!(stated_color(Some("0057b8")).as_deref(), Some("#0057b8"));

    for absent_or_malformed in [None, Some(""), Some("#0057B8"), Some("57B8"), Some("GGGGGG")] {
        assert_eq!(stated_color(absent_or_malformed), None, "{absent_or_malformed:?} must fall back");
    }
}

fn small_feed() -> Feed {
    let mut stops: Vec<Stop> = ["A", "B", "C", "D", "Z"].map(stop).into_iter().collect();
    stops[1].stop_name = Some("Bee".to_string());
    let mut routes: Vec<Route> = ["R1", "R2", "BUS", "R4"].map(route).into_iter().collect();
    routes[0].route_color = Some("123abc".to_string());
    routes[0].route_short_name = Some("One".to_string());
    routes[2].route_type = 3;
    Feed {
        stops,
        routes,
        trips: [("R1", "t1"), ("R2", "t2"), ("BUS", "t3"), ("R4", "t4")].map(trip).into_iter().collect(),
        stop_times: [
            ("t1", "A", 1),
            ("t1", "B", 2),
            ("t2", "B", 1),
            ("t2", "C", 2),
            ("t3", "C", 1),
            ("t3", "Z", 2),
            ("t4", "D", 1),
        ]
        .map(stop_time)
        .into_iter()
        .collect(),
    }
}

#[test]
fn stations_are_exactly_those_a_kept_line_references_in_stops_order() {
    let (schema, report) = to_schema(&small_feed(), &ImportParams::default()).expect("imports");
    let stations: Vec<&str> = schema.stations.iter().map(|s| s.id.as_str()).collect();
    // Z serves only the bus route, D only a one-stop route.
    assert_eq!(stations, ["A", "B", "C"]);
    assert_eq!(schema.stations[1].name, "Bee");
    assert_eq!(schema.stations[0].name, "A");
    assert_eq!(report.routes_seen, 4);
    assert_eq!(report.routes_kept, 3);
    assert_eq!(report.stops_seen, 5);
    assert_eq!(report.stations_emitted, 3);
    assert_eq!(
        report.routes_dropped,
        [DroppedRoute { route_id: "R4".to_string(), reason: DropReason::LineTooShort { stations: 1 } }]
    );
    assert!(report.routes_merged.is_empty());
    assert_eq!(schema.lines[0].name, "One");
    assert_eq!(schema.lines[0].color, "#123abc");
    // The stated colour takes no palette slot.
    assert_eq!(schema.lines[1].color, FALLBACK_PALETTE[0]);
}

#[test]
fn a_referenced_stop_without_coordinates_is_an_error() {
    let mut feed = small_feed();
    feed.stops[2].stop_lat_bits = None;
    match to_schema(&feed, &ImportParams::default()) {
        Err(ImportError::MissingCoordinates { stop_id }) => assert_eq!(stop_id, "C"),
        _ => panic!("C has no coordinates"),
    }
    // An unreferenced stop may lack them.
    let mut feed = small_feed();
    feed.stops[4].stop_lon_bits = None;
    assert!(to_schema(&feed, &ImportParams::default()).is_ok());
}

#[test]
fn a_kept_route_through_an_undefined_stop_is_an_error() {
    let mut feed = small_feed();
    feed.stop_times.push(stop_time(("t2", "GHOST", 3)));
    match to_schema(&feed, &ImportParams::default()) {
        Err(ImportError::UnknownStop { route, stop_id }) => {
            assert_eq!((route.as_str(), stop_id.as_str()), ("R2", "GHOST"));
        }
        _ => panic!("GHOST is not a stop"),
    }
}

#[test]
fn the_summary_line_counts_what_was_kept() {
    let (schema, report) = to_schema(&small_feed(), &ImportParams::default()).expect("imports");
    assert_eq!(
        summary("out.json", &schema, &report),
        "wrote out.json \u{2014} 3 stations, 2 lines, 3 of 4 routes matched, 1 dropped, 0 merged"
    );
}

#[test]
fn the_default_filter_keeps_trams_and_metros() {
    assert_eq!(ImportParams::default().route_types, vec![0, 1]);
}

#[test]
fn the_imported_network_is_accepted() {
    let (schema, _) = to_schema(&small_feed(), &ImportParams::default()).expect("imports");
    assert!(llika::model::Network::from_input(schema).is_ok());
}

#[test]
fn drawing_the_same_line_goes_both_ways() {
    let east = ids(&["A", "B", "C"]);
    let west = ids(&["C", "B", "A"]);
    let other = ids(&["A", "C", "B"]);

    assert!(draws_the_same_line(&east, &east));
    assert!(draws_the_same_line(&east, &west) && draws_the_same_line(&west, &east));
    assert!(!draws_the_same_line(&east, &other) && !draws_the_same_line(&other, &east));
}

#[test]
fn a_feed_of_platforms_imports_to_a_network_that_is_accepted() {
    let mut stops: Vec<Stop> = ["A", "S", "S1", "S2", "B"].map(stop).into_iter().collect();
    stops[1].location_type = Some(1);
    stops[2].parent_station = Some("S".to_string());
    stops[3].parent_station = Some("S".to_string());
    let feed = Feed {
        stops,
        routes: vec![route("R"), route("Q")],
        trips: [("R", "t1"), ("Q", "t2")].map(trip).into_iter().collect(),
        stop_times: [("t1", "A", 1), ("t1", "S1", 2), ("t1", "S2", 3), ("t1", "B", 4), ("t2", "B", 1), ("t2", "S2", 2)]
            .map(stop_time)
            .into_iter()
            .collect(),
    };
    let (schema, _) = to_schema(&feed, &ImportParams::default()).expect("imports");
    assert_eq!(schema.lines[0].stations, ids(&["A", "S", "B"]));
    assert_eq!(schema.lines[1].stations, ids(&["B", "S"]));
    let network = llika::model::Network::from_input(schema).expect("the import is a network");
    assert_eq!(network.stations().len(), 3);
    assert_eq!(network.edge_count(), 2);
}
