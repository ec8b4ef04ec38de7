use llika::gtfs::feed::Stop;
use llika::gtfs::stations::{collapse_map, resolve};
use llika::gtfs::ImportError;

fn stop(stop_id: &str, location_type: Option<u8>, parent_station: Option<&str>) -> Stop {
    Stop {
        stop_id: stop_id.to_string(),
        stop_name: None,
        stop_lat_bits: Some(0f64.to_bits()),
        stop_lon_bits: Some(0f64.to_bits()),
        location_type,
        parent_station: parent_station.map(str::to_string),
    }
}

fn fixture() -> Vec<Stop> {
    vec![
        stop("CEN", Some(1), None),
        stop("CEN_1", Some(0), Some("CEN")),
        stop("CEN_E1", Some(2), Some("CEN")),
        stop("WST", Some(0), None),
        stop("EAST", None, Some("")),
    ]
}

fn ids(list: &[&str]) -> Vec<String> {
    list.iter().map(|s| s.to_string()).collect()
}

#[test]
fn a_platform_collapses_to_its_parent_and_everything_else_is_its_own_station() {
    let stops = fixture();
    let station_of = collapse_map(&stops).expect("a conforming feed");

    assert_eq!(station_of.get("CEN_1"), Some("CEN"));
    assert_eq!(station_of.get("CEN"), Some("CEN"));
    assert_eq!(station_of.get("WST"), Some("WST"));
    assert_eq!(station_of.get("EAST"), Some("EAST"));
    assert_eq!(station_of.get("CEN_E1"), None);
}

#[test]
fn a_parent_station_that_names_no_station_is_an_error() {
    for dangling in [
        stop("X_1", Some(0), Some("NOWHERE")),
        stop("X_2", Some(0), Some("WST")),
        stop("X_3", Some(0), Some("CEN_E1")),
    ] {
        let id = dangling.stop_id.clone();
        let mut stops = fixture();
        stops.push(dangling);

        assert!(
            matches!(
                collapse_map(&stops),
                Err(ImportError::UnknownParentStation { ref stop_id, .. }) if *stop_id == id
            ),
            "`{id}` should not have resolved",
        );
    }
}

#[test]
fn consecutive_platforms_of_one_station_fold_and_a_later_return_does_not() {
    let stops = fixture();
    let station_of = collapse_map(&stops).expect("a conforming feed");

    assert_eq!(
        resolve(&ids(&["WST", "CEN_1", "CEN", "EAST"]), &station_of, "R").unwrap(),
        ["WST", "CEN", "EAST"],
    );
    assert_eq!(
        resolve(&ids(&["CEN_1", "WST", "CEN"]), &station_of, "R").unwrap(),
        ["CEN", "WST", "CEN"],
    );
}

#[test]
fn a_stop_the_feed_does_not_define_is_an_error() {
    let stops = fixture();
    let station_of = collapse_map(&stops).expect("a conforming feed");

    for unreadable in ["GHOST", "CEN_E1"] {
        let list = vec!["WST".to_string(), unreadable.to_string()];
        assert!(
            matches!(
                resolve(&list, &station_of, "R"),
                Err(ImportError::UnknownStop { ref stop_id, ref route }) if stop_id == unreadable && route == "R"
            ),
            "`{unreadable}` should not have resolved",
        );
    }
}

#[test]
fn a_station_always_collapses_into_itself() {
    let stops = fixture();
    let station_of = collapse_map(&stops).expect("a conforming feed");
    for id in ["CEN", "CEN_1", "WST", "EAST"] {
        let station = station_of.get(id).unwrap();
        assert_eq!(station_of.get(station), Some(station), "one hop from `{id}`");
    }
}

#[test]
fn the_first_dangling_row_is_the_one_reported() {
    let mut stops = fixture();
    stops.push(stop("BAD_1", Some(0), Some("NOWHERE")));
    stops.push(stop("BAD_2", Some(0), Some("ELSEWHERE")));
    match collapse_map(&stops) {
        Err(ImportError::UnknownParentStation { stop_id, parent }) => {
            assert_eq!((stop_id.as_str(), parent.as_str()), ("BAD_1", "NOWHERE"));
        }
        _ => panic!("the feed is malformed"),
    }
}

#[test]
fn a_resolved_line_never_repeats_a_station_consecutively() {
    let stops = fixture();
    let station_of = collapse_map(&stops).expect("a conforming feed");
    let line = resolve(&ids(&["CEN", "CEN_1", "CEN", "WST", "WST", "CEN_1"]), &station_of, "R").unwrap();
    assert_eq!(line, ["CEN", "WST", "CEN"]);
    assert!(line.windows(2).all(|w| w[0] != w[1]));
}
