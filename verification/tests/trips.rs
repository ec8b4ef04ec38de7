use llika::gtfs::feed::StopTime;
use llika::gtfs::index::RowIndex;
use llika::gtfs::stations::CollapseMap;
use llika::gtfs::trips::representative_stop_ids;

fn feed(trips: &[(&str, &[(&str, u32)])]) -> Vec<StopTime> {
    trips
        .iter()
        .flat_map(|(trip_id, rows)| {
            rows.iter().map(move |(stop_id, stop_sequence)| StopTime {
                trip_id: (*trip_id).to_string(),
                stop_id: Some((*stop_id).to_string()),
                stop_sequence: *stop_sequence,
            })
        })
        .collect()
}

fn pick(trip_ids: &[&str], rows: &[StopTime], parents: &[(&str, &str)]) -> Vec<String> {
    let mut station_of = CollapseMap::new();
    for (platform, station) in parents {
        station_of.insert(platform.to_string(), station.to_string());
    }
    let rows_by_trip = RowIndex::of_stop_times(rows);
    representative_stop_ids(trip_ids, rows, &rows_by_trip, &station_of)
}

#[test]
fn the_modal_pattern_beats_the_longest_trip() {
    let rows = feed(&[
        ("t1", &[("A", 1), ("B", 2), ("C", 3)]),
        ("t2", &[("A", 1), ("B", 2), ("C", 3)]),
        ("special", &[("A", 1), ("B", 2), ("C", 3), ("D", 4), ("E", 5)]),
        ("t3", &[("A", 1), ("B", 2), ("C", 3)]),
    ]);
    assert_eq!(pick(&["t1", "t2", "special", "t3"], &rows, &[]), ["A", "B", "C"]);
}

#[test]
fn a_tie_goes_to_the_earlier_trips_txt_row() {
    let rows = feed(&[
        ("out1", &[("A", 1), ("B", 2)]),
        ("back1", &[("B", 1), ("A", 2)]),
        ("out2", &[("A", 1), ("B", 2)]),
        ("back2", &[("B", 1), ("A", 2)]),
    ]);
    assert_eq!(pick(&["out1", "back1", "out2", "back2"], &rows, &[]), ["A", "B"]);
    assert_eq!(pick(&["back1", "out1", "out2", "back2"], &rows, &[]), ["B", "A"]);
}

#[test]
fn two_trips_differing_only_in_platform_are_one_pattern() {
    let rows = feed(&[
        ("bay1", &[("A", 1), ("X_1", 2), ("B", 3)]),
        ("special", &[("A", 1), ("X_1", 2), ("B", 3), ("C", 4)]),
        ("bay2", &[("A", 1), ("X_2", 2), ("B", 3)]),
    ]);
    let parents = [("X_1", "X"), ("X_2", "X"), ("A", "A"), ("B", "B"), ("C", "C")];
    assert_eq!(pick(&["bay1", "special", "bay2"], &rows, &parents), ["A", "X_1", "B"]);
}

#[test]
fn rows_are_sorted_before_two_trips_are_compared() {
    let rows = feed(&[
        ("tidy", &[("A", 10), ("B", 20), ("C", 30)]),
        ("special", &[("A", 1), ("B", 2), ("C", 3), ("D", 4)]),
        ("jumbled", &[("C", 30), ("A", 10), ("B", 20)]),
    ]);
    assert_eq!(pick(&["tidy", "special", "jumbled"], &rows, &[]), ["A", "B", "C"]);
}

#[test]
fn one_trip_is_its_own_pattern_and_no_trips_is_no_line() {
    let rows = feed(&[("only", &[("A", 1), ("B", 2)])]);
    assert_eq!(pick(&["only"], &rows, &[]), ["A", "B"]);
    assert!(pick(&[], &rows, &[]).is_empty());
}

#[test]
fn rows_sharing_a_sequence_value_keep_their_file_order() {
    let rows = feed(&[("t", &[("B", 2), ("A", 1), ("C", 2)])]);
    assert_eq!(pick(&["t"], &rows, &[]), ["A", "B", "C"]);
}

#[test]
fn a_row_without_a_stop_id_is_skipped() {
    let mut rows = feed(&[("t", &[("A", 1), ("B", 3)])]);
    rows.push(StopTime { trip_id: "t".to_string(), stop_id: None, stop_sequence: 2 });
    assert_eq!(pick(&["t"], &rows, &[]), ["A", "B"]);
}
