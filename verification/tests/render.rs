use llika::grid::GridPoint;
use llika::model::{InputSchema, Line, Network, Station};
use llika::render::{bounds, direct_closed_run, station_runs};

fn net(stations: &[&str], lines: &[(&str, &[&str])]) -> Network {
    let input = InputSchema {
        stations: stations
            .iter()
            .map(|id| Station {
                id: id.to_string(),
                name: id.to_string(),
                lat_bits: 0f64.to_bits(),
                lon_bits: 0f64.to_bits(),
            })
            .collect(),
        lines: lines
            .iter()
            .map(|(id, walk)| Line {
                id: id.to_string(),
                name: id.to_string(),
                color: "#000000".to_string(),
                stations: walk.iter().map(|s| s.to_string()).collect(),
            })
            .collect(),
    };
    Network::from_input(input).expect("the hand-built network is valid")
}

#[test]
fn a_closed_run_is_directed_from_its_lowest_station_towards_its_lower_neighbour() {
    // The cycle 4 -> 7 -> 2 -> 9 -> 4, seeded anywhere. Its lowest station is
    // 2, whose run-neighbours are 7 and 9, so the run runs 2 -> 7.
    let directed = direct_closed_run(vec![7, 2, 9, 4, 7]);
    assert_eq!(directed, vec![2, 7, 4, 9, 2]);

    // Seeded so the rotation already faces the lower neighbour, it is left
    // alone rather than flipped twice.
    let directed = direct_closed_run(vec![2, 7, 4, 9, 2]);
    assert_eq!(directed, vec![2, 7, 4, 9, 2]);
}

#[test]
fn a_closed_run_turns_round_when_the_lower_neighbour_is_behind() {
    assert_eq!(direct_closed_run(vec![5, 3, 1, 2, 5]), vec![1, 2, 5, 3, 1]);
    assert_eq!(direct_closed_run(vec![5, 1, 3, 2, 5]), vec![1, 3, 2, 5, 1]);
}

#[test]
fn the_envelope_is_the_extreme_cells() {
    let cells = [GridPoint::new(2, -1), GridPoint::new(-3, 4), GridPoint::new(0, 0)];
    assert_eq!(bounds(&cells), (-3, 2, -1, 4));
    assert_eq!(bounds(&[]), (0, 0, 0, 0));
    assert_eq!(bounds(&[GridPoint::new(5, 6)]), (5, 5, 6, 6));
}

#[test]
fn a_shared_trunk_frames_its_interior_with_both_lines_by_id() {
    // Lines "z" and "a" share the trunk w - x - y; they part at both ends.
    let network = net(
        &["p", "w", "x", "y", "q", "r", "s"],
        &[("z", &["p", "w", "x", "y", "q"]), ("a", &["r", "w", "x", "y", "s"])],
    );
    let frames = station_runs(&network);
    assert_eq!(frames.len(), 7);
    // Only the trunk's interior station is framed: w and y are junctions.
    for (s, frame) in frames.iter().enumerate() {
        assert_eq!(frame.is_some(), s == 2, "station {s}");
    }
    let frame = frames[2].as_ref().unwrap();
    assert_eq!((frame.previous, frame.next), (1, 3));
    // Sorted by id: "a" (line 1) before "z" (line 0).
    assert_eq!(frame.lines_by_id, vec![1, 0]);
    assert_eq!(frame.rank(0), Some(1));
    assert_eq!(frame.rank(1), Some(0));
    assert_eq!(frame.rank(5), None);
}

#[test]
fn a_lone_cycle_is_one_closed_run_framing_every_station() {
    let network = net(&["a", "b", "c", "d"], &[("l", &["c", "a", "d", "b", "c"])]);
    let frames = station_runs(&network);
    assert!(frames.iter().all(|f| f.is_some()));
    // Directed from station 0 towards its lower neighbour.
    let at_a = frames[0].as_ref().unwrap();
    assert_eq!((at_a.previous, at_a.next), (3, 2));
    assert_eq!(at_a.lines_by_id, vec![0]);
}

#[test]
fn a_terminus_and_a_junction_carry_no_frame() {
    let network = net(&["a", "b", "c"], &[("l", &["a", "b", "c"])]);
    let frames = station_runs(&network);
    assert!(frames[0].is_none() && frames[2].is_none());
    let middle = frames[1].as_ref().unwrap();
    assert_eq!((middle.previous, middle.next), (0, 2));
}
