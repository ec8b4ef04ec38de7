use llika::grid::GridPoint;
use llika::layout::cost::c1_crossings;
use llika::model::{InputSchema, Line, Network, Station};

fn net(stations: &[&str], lines: &[(&str, &[&str])]) -> Network {
    let input = InputSchema {
        stations: stations
            .iter()
            .map(|id| Station {
                id: id.to_string(),
                name: id.to_string(),
                lat_bits: 0f64.to_bits(),
                lon_bits: 0f64.to_bits(),
            })
            .collect(),
        lines: lines
            .iter()
            .map(|(id, walk)| Line {
                id: id.to_string(),
                name: id.to_string(),
                color: "#000000".to_string(),
                stations: walk.iter().map(|s| s.to_string()).collect(),
            })
            .collect(),
    };
    Network::from_input(input).expect("the hand-built network is valid")
}

fn at(cells: &[(i64, i64)]) -> Vec<GridPoint> {
    cells.iter().map(|(i, j)| GridPoint::new(*i, *j)).collect()
}

#[test]
fn c1_is_zero_for_a_path_graph() {
    let network = net(&["a", "b", "c", "d"], &[("l", &["a", "b", "c", "d"])]);
    let positions = at(&[(0, 0), (1, 0), (2, 0), (3, 0)]);
    assert_eq!(c1_crossings(&network, &positions), 0);

    let positions = at(&[(0, 0), (1, 0), (1, 1), (0, 1)]);
    assert_eq!(c1_crossings(&network, &positions), 0);
}

#[test]
fn c1_counts_a_proper_crossing_once() {
    let network = net(&["a", "b", "c", "d"], &[("l", &["a", "b"]), ("m", &["c", "d"])]);
    let positions = at(&[(0, 0), (2, 2), (0, 2), (2, 0)]);
    assert_eq!(c1_crossings(&network, &positions), 1);
}

#[test]
fn c1_counts_a_touching_pair_once() {
    let network = net(&["a", "b", "c", "d"], &[("l", &["a", "b"]), ("m", &["c", "d"])]);
    let positions = at(&[(0, 0), (4, 0), (2, 0), (2, 3)]);
    assert_eq!(c1_crossings(&network, &positions), 1);
}

#[test]
fn c1_counts_every_crossing_pair() {
    // One long edge crossed by two short ones.
    let network = net(
        &["a", "b", "c", "d", "e", "f"],
        &[("l", &["a", "b"]), ("m", &["c", "d"]), ("n", &["e", "f"])],
    );
    let positions = at(&[(0, 0), (6, 0), (1, -1), (1, 1), (4, -1), (4, 1)]);
    assert_eq!(c1_crossings(&network, &positions), 2);
}
