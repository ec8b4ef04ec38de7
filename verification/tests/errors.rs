use llika::model::{InputError, InputSchema, Line, Network, Station};

fn station(id: &str, name: &str) -> Station {
    Station { id: id.to_string(), name: name.to_string(), lat_bits: 37.78f64.to_bits(), lon_bits: (-122.42f64).to_bits() }
}

fn line(id: &str, stations: &[&str]) -> Line {
    Line {
        id: id.to_string(),
        name: id.to_uppercase(),
        color: "#000000".to_string(),
        stations: stations.iter().map(|s| s.to_string()).collect(),
    }
}

fn reject(input: InputSchema) -> InputError {
    match Network::from_input(input) {
        Err(error) => error,
        Ok(_) => panic!("this input must be rejected"),
    }
}

#[test]
fn a_line_referencing_an_undefined_station_is_rejected() {
    let error = reject(InputSchema {
        stations: vec![station("a", "A"), station("b", "B")],
        lines: vec![line("l1", &["a", "ghost"])],
    });
    assert_eq!(error, InputError::UnknownStation { line: "l1".into(), station: "ghost".into() });
}

#[test]
fn a_duplicate_station_id_is_rejected() {
    let error = reject(InputSchema { stations: vec![station("a", "A"), station("a", "A again")], lines: vec![] });
    assert_eq!(error, InputError::DuplicateStation { id: "a".into() });
}

#[test]
fn a_duplicate_line_id_is_rejected() {
    let error = reject(InputSchema {
        stations: vec![station("a", "A"), station("b", "B")],
        lines: vec![line("l1", &["a", "b"]), line("l1", &["b", "a"])],
    });
    assert_eq!(error, InputError::DuplicateLine { id: "l1".into() });
}

#[test]
fn a_line_with_fewer_than_two_stations_is_rejected() {
    let error = reject(InputSchema { stations: vec![station("a", "A")], lines: vec![line("l1", &["a"])] });
    assert_eq!(error, InputError::LineTooShort { id: "l1".into(), count: 1 });
}

#[test]
fn the_same_station_twice_consecutively_is_rejected() {
    let error = reject(InputSchema {
        stations: vec![station("a", "A"), station("b", "B")],
        lines: vec![line("l1", &["a", "a", "b"])],
    });
    assert_eq!(error, InputError::RepeatedStation { line: "l1".into(), station: "a".into() });
}

#[test]
fn a_station_no_line_references_is_accepted() {
    let network = Network::from_input(InputSchema {
        stations: vec![station("a", "A"), station("b", "B"), station("lonely", "Lonely")],
        lines: vec![line("l1", &["a", "b"])],
    })
    .expect("an isolated node is legal");
    assert_eq!(network.stations().len(), 3);
    let lonely = network.station_index("lonely").expect("lonely exists");
    assert_eq!(network.degree(lonely), 0);
    assert_eq!(network.edge_count(), 1);
}

#[test]
fn two_lines_over_one_pair_share_one_corridor() {
    let network = Network::from_input(InputSchema {
        stations: vec![station("a", "A"), station("b", "B"), station("c", "C")],
        lines: vec![line("l1", &["a", "b", "c"]), line("l2", &["c", "b"])],
    })
    .expect("valid");
    assert_eq!(network.edge_count(), 2);
    assert_eq!(network.corridors(), vec![(0, 1), (1, 2)]);
    let shared = network.lines_between(2, 1).expect("adjacent");
    assert_eq!(shared.iter().copied().collect::<Vec<_>>(), vec![0, 1]);
    assert!(network.lines_between(0, 2).is_none());
    assert_eq!(network.degree(1), 2);
    assert_eq!(network.lines_at_station(0).iter().copied().collect::<Vec<_>>(), vec![0]);
    assert_eq!(network.station_index("c"), Some(2));
    assert_eq!(network.station_index("nowhere"), None);
    assert_eq!(network.node(2), 2);
    assert_eq!(network.graph()[petgraph::graph::NodeIndex::new(network.node(2))], 2);
}

#[test]
fn the_first_error_in_check_order_is_reported() {
    // A duplicate station and a short line: duplicates are checked first.
    let error = reject(InputSchema {
        stations: vec![station("a", "A"), station("a", "A")],
        lines: vec![line("l1", &["a"])],
    });
    assert_eq!(error, InputError::DuplicateStation { id: "a".into() });
}

#[test]
fn a_line_reports_its_consecutive_repeat_before_an_unknown_reference() {
    let error = reject(InputSchema {
        stations: vec![station("a", "A")],
        lines: vec![line("l1", &["a", "ghost", "ghost"])],
    });
    assert_eq!(error, InputError::RepeatedStation { line: "l1".into(), station: "ghost".into() });
}
