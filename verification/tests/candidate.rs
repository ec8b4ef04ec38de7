use llika::geometry::segments_overlap;
use llika::grid::{ring, GridOccupancy, GridPoint};
use llika::layout::candidate::{is_rotation, is_valid_move, ordered_neighbours, spiral_offsets};
use llika::model::{InputSchema, Line, Network, Station};

fn net(stations: &[&str], lines: &[(&str, &[&str])]) -> Network {
    let input = InputSchema {
        stations: stations
            .iter()
            .map(|id| Station {
                id: id.to_string(),
                name: id.to_string(),
                lat_bits: 0f64.to_bits(),
                lon_bits: 0f64.to_bits(),
            })
            .collect(),
        lines: lines
            .iter()
            .map(|(id, walk)| Line {
                id: id.to_string(),
                name: id.to_string(),
                color: "#000000".to_string(),
                stations: walk.iter().map(|s| s.to_string()).collect(),
            })
            .collect(),
    };
    Network::from_input(input).expect("the hand-built network is valid")
}

fn at(cells: &[(i64, i64)]) -> Vec<GridPoint> {
    cells.iter().map(|(i, j)| GridPoint::new(*i, *j)).collect()
}

fn occupied(positions: &[GridPoint]) -> GridOccupancy {
    let mut occupancy = GridOccupancy::new();
    for (station, cell) in positions.iter().enumerate() {
        occupancy.claim(station, *cell);
    }
    occupancy
}

fn junction() -> (Network, Vec<GridPoint>) {
    (
        net(
            &["hub", "east", "north", "west"],
            &[("a", &["east", "hub", "west"]), ("b", &["north", "hub"])],
        ),
        at(&[(0, 0), (2, 0), (0, 2), (-2, 0)]),
    )
}

#[test]
fn a_move_onto_an_occupied_cell_is_rejected() {
    let (network, mut positions) = junction();
    let occupancy = occupied(&positions);
    assert!(!is_valid_move(&network, &mut positions, &occupancy, 0, GridPoint::new(0, 2)));
    assert!(is_valid_move(&network, &mut positions, &occupancy, 0, GridPoint::new(1, 2)));
}

#[test]
fn an_order_flipping_move_at_a_junction_is_rejected() {
    let (network, mut positions) = junction();
    let occupancy = occupied(&positions);

    assert_eq!(ordered_neighbours(&network, &positions, 0), vec![1, 2, 3]);

    let past_the_north = GridPoint::new(0, 3);
    positions[0] = past_the_north;
    assert_eq!(ordered_neighbours(&network, &positions, 0), vec![3, 2, 1]);
    positions[0] = GridPoint::new(0, 0);

    assert!(!is_valid_move(&network, &mut positions, &occupancy, 0, past_the_north));

    let one_north = GridPoint::new(0, 1);
    positions[0] = one_north;
    assert_eq!(ordered_neighbours(&network, &positions, 0), vec![2, 3, 1]);
    positions[0] = GridPoint::new(0, 0);

    assert!(is_valid_move(&network, &mut positions, &occupancy, 0, one_north));
    // The positions are handed back as they were.
    assert_eq!(positions, at(&[(0, 0), (2, 0), (0, 2), (-2, 0)]));
}

#[test]
fn the_order_rule_is_vacuous_below_degree_three() {
    assert!(is_rotation(&[], &[]));
    assert!(is_rotation(&[4], &[4]));
    assert!(is_rotation(&[4, 9], &[9, 4]));

    assert!(is_rotation(&[1, 2, 3], &[3, 1, 2]));
    assert!(!is_rotation(&[1, 2, 3], &[3, 2, 1]));
}

#[test]
fn a_rotation_needs_equal_lengths_and_the_same_members() {
    assert!(!is_rotation(&[1, 2, 3], &[1, 2]));
    assert!(!is_rotation(&[1, 2, 3], &[4, 1, 2]));
    assert!(is_rotation(&[5, 6, 7, 8], &[7, 8, 5, 6]));
}

#[test]
fn a_fold_back_onto_a_neighbouring_edge_is_rejected() {
    let network = net(&["a", "s", "b"], &[("l", &["a", "s", "b"])]);
    let mut positions = at(&[(0, 0), (1, 1), (2, 2)]);
    let occupancy = occupied(&positions);
    assert!(!is_valid_move(&network, &mut positions, &occupancy, 1, GridPoint::new(3, 3)));
}

#[test]
fn a_move_into_a_collinear_straight_through_is_not_rejected() {
    let network = net(&["a", "s", "b"], &[("l", &["a", "s", "b"])]);
    let mut positions = at(&[(0, 0), (1, 0), (2, 2)]);
    let occupancy = occupied(&positions);

    // Straightening it puts `a—s` and `s—b` on one line through `s`.
    let straight = GridPoint::new(1, 1);
    assert!(is_valid_move(&network, &mut positions, &occupancy, 1, straight));

    // The two edges meet at exactly one point, which an overlap does not count.
    assert!(!segments_overlap(GridPoint::new(0, 0), straight, straight, GridPoint::new(2, 2)));
}

#[test]
fn the_candidate_set_is_the_rings_in_spiral_order() {
    assert!(spiral_offsets(0).is_empty());
    assert_eq!(spiral_offsets(1), ring(1));
    assert_eq!(spiral_offsets(2).len(), 24);
    assert_eq!(spiral_offsets(2)[0], (1, 0));
    assert_eq!(spiral_offsets(2)[8], (2, 0));
    assert!(!spiral_offsets(3).contains(&(0, 0)));
}

#[test]
fn neighbours_on_one_ray_order_by_station_index() {
    // Both neighbours due east of the hub; the lower index comes first.
    let network = net(&["hub", "near", "far"], &[("l", &["near", "hub", "far"])]);
    let positions = at(&[(0, 0), (1, 0), (3, 0)]);
    assert_eq!(ordered_neighbours(&network, &positions, 0), vec![1, 2]);
}

#[test]
fn a_straight_through_is_accepted_at_the_far_edge_of_the_coordinate_range() {
    let m = i64::MAX;
    let network = net(&["a", "s", "b"], &[("l", &["a", "s", "b"])]);
    let mut positions = vec![GridPoint::new(m - 2, m - 2), GridPoint::new(m - 1, m - 2), GridPoint::new(m, m)];
    let occupancy = occupied(&positions);
    assert!(is_valid_move(&network, &mut positions, &occupancy, 1, GridPoint::new(m - 1, m - 1)));
    assert_eq!(positions[1], GridPoint::new(m - 1, m - 2));
}
