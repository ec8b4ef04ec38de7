use llika::grid::{GridOccupancy, GridPoint};
use llika::layout::candidate::ordered_neighbours;
use llika::layout::cluster::{apply, back, find, is_valid_move, projection, translate, Cluster};
use llika::model::{InputSchema, Line, Network, Station};

fn net(stations: &[&str], lines: &[(&str, &[&str])]) -> Network {
    let input = InputSchema {
        stations: stations
            .iter()
            .map(|id| Station {
                id: id.to_string(),
                name: id.to_string(),
                lat_bits: 0f64.to_bits(),
                lon_bits: 0f64.to_bits(),
            })
            .collect(),
        lines: lines
            .iter()
            .map(|(id, walk)| Line {
                id: id.to_string(),
                name: id.to_string(),
                color: "#000000".to_string(),
                stations: walk.iter().map(|s| s.to_string()).collect(),
            })
            .collect(),
    };
    Network::from_input(input).expect("the hand-built network is valid")
}

fn at(cells: &[(i64, i64)]) -> Vec<GridPoint> {
    cells.iter().map(|(i, j)| GridPoint::new(*i, *j)).collect()
}

fn occupied(positions: &[GridPoint]) -> GridOccupancy {
    let mut occupancy = GridOccupancy::new();
    for (station, cell) in positions.iter().enumerate() {
        occupancy.claim(station, *cell);
    }
    occupancy
}

#[test]
fn a_bridge_between_two_cycles_splits_evenly_and_the_lower_index_side_wins() {
    let network = net(
        &["s0", "s1", "s2", "s3", "s4", "s5"],
        &[
            ("a", &["s0", "s1", "s2", "s0"]),
            ("b", &["s2", "s3"]),
            ("c", &["s3", "s4", "s5", "s3"]),
        ],
    );
    let clusters = find(&network);
    assert_eq!(clusters.len(), 1, "only the joining edge is a bridge");
    assert_eq!(clusters[0].bridge, 3, "`s2`-`s3` is the fourth corridor");
    assert_eq!(clusters[0].members, vec![0, 1, 2]);
}

fn spur() -> (Network, Vec<GridPoint>, Cluster) {
    let network = net(&["a", "b", "c", "d", "blocker"], &[("l", &["a", "b", "c", "d"])]);
    let positions = at(&[(1, -1), (1, 0), (4, 0), (5, 0), (2, 0)]);
    let cluster = Cluster { bridge: 1, members: vec![0, 1] };
    assert_eq!(find(&network), vec![cluster.clone()]);
    (network, positions, cluster)
}

#[test]
fn a_cluster_may_translate_onto_its_own_vacated_cells() {
    let (network, mut positions, cluster) = spur();
    let occupancy = occupied(&positions);
    assert!(is_valid_move(&network, &mut positions, &occupancy, &cluster, (0, 1)));
    assert!(!is_valid_move(&network, &mut positions, &occupancy, &cluster, (1, 0)));
}

#[test]
fn a_bridge_folded_back_along_the_clusters_own_edge_is_rejected() {
    let (network, mut positions, cluster) = spur();
    let occupancy = occupied(&positions);
    assert!(!is_valid_move(&network, &mut positions, &occupancy, &cluster, (3, 3)));
}

#[test]
fn a_cluster_sliding_into_a_collinear_straight_through_is_not_rejected() {
    let network = net(&["a", "b", "c", "d"], &[("l", &["a", "b", "c", "d"])]);
    let mut positions = at(&[(0, 0), (1, 0), (4, 0), (5, 0)]);
    let occupancy = occupied(&positions);
    let cluster = Cluster { bridge: 1, members: vec![0, 1] };
    assert_eq!(find(&network), vec![cluster.clone()]);
    assert!(is_valid_move(&network, &mut positions, &occupancy, &cluster, (2, 0)));
}

#[test]
fn a_translation_that_flips_the_outside_endpoints_fan_is_rejected() {
    let network = net(
        &["v", "p", "q", "u", "w"],
        &[("a", &["p", "v", "q"]), ("b", &["v", "u", "w"])],
    );
    let mut positions = at(&[(0, 0), (2, 0), (-2, 0), (0, 2), (1, 2)]);
    let occupancy = occupied(&positions);
    let cluster = Cluster { bridge: 2, members: vec![3, 4] };
    assert_eq!(find(&network), vec![cluster.clone()]);

    assert_eq!(ordered_neighbours(&network, &positions, 0), vec![1, 3, 2]);
    assert!(!is_valid_move(&network, &mut positions, &occupancy, &cluster, (0, -4)));
    assert!(is_valid_move(&network, &mut positions, &occupancy, &cluster, (1, 0)));
    // Every check hands the positions back unchanged.
    assert_eq!(positions, at(&[(0, 0), (2, 0), (-2, 0), (0, 2), (1, 2)]));
}

#[test]
fn an_accepted_move_relocates_the_front_of_the_cluster_first() {
    let (_, mut positions, cluster) = spur();
    let mut occupancy = occupied(&positions);

    apply(&mut positions, &mut occupancy, &cluster, (0, 1));

    assert_eq!(positions[0], GridPoint::new(1, 0));
    assert_eq!(positions[1], GridPoint::new(1, 1));
    assert_eq!(occupancy.station_at(GridPoint::new(1, 0)), Some(0));
    assert_eq!(occupancy.station_at(GridPoint::new(1, 1)), Some(1));
    assert!(occupancy.is_free(GridPoint::new(1, -1)), "the tail vacated");
    assert_eq!(occupancy.len(), 5, "a relocation is not a claim");
}

#[test]
fn a_cluster_holds_exactly_one_end_of_its_bridge() {
    let network = net(
        &["s0", "s1", "s2", "s3", "s4", "s5", "s6"],
        &[("a", &["s0", "s1", "s2"]), ("b", &["s2", "s3", "s4", "s5", "s6"])],
    );
    let corridors = network.corridors();
    for cluster in find(&network) {
        let (a, b) = corridors[cluster.bridge];
        assert!(cluster.members.contains(&a) != cluster.members.contains(&b));
        assert!(cluster.members.len() >= 2);
        assert!(cluster.members.windows(2).all(|w| w[0] < w[1]));
    }
}

#[test]
fn a_cycle_has_no_bridge_and_so_no_cluster() {
    let network = net(&["a", "b", "c", "d"], &[("l", &["a", "b", "c", "d", "a"])]);
    assert!(find(&network).is_empty());
}

#[test]
fn translating_there_and_back_restores_the_positions() {
    let mut positions = at(&[(1, -1), (1, 0), (4, 0)]);
    let members = vec![0, 2];
    translate(&mut positions, &members, (3, -2));
    assert_eq!(positions, at(&[(4, -3), (1, 0), (7, -2)]));
    translate(&mut positions, &members, back((3, -2)));
    assert_eq!(positions, at(&[(1, -1), (1, 0), (4, 0)]));
    assert_eq!(back((3, -2)), (-3, 2));
}

#[test]
fn projection_measures_along_the_offset() {
    assert_eq!(projection(GridPoint::new(2, 3), (1, 0)), 2);
    assert_eq!(projection(GridPoint::new(2, 3), (-2, 5)), 11);
}

#[test]
fn projection_is_exact_beyond_the_range_of_a_coordinate() {
    let m = i64::MAX;
    assert_eq!(projection(GridPoint::new(m, m), (m, m)), 2 * (m as i128) * (m as i128));
    assert_eq!(projection(GridPoint::new(i64::MIN, 0), (i64::MIN, 5)), (i64::MIN as i128) * (i64::MIN as i128));
}
