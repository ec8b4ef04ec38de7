use llika::grid::{ring, GridOccupancy, GridPoint};

#[test]
fn the_first_ring_starts_due_east_and_runs_counter_clockwise() {
    assert_eq!(
        ring(1),
        vec![(1, 0), (1, 1), (0, 1), (-1, 1), (-1, 0), (-1, -1), (0, -1), (1, -1)]
    );
    assert_eq!(ring(2).len(), 16);
    assert_eq!(ring(2)[0], (2, 0));
    assert!(ring(0).is_empty());
}

#[test]
fn a_displaced_station_takes_the_first_free_cell_in_spiral_order() {
    let mut occupancy = GridOccupancy::new();
    let cell = GridPoint::new(4, 7);
    assert_eq!(occupancy.claim(0, cell), cell);
    // Due east is the first cell of ring 1.
    assert_eq!(occupancy.claim(1, cell), GridPoint::new(5, 7));
    // Then north-east.
    assert_eq!(occupancy.claim(2, cell), GridPoint::new(5, 8));
}

#[test]
fn relocating_frees_the_old_cell_and_takes_the_new_one() {
    let mut occupancy = GridOccupancy::new();
    let (from, to) = (GridPoint::new(0, 0), GridPoint::new(3, -2));
    occupancy.claim(7, from);

    occupancy.relocate(7, from, to);

    assert!(occupancy.is_free(from), "the vacated cell is free again");
    assert_eq!(occupancy.station_at(to), Some(7));
    assert_eq!(occupancy.len(), 1);
}

#[test]
fn a_full_first_ring_sends_the_tenth_claim_to_the_second() {
    let mut occupancy = GridOccupancy::new();
    let centre = GridPoint::new(0, 0);
    for station in 0..9 {
        occupancy.claim(station, centre);
    }
    assert_eq!(occupancy.len(), 9);
    // Ring 1 is full, so ring 2 starts due east.
    assert_eq!(occupancy.claim(9, centre), GridPoint::new(2, 0));
    assert!(!occupancy.is_empty());
}

#[test]
fn a_ring_holds_every_cell_at_its_distance_once() {
    for k in 1..5i64 {
        let cells = ring(k);
        assert_eq!(cells.len() as i64, 8 * k);
        for (i, j) in &cells {
            assert_eq!(i.abs().max(j.abs()), k);
        }
        let mut sorted = cells.clone();
        sorted.sort();
        sorted.dedup();
        assert_eq!(sorted.len(), cells.len());
    }
}

#[test]
fn offsets_move_a_cell() {
    assert_eq!(GridPoint::new(2, 3).offset(-1, 4), GridPoint::new(1, 7));
}

#[test]
fn stations_claiming_in_turn_each_hold_a_cell_of_their_own() {
    let mut occupancy = GridOccupancy::new();
    let preferred = [(0, 0), (0, 0), (1, 0), (0, 0), (5, 5), (5, 5)];
    let cells: Vec<GridPoint> = preferred
        .iter()
        .enumerate()
        .map(|(station, (i, j))| occupancy.claim(station, GridPoint::new(*i, *j)))
        .collect();

    for (s, a) in cells.iter().enumerate() {
        assert_eq!(occupancy.station_at(*a), Some(s));
        for b in &cells[s + 1..] {
            assert_ne!(a, b);
        }
    }
    assert_eq!(occupancy.len(), cells.len());
    assert_eq!(cells[1], GridPoint::new(1, 0));
    assert_eq!(cells[2], GridPoint::new(2, 0));
    assert_eq!(cells[3], GridPoint::new(1, 1));
}

#[test]
fn a_claim_at_the_edge_of_the_coordinate_range_spirals_onto_the_last_cell() {
    let mut occupancy = GridOccupancy::new();
    let edge = GridPoint::new(i64::MAX - 1, 0);
    assert_eq!(occupancy.claim(0, edge), edge);
    assert_eq!(occupancy.claim(1, edge), GridPoint::new(i64::MAX, 0));
    let far = GridPoint::new(i64::MIN, i64::MIN);
    assert_eq!(occupancy.claim(2, far), far);
}
