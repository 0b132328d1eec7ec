use battleship::coord::CoordState;
use battleship::grid::Grid;
use battleship::placement::{
    contains_cell, covers_cells, full_points, remove_cells, PlacementFaults,
};

fn no_faults() -> PlacementFaults {
    PlacementFaults {
        out_of_range: false,
        not_straight: false,
        zero_length: false,
        wrong_length: false,
        overlap: false,
        name_taken: false,
    }
}

#[test]
fn full_points_lists_the_board_row_by_row() {
    let points = full_points();
    assert_eq!(points.len(), 100);
    assert_eq!(points[0], (0, 0));
    assert_eq!(points[1], (0, 1));
    assert_eq!(points[10], (1, 0));
    assert_eq!(points[57], (5, 7));
    assert_eq!(points[99], (9, 9));
}

#[test]
fn cell_lookups() {
    let cells = vec![(1, 1), (2, 1), (3, 1)];
    assert!(contains_cell(&cells, 2, 1));
    assert!(!contains_cell(&cells, 1, 2));
    assert!(!contains_cell(&Vec::new(), 0, 0));
    assert!(covers_cells(&cells, &vec![(3, 1), (1, 1)]));
    assert!(!covers_cells(&cells, &vec![(3, 1), (4, 1)]));
    assert!(covers_cells(&cells, &Vec::new()));
}

#[test]
fn remove_cells_keeps_the_order_of_the_rest() {
    let mut points = vec![(0, 0), (0, 1), (0, 2), (1, 0), (1, 1)];
    remove_cells(&mut points, &vec![(1, 0), (0, 1), (7, 7)]);
    assert_eq!(points, vec![(0, 0), (0, 2), (1, 1)]);
}

#[test]
fn a_clear_placement_has_no_fault() {
    let grid = Grid::new();
    let points = full_points();
    let faults = grid.check_user_ship(&"Cruiser".to_string(), (2, 'B'), (4, 'B'), 3, &points);
    assert_eq!(faults, no_faults());
    assert!(faults.is_clear());
}

#[test]
fn fault_out_of_range() {
    let grid = Grid::new();
    let points = full_points();
    let want = PlacementFaults { out_of_range: true, ..no_faults() };
    let name = "Cruiser".to_string();
    assert_eq!(grid.check_user_ship(&name, (0, 'B'), (2, 'B'), 3, &points), want);
    assert_eq!(grid.check_user_ship(&name, (9, 'B'), (11, 'B'), 3, &points), want);
    assert_eq!(grid.check_user_ship(&name, (1, 'K'), (1, 'I'), 3, &points), want);
    assert_eq!(grid.check_user_ship(&name, (1, 'z'), (3, 'c'), 2, &points), want);
    assert!(!want.is_clear());
}

#[test]
fn fault_not_straight() {
    let grid = Grid::new();
    let points = full_points();
    let name = "Cruiser".to_string();
    let faults = grid.check_user_ship(&name, (1, 'A'), (3, 'C'), 3, &points);
    assert_eq!(faults, PlacementFaults { not_straight: true, ..no_faults() });
    let faults = grid.check_user_ship(&name, (1, 'A'), (2, 'C'), 3, &points);
    assert_eq!(faults, PlacementFaults { not_straight: true, wrong_length: true, ..no_faults() });
}

#[test]
fn fault_zero_length() {
    let grid = Grid::new();
    let points = full_points();
    let name = "Cruiser".to_string();
    let faults = grid.check_user_ship(&name, (4, 'D'), (4, 'D'), 3, &points);
    assert_eq!(faults, PlacementFaults { zero_length: true, wrong_length: true, ..no_faults() });
    let faults = grid.check_user_ship(&name, (4, 'D'), (4, 'D'), 1, &points);
    assert_eq!(faults, PlacementFaults { zero_length: true, ..no_faults() });
}

#[test]
fn fault_wrong_length() {
    let grid = Grid::new();
    let points = full_points();
    let name = "Cruiser".to_string();
    let want = PlacementFaults { wrong_length: true, ..no_faults() };
    assert_eq!(grid.check_user_ship(&name, (2, 'B'), (4, 'B'), 4, &points), want);
    assert_eq!(grid.check_user_ship(&name, (2, 'B'), (4, 'B'), 2, &points), want);
    assert_eq!(grid.check_user_ship(&name, (2, 'B'), (2, 'F'), 3, &points), want);
    assert_eq!(grid.check_user_ship(&name, (2, 'B'), (4, 'B'), 0, &points), want);
    assert_eq!(grid.check_user_ship(&name, (2, 'B'), (4, 'B'), u32::MAX, &points), want);
}

#[test]
fn fault_overlap_and_name_taken() {
    let mut grid = Grid::new();
    let mut points = full_points();
    assert!(grid.place_user_ship("Battleship".to_string(), (2, 'B'), (4, 'B'), 3, &mut points));
    let faults = grid.check_user_ship(&"Destroyer".to_string(), (2, 'A'), (2, 'C'), 3, &points);
    assert_eq!(faults, PlacementFaults { overlap: true, ..no_faults() });
    let faults = grid.check_user_ship(&"Destroyer".to_string(), (3, 'A'), (3, 'C'), 2, &points);
    assert_eq!(faults, PlacementFaults { overlap: true, wrong_length: true, ..no_faults() });
    let faults = grid.check_user_ship(&"Battleship".to_string(), (7, 'A'), (7, 'C'), 3, &points);
    assert_eq!(faults, PlacementFaults { name_taken: true, ..no_faults() });
    assert!(!grid.place_user_ship("Battleship".to_string(), (7, 'A'), (7, 'C'), 3, &mut points));
    assert_eq!(grid.ships.len(), 1);
    assert_eq!(grid.grid[6][0].state, CoordState::Blank);
}

#[test]
fn a_refused_placement_changes_nothing() {
    let mut grid = Grid::new();
    let mut points = full_points();
    assert!(grid.place_user_ship("Battleship".to_string(), (2, 'B'), (4, 'B'), 3, &mut points));
    let points_before = points.clone();
    assert!(!grid.place_user_ship("Destroyer".to_string(), (2, 'A'), (2, 'C'), 3, &mut points));
    assert_eq!(points, points_before);
    assert_eq!(grid.ships.len(), 1);
    assert_eq!(grid.grid[1][0].state, CoordState::Blank);
    assert_eq!(grid.grid[1][1].state, CoordState::Ship);
    assert_eq!(grid.grid[1][2].state, CoordState::Blank);
    assert!(!grid.place_user_ship("Destroyer".to_string(), (2, 'A'), (3, 'C'), 3, &mut points));
    assert!(!grid.place_user_ship("Destroyer".to_string(), (0, 'A'), (2, 'A'), 3, &mut points));
    assert_eq!(points, points_before);
}

#[test]
fn placement_takes_its_cells_from_the_points() {
    let mut grid = Grid::new();
    let mut points = full_points();
    assert!(grid.place_user_ship("Battleship".to_string(), (2, 'B'), (4, 'B'), 3, &mut points));
    assert_eq!(points.len(), 97);
    assert!(!points.contains(&(1, 1)));
    assert!(!points.contains(&(2, 1)));
    assert!(!points.contains(&(3, 1)));
    let mut want = full_points();
    want.retain(|p| *p != (1, 1) && *p != (2, 1) && *p != (3, 1));
    assert_eq!(points, want);
}

#[test]
fn end_points_may_come_in_either_order() {
    let mut grid = Grid::new();
    let mut points = full_points();
    assert!(grid.place_user_ship("Carrier".to_string(), (7, 'C'), (3, 'C'), 5, &mut points));
    assert_eq!(grid.ships[0].cells, vec![(2, 2), (3, 2), (4, 2), (5, 2), (6, 2)]);
    assert_eq!(grid.ships[0].length, 5);
    assert!(grid.place_user_ship("Cruiser".to_string(), (1, 'J'), (1, 'H'), 3, &mut points));
    assert_eq!(grid.ships[1].cells, vec![(0, 7), (0, 8), (0, 9)]);
    assert!(grid.place_user_ship("Destroyer".to_string(), (10, 'A'), (10, 'B'), 2, &mut points));
    assert_eq!(grid.ships[2].cells, vec![(9, 0), (9, 1)]);
    assert_eq!(points.len(), 90);
    for ship in &grid.ships {
        for (r, c) in &ship.cells {
            assert_eq!(grid.grid[*r][*c].state, CoordState::Ship);
        }
    }
}

#[test]
fn placed_ships_share_no_cell() {
    let mut grid = Grid::new();
    let mut points = full_points();
    assert!(grid.place_user_ship("Carrier".to_string(), (1, 'A'), (1, 'E'), 5, &mut points));
    assert!(grid.place_user_ship("Battleship".to_string(), (2, 'A'), (5, 'A'), 4, &mut points));
    assert!(!grid.place_user_ship("Cruiser".to_string(), (1, 'E'), (3, 'E'), 3, &mut points));
    assert!(grid.place_user_ship("Cruiser".to_string(), (2, 'E'), (4, 'E'), 3, &mut points));
    assert!(grid.place_user_ship("Submarine".to_string(), (10, 'H'), (10, 'J'), 3, &mut points));
    assert!(grid.place_user_ship("Destroyer".to_string(), (6, 'F'), (6, 'G'), 2, &mut points));
    let mut seen = Vec::new();
    let mut total = 0;
    for ship in &grid.ships {
        assert_eq!(ship.cells.len(), ship.length);
        total += ship.length;
        for cell in &ship.cells {
            assert!(!seen.contains(cell));
            seen.push(*cell);
        }
    }
    assert_eq!(total, 17);
    assert_eq!(seen.len(), 17);
    assert_eq!(points.len(), 83);
    let shown = grid
        .grid
        .iter()
        .map(|row| row.iter().filter(|cell| cell.state == CoordState::Ship).count())
        .sum::<usize>();
    assert_eq!(shown, 17);
}
