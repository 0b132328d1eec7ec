use battleship::coord::CoordState;
use battleship::grid::Grid;
use battleship::possible_guess::PossibleGuesses;

#[test]
fn test_grid() {
    let mut grid1 = Grid::new();
    assert_eq!(grid1.grid[0][0].state, CoordState::Blank);
    assert!(grid1.ships.is_empty());

    grid1.update_coord_state(1, 'A', CoordState::Hit);
    assert_eq!(grid1.grid[0][0].state, CoordState::Hit);

    grid1.update_coord_state(10, 'J', CoordState::Miss);
    assert_eq!(grid1.grid[9][9].state, CoordState::Miss);
}

#[test]
fn test_user_ship() {
    let mut grid1 = Grid::new();
    let mut points = vec![];
    for i in 0..10 {
        for j in 0..10 {
            points.push((i as usize, j as usize));
        }
    }
    let v1 =
        grid1.place_user_ship("Battleship".to_string(), (2, 'B'), (4, 'B'), 3, &mut points);
    assert!(v1);
    assert_eq!(grid1.grid[1][1].state, CoordState::Ship);
    assert_eq!(grid1.grid[2][1].state, CoordState::Ship);
    assert_eq!(grid1.grid[3][1].state, CoordState::Ship);
    let battleship = grid1.ship_index(&"Battleship".to_string()).unwrap();
    assert_eq!(grid1.ships[battleship].cells, vec![(1, 1), (2, 1), (3, 1)]);

    let v2 = grid1.place_user_ship("Destroyer".to_string(), (2, 'A'), (2, 'C'), 3, &mut points);
    assert!(!v2);
    assert_eq!(grid1.grid[1][0].state, CoordState::Blank);
}

#[test]
fn test_computer_ship() {
    let mut grid2 = Grid::new();
    let mut points = vec![];
    for i in 0..10 {
        for j in 0..10 {
            points.push((i, j));
        }
    }
    let len1 = points.len();
    grid2.create_ship(("Battleship".to_string(), 3), &mut points, 0);
    assert_eq!(len1 - 3, points.len());
    assert!(grid2.has_ship(&"Battleship".to_string()));
    let battleship = grid2.ship_index(&"Battleship".to_string()).unwrap();
    let ship = grid2.ships[battleship].cells.clone();
    for (row, col) in ship {
        assert_eq!(grid2.grid[row][col].state, CoordState::Ship);
    }
}

#[test]
fn test_computer_guess() {
    let mut grid1 = Grid::new();
    let mut points = vec![];
    for i in 0..10 {
        for j in 0..10 {
            points.push((i as usize, j as usize));
        }
    }
    grid1.place_user_ship("Battleship".to_string(), (2, 'B'), (4, 'B'), 3, &mut points);
    let mut pg = PossibleGuesses::new();

    let f1 = grid1.computer_guess_helper('E', 6, &mut pg);
    assert_eq!(grid1.grid[1][0].state, CoordState::Blank);
    assert_eq!(grid1.grid[5][4].state, CoordState::Miss);
    assert!(!f1);

    let f2 = grid1.computer_guess_helper('B', 3, &mut pg);
    assert_eq!(grid1.grid[2][1].state, CoordState::Hit);
    assert!(!f2);
    grid1.computer_guess_helper('B', 2, &mut pg);
    assert_eq!(grid1.grid[1][1].state, CoordState::Hit);
    let f3 = grid1.computer_guess_helper('B', 4, &mut pg);
    assert_eq!(grid1.grid[3][1].state, CoordState::Hit);
    assert!(f3);
}

#[test]
fn test_guess() {
    let mut grid1 = Grid::new();
    let mut points = vec![];
    for i in 0..10 {
        for j in 0..10 {
            points.push((i as usize, j as usize));
        }
    }
    grid1.place_user_ship("Destroyer".to_string(), (5, 'C'), (5, 'D'), 2, &mut points);
    grid1.place_user_ship("Battleship".to_string(), (2, 'B'), (4, 'B'), 3, &mut points);
    let (h, (s, l)) = grid1.guess(6, 'C');
    assert_eq!(grid1.grid[5][2].state, CoordState::Miss);
    assert_eq!(h, 'm');
    assert_eq!(s, 'n');
    assert_eq!(l, 0);

    let (h, (s, l)) = grid1.guess(5, 'C');
    assert_eq!(grid1.grid[4][2].state, CoordState::Hit);
    assert_eq!(h, 'h');
    assert_eq!(s, 'u');
    assert_eq!(l, 0);

    let (h, (s, l)) = grid1.guess(5, 'D');
    assert_eq!(grid1.grid[4][3].state, CoordState::Hit);
    assert_eq!(h, 'h');
    assert_eq!(s, 's');
    assert_eq!(l, 2);

    grid1.guess(2, 'B');
    grid1.guess(3, 'B');
    let (h, (s, l)) = grid1.guess(4, 'B');
    assert_eq!(h, 'h');
    assert_eq!(s, 'f');
    assert_eq!(l, 3);
}

#[test]
fn new_grid_is_blank() {
    let grid = Grid::new();
    assert_eq!(grid.grid.len(), 10);
    for row in &grid.grid {
        assert_eq!(row.len(), 10);
        for cell in row {
            assert_eq!(cell.get_state(), CoordState::Blank);
        }
    }
    assert!(grid.ships.is_empty());
    let other = Grid::default();
    assert_eq!(other.grid.len(), 10);
    assert!(other.ships.is_empty());
}

#[test]
fn place_ship_marks_and_registers() {
    let mut grid = Grid::new();
    let placed = grid.place_ship("Cruiser".to_string(), vec![(0, 0), (0, 1), (0, 2)]);
    assert_eq!(placed, Ok(()));
    assert_eq!(grid.ships.len(), 1);
    assert_eq!(grid.ships[0].name, "Cruiser");
    assert_eq!(grid.ships[0].length, 3);
    assert_eq!(grid.ships[0].cells, vec![(0, 0), (0, 1), (0, 2)]);
    assert_eq!(grid.grid[0][0].state, CoordState::Ship);
    assert_eq!(grid.grid[0][1].state, CoordState::Ship);
    assert_eq!(grid.grid[0][2].state, CoordState::Ship);
    assert_eq!(grid.grid[0][3].state, CoordState::Blank);
    assert_eq!(grid.grid[1][0].state, CoordState::Blank);
}

#[test]
fn place_ship_refuses_a_taken_name() {
    let mut grid = Grid::new();
    assert_eq!(grid.place_ship("Cruiser".to_string(), vec![(0, 0), (0, 1)]), Ok(()));
    assert_eq!(
        grid.place_ship("Cruiser".to_string(), vec![(5, 5), (5, 6)]),
        Err(battleship::placement::PlacementError::NameTaken)
    );
    assert_eq!(grid.ships.len(), 1);
    assert_eq!(grid.grid[5][5].state, CoordState::Blank);
    assert_eq!(grid.grid[5][6].state, CoordState::Blank);
}

#[test]
fn ship_lookup_by_name() {
    let mut grid = Grid::new();
    assert_eq!(grid.ship_index(&"Carrier".to_string()), None);
    assert!(!grid.has_ship(&"Carrier".to_string()));
    grid.place_ship("Carrier".to_string(), vec![(0, 0)]).unwrap();
    grid.place_ship("Cruiser".to_string(), vec![(1, 0)]).unwrap();
    assert_eq!(grid.ship_index(&"Carrier".to_string()), Some(0));
    assert_eq!(grid.ship_index(&"Cruiser".to_string()), Some(1));
    assert_eq!(grid.ship_index(&"Carrie".to_string()), None);
    assert!(grid.has_ship(&"Cruiser".to_string()));
}

#[test]
fn reshoot_is_already_shot_and_changes_nothing() {
    let mut grid = Grid::new();
    grid.place_ship("Cruiser".to_string(), vec![(2, 2), (2, 3), (2, 4)]).unwrap();

    assert_eq!(grid.resolve_shot(2, 3), battleship::shot::ShotOutcome::Hit);
    let cells_after = grid.ships[0].cells.clone();
    assert_eq!(cells_after, vec![(2, 2), (2, 4)]);
    assert_eq!(grid.resolve_shot(2, 3), battleship::shot::ShotOutcome::AlreadyShot);
    assert_eq!(grid.grid[2][3].state, CoordState::Hit);
    assert_eq!(grid.ships.len(), 1);
    assert_eq!(grid.ships[0].cells, cells_after);
    assert_eq!(grid.ships[0].length, 3);

    assert_eq!(grid.resolve_shot(7, 7), battleship::shot::ShotOutcome::Miss);
    assert_eq!(grid.resolve_shot(7, 7), battleship::shot::ShotOutcome::AlreadyShot);
    assert_eq!(grid.grid[7][7].state, CoordState::Miss);
    assert_eq!(grid.ships[0].cells, cells_after);
    assert_eq!(grid.guess(8, 'H'), ('a', ('n', 0)));
}

#[test]
fn sinking_a_ship_of_two() {
    let mut grid = Grid::new();
    grid.place_ship("Destroyer".to_string(), vec![(0, 0), (1, 0)]).unwrap();
    grid.place_ship("Cruiser".to_string(), vec![(5, 5), (5, 6), (5, 7)]).unwrap();
    assert_eq!(grid.resolve_shot(0, 0), battleship::shot::ShotOutcome::Hit);
    assert_eq!(grid.resolve_shot(1, 0), battleship::shot::ShotOutcome::HitSunk(2));
    assert_eq!(grid.ships.len(), 1);
    assert_eq!(grid.ships[0].name, "Cruiser");
    assert!(!grid.has_ship(&"Destroyer".to_string()));
}

#[test]
fn sinking_the_last_ship_ends_the_game() {
    let mut grid = Grid::new();
    grid.place_ship("Destroyer".to_string(), vec![(0, 0), (1, 0)]).unwrap();
    assert_eq!(grid.resolve_shot(1, 0), battleship::shot::ShotOutcome::Hit);
    assert_eq!(grid.ships[0].cells, vec![(0, 0)]);
    assert_eq!(grid.resolve_shot(0, 0), battleship::shot::ShotOutcome::HitSunkGameOver(2));
    assert!(grid.ships.is_empty());
    assert_eq!(grid.grid[0][0].state, CoordState::Hit);
    assert_eq!(grid.grid[1][0].state, CoordState::Hit);
}

#[test]
fn a_hit_keeps_the_order_of_the_ships() {
    let mut grid = Grid::new();
    grid.place_ship("Carrier".to_string(), vec![(0, 0), (0, 1)]).unwrap();
    grid.place_ship("Cruiser".to_string(), vec![(3, 3), (4, 3)]).unwrap();
    grid.place_ship("Destroyer".to_string(), vec![(9, 8), (9, 9)]).unwrap();
    assert_eq!(grid.resolve_shot(4, 3), battleship::shot::ShotOutcome::Hit);
    assert_eq!(grid.ships[0].name, "Carrier");
    assert_eq!(grid.ships[1].name, "Cruiser");
    assert_eq!(grid.ships[1].cells, vec![(3, 3)]);
    assert_eq!(grid.ships[2].name, "Destroyer");
    assert_eq!(grid.resolve_shot(3, 3), battleship::shot::ShotOutcome::HitSunk(2));
    assert_eq!(grid.ships.len(), 2);
    assert_eq!(grid.ships[0].name, "Carrier");
    assert_eq!(grid.ships[1].name, "Destroyer");
}

#[test]
fn a_created_ship_shows_and_is_hit() {
    let mut grid = Grid::new();
    let mut points = battleship::placement::full_points();
    assert!(grid.create_ship(("Cruiser".to_string(), 3), &mut points, 3));
    let cells = grid.ships[0].cells.clone();
    for (r, c) in &cells {
        assert_eq!(grid.grid[*r][*c].state, CoordState::Ship);
    }
    let (r, c) = cells[0];
    assert_eq!(grid.resolve_shot(r, c), battleship::shot::ShotOutcome::Hit);
    assert_eq!(grid.grid[r][c].state, CoordState::Hit);
    assert_eq!(grid.resolve_shot(cells[1].0, cells[1].1), battleship::shot::ShotOutcome::Hit);
    assert_eq!(
        grid.resolve_shot(cells[2].0, cells[2].1),
        battleship::shot::ShotOutcome::HitSunkGameOver(3)
    );
}

#[test]
fn a_shot_turns_blank_into_miss_and_ship_into_hit_only() {
    let mut grid = Grid::new();
    grid.set_computer_ships();
    for r in 0..10 {
        for c in 0..10 {
            let was = grid.grid[r][c].state;
            let others: Vec<Vec<CoordState>> = grid
                .grid
                .iter()
                .map(|row| row.iter().map(|cell| cell.state).collect())
                .collect();
            grid.resolve_shot(r, c);
            let now = grid.grid[r][c].state;
            assert!(
                (was == CoordState::Blank && now == CoordState::Miss)
                    || (was == CoordState::Ship && now == CoordState::Hit)
            );
            for r2 in 0..10 {
                for c2 in 0..10 {
                    if (r2, c2) != (r, c) {
                        assert_eq!(grid.grid[r2][c2].state, others[r2][c2]);
                    }
                }
            }
            grid.resolve_shot(r, c);
            assert_eq!(grid.grid[r][c].state, now);
        }
    }
    assert!(grid.ships.is_empty());
}
