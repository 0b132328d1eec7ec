use battleship::coord::CoordState;
use battleship::grid::Grid;
use battleship::placement::full_points;
use battleship::possible_guess::PossibleGuesses;

#[test]
fn a_turn_records_a_miss_too() {
    let mut grid = Grid::new();
    let mut points = full_points();
    grid.place_user_ship("Battleship".to_string(), (2, 'B'), (4, 'B'), 3, &mut points);
    let mut pg = PossibleGuesses::new();
    assert!(!grid.computer_guess_helper('E', 6, &mut pg));
    assert_eq!(pg.last_hit, ('E', 6));
    assert_eq!(pg.num_hits, 0);
    assert!(pg.reasonable_guesses.is_empty());
    assert!(!grid.computer_guess_helper('B', 3, &mut pg));
    assert_eq!(pg.last_hit, ('B', 3));
    assert_eq!(pg.num_hits, 1);
    assert_eq!(pg.reasonable_guesses, vec![('C', 3), ('A', 3), ('B', 4), ('B', 2)]);
    assert!(!grid.computer_guess_helper('B', 3, &mut pg));
    assert_eq!(pg.num_hits, 1);
    assert_eq!(grid.grid[2][1].state, CoordState::Hit);
}

#[test]
fn a_computer_shot_reports_the_outcome() {
    let mut grid = Grid::new();
    let mut points = full_points();
    grid.place_user_ship("Destroyer".to_string(), (5, 'C'), (5, 'D'), 2, &mut points);
    let mut pg = PossibleGuesses::new();
    assert_eq!(grid.computer_shot('A', 1, &mut pg), ('m', ('n', 0)));
    assert_eq!(pg.last_hit, ('A', 1));
    assert_eq!(grid.computer_shot('A', 1, &mut pg), ('a', ('n', 0)));
    assert_eq!(grid.computer_shot('C', 5, &mut pg), ('h', ('u', 0)));
    assert_eq!(pg.num_hits, 1);
    assert_eq!(grid.computer_shot('D', 5, &mut pg), ('h', ('f', 2)));
    assert_eq!(pg.num_hits, 0);
    assert_eq!(pg.last_hit, ('D', 5));
    assert!(grid.ships.is_empty());
}

#[test]
fn a_turn_that_sinks_a_ship() {
    let mut grid = Grid::new();
    let mut points = full_points();
    grid.place_user_ship("Destroyer".to_string(), (5, 'C'), (5, 'D'), 2, &mut points);
    grid.place_user_ship("Cruiser".to_string(), (1, 'A'), (1, 'C'), 3, &mut points);
    let mut pg = PossibleGuesses::new();
    assert!(!grid.computer_guess_helper('C', 5, &mut pg));
    assert_eq!(pg.num_hits, 1);
    assert!(!grid.computer_guess_helper('D', 5, &mut pg));
    assert_eq!(pg.num_hits, 0);
    assert!(pg.reasonable_guesses.is_empty());
    assert!(pg.next_guesses.is_empty());
    assert_eq!(grid.ships.len(), 1);
}

fn play_out(hard: bool) {
    let mut grid = Grid::new();
    let mut points = full_points();
    assert!(grid.place_user_ship("Carrier".to_string(), (1, 'A'), (1, 'E'), 5, &mut points));
    assert!(grid.place_user_ship("Battleship".to_string(), (3, 'J'), (6, 'J'), 4, &mut points));
    assert!(grid.place_user_ship("Cruiser".to_string(), (5, 'C'), (5, 'E'), 3, &mut points));
    assert!(grid.place_user_ship("Submarine".to_string(), (6, 'C'), (6, 'E'), 3, &mut points));
    assert!(grid.place_user_ship("Destroyer".to_string(), (10, 'A'), (10, 'B'), 2, &mut points));
    let mut pg = PossibleGuesses::new();
    pg.difficult = hard;
    let mut turns = 0;
    loop {
        assert!(turns < 200);
        assert!(!pg.points.is_empty() || !pg.reasonable_guesses.is_empty() || !pg.next_guesses.is_empty());
        let ships_before = grid.ships.len();
        let finished = grid.make_computer_guess(&mut pg);
        turns += 1;
        assert_eq!(pg.guess_count, turns);
        let (col, row) = pg.last_hit;
        let state = grid.grid[(row - 1) as usize][(col as u8 - b'A') as usize].state;
        assert!(state == CoordState::Hit || state == CoordState::Miss);
        assert!(!pg.points.contains(&pg.last_hit));
        assert_eq!(finished, grid.ships.is_empty());
        assert!(grid.ships.len() == ships_before || grid.ships.len() + 1 == ships_before);
        if finished {
            break;
        }
    }
    assert!(turns >= 17);
    let hits = grid
        .grid
        .iter()
        .map(|row| row.iter().filter(|cell| cell.state == CoordState::Hit).count())
        .sum::<usize>();
    assert_eq!(hits, 17);
    let shown = grid
        .grid
        .iter()
        .map(|row| row.iter().filter(|cell| cell.state == CoordState::Ship).count())
        .sum::<usize>();
    assert_eq!(shown, 0);
}

#[test]
fn the_easy_engine_wins_in_the_end() {
    for _ in 0..20 {
        play_out(false);
    }
}

#[test]
fn the_hard_engine_wins_in_the_end() {
    for _ in 0..20 {
        play_out(true);
    }
}

#[test]
fn the_engine_sinks_a_randomly_placed_fleet() {
    for _ in 0..20 {
        let mut grid = Grid::new();
        grid.set_computer_ships();
        let mut pg = PossibleGuesses::new();
        pg.difficult = true;
        let mut turns = 0;
        while !grid.make_computer_guess(&mut pg) {
            turns += 1;
            assert!(turns < 200);
        }
        assert!(grid.ships.is_empty());
    }
}
