use battleship::coord::{
    get_coord_index, get_index_coord, index_to_column, column_to_index, CoordError, CoordState,
    Coordinate,
};

#[test]
fn test_get_coord_idx() {
    let (r, c) = get_coord_index(6, 'J').unwrap();
    assert_eq!(r, 5);
    assert_eq!(c, 9);
}

#[test]
fn coord_index_corners() {
    assert_eq!(get_coord_index(1, 'A'), Ok((0, 0)));
    assert_eq!(get_coord_index(10, 'J'), Ok((9, 9)));
    assert_eq!(get_coord_index(10, 'A'), Ok((9, 0)));
    assert_eq!(get_coord_index(1, 'J'), Ok((0, 9)));
}

#[test]
fn coord_index_out_of_range() {
    assert_eq!(get_coord_index(0, 'A'), Err(CoordError::OutOfRange));
    assert_eq!(get_coord_index(11, 'A'), Err(CoordError::OutOfRange));
    assert_eq!(get_coord_index(-3, 'C'), Err(CoordError::OutOfRange));
    assert_eq!(get_coord_index(5, 'K'), Err(CoordError::OutOfRange));
    assert_eq!(get_coord_index(5, 'a'), Err(CoordError::OutOfRange));
    assert_eq!(get_coord_index(5, '@'), Err(CoordError::OutOfRange));
    assert_eq!(get_coord_index(i32::MAX, 'z'), Err(CoordError::OutOfRange));
}

#[test]
fn index_coord_values() {
    assert_eq!(get_index_coord(5, 9), Ok((6, 'J')));
    assert_eq!(get_index_coord(0, 0), Ok((1, 'A')));
    assert_eq!(get_index_coord(10, 0), Err(CoordError::OutOfRange));
    assert_eq!(get_index_coord(0, 10), Err(CoordError::OutOfRange));
}

#[test]
fn coord_round_trip_all_cells() {
    let letters = ['A', 'B', 'C', 'D', 'E', 'F', 'G', 'H', 'I', 'J'];
    for row in 1..=10 {
        for (c, letter) in letters.iter().enumerate() {
            let (r_idx, c_idx) = get_coord_index(row, *letter).unwrap();
            assert_eq!(r_idx, (row - 1) as usize);
            assert_eq!(c_idx, c);
            assert_eq!(get_index_coord(r_idx, c_idx), Ok((row, *letter)));
        }
    }
}

#[test]
fn column_letters() {
    assert_eq!(column_to_index('A'), Some(0));
    assert_eq!(column_to_index('J'), Some(9));
    assert_eq!(column_to_index('K'), None);
    assert_eq!(column_to_index('z'), None);
    assert_eq!(index_to_column(0), 'A');
    assert_eq!(index_to_column(4), 'E');
    assert_eq!(index_to_column(9), 'J');
}

#[test]
fn coordinate_starts_blank() {
    let c = Coordinate::new();
    assert_eq!(c.get_state(), CoordState::Blank);
    assert_eq!(c.state, CoordState::Blank);
    let d = Coordinate::default();
    assert_eq!(d.get_state(), CoordState::Blank);
    let e = Coordinate { state: CoordState::Ship };
    assert_eq!(e.get_state(), CoordState::Ship);
}
