use battleship::input::parse_coord;

#[test]
fn parse_plain_coordinates() {
    assert_eq!(parse_coord("A8"), Some((8, 'A')));
    assert_eq!(parse_coord("J10"), Some((10, 'J')));
    assert_eq!(parse_coord("A1"), Some((1, 'A')));
    assert_eq!(parse_coord("E5\n"), Some((5, 'E')));
    assert_eq!(parse_coord("C3\r\n"), Some((3, 'C')));
}

#[test]
fn parse_lower_case_and_blanks() {
    assert_eq!(parse_coord("b7"), Some((7, 'B')));
    assert_eq!(parse_coord("j10\n"), Some((10, 'J')));
    assert_eq!(parse_coord("D 4 \n"), Some((4, 'D')));
    assert_eq!(parse_coord("D\t4"), Some((4, 'D')));
    assert_eq!(parse_coord("F007"), Some((7, 'F')));
    assert_eq!(parse_coord("F0010  "), Some((10, 'F')));
}

#[test]
fn parse_rejects_what_names_no_cell() {
    assert_eq!(parse_coord(""), None);
    assert_eq!(parse_coord("\n"), None);
    assert_eq!(parse_coord("   "), None);
    assert_eq!(parse_coord("A"), None);
    assert_eq!(parse_coord("A\n"), None);
    assert_eq!(parse_coord("8A"), None);
    assert_eq!(parse_coord("K5"), None);
    assert_eq!(parse_coord("Z1"), None);
    assert_eq!(parse_coord("A0"), None);
    assert_eq!(parse_coord("A11"), None);
    assert_eq!(parse_coord("A100"), None);
    assert_eq!(parse_coord("A99999999999999999999999"), None);
    assert_eq!(parse_coord("A-1"), None);
    assert_eq!(parse_coord("A+1"), None);
    assert_eq!(parse_coord("A1x"), None);
    assert_eq!(parse_coord("A1 2"), None);
    assert_eq!(parse_coord("A 1 2"), None);
    assert_eq!(parse_coord(" A1"), None);
    assert_eq!(parse_coord("é1"), None);
    assert_eq!(parse_coord("A١"), None);
}
