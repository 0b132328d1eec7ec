//! Board addressing: the column letter / row number form that players use,
//! and the zero-based (row, column) index pair behind it.

use vstd::prelude::*;

verus! {

/// Side length of the square board.
pub const BOARD_SIZE: usize = 10;

/// The four states of a board cell.
#[derive(Copy, Clone, Debug, PartialEq, Eq, Structural)]
pub enum CoordState {
    Blank,
    Hit,
    Miss,
    Ship,
}

/// A board cell; it holds nothing but its state.
#[derive(Debug, Copy, Clone)]
pub struct Coordinate {
    pub state: CoordState,
}

/// Why a row number and column letter name no cell of the board.
#[derive(Copy, Clone, Debug, PartialEq, Eq, Structural)]
pub enum CoordError {
    OutOfRange,
}

impl Coordinate {
    /// A blank cell.
    pub fn new() -> (c: Self)
        ensures
            c.state == CoordState::Blank,
    {
        Self { state: CoordState::Blank }
    }

    /// The state of the cell.
    pub fn get_state(&self) -> (s: CoordState)
        ensures
            s == self.state,
    {
        self.state
    }
}

impl Default for Coordinate {
    fn default() -> (c: Self)
        ensures
            c.state == CoordState::Blank,
    {
        Self::new()
    }
}

/// Rows are numbered 1 to 10.
pub open spec fn valid_row(row: int) -> bool {
    1 <= row <= 10
}

/// Columns are lettered A to J.
pub open spec fn valid_column(column: char) -> bool {
    'A' as int <= column as int <= 'J' as int
}

/// A row number and a column letter that name a cell of the board.
pub open spec fn valid_coord(row: int, column: char) -> bool {
    valid_row(row) && valid_column(column)
}

/// Zero-based position of a column letter: A is 0, J is 9.
pub open spec fn column_index(column: char) -> int {
    column as int - 'A' as int
}

/// The letter of a zero-based column.
pub open spec fn column_letter(c: int) -> char {
    ('A' as int + c) as char
}

/// A zero-based (row, column) pair lies on the board.
pub open spec fn on_board(r: int, c: int) -> bool {
    0 <= r < 10 && 0 <= c < 10
}

/// The zero-based (row, column) pair of the board cell that a valid row
/// number and column letter name.
pub open spec fn cell_of(row: int, column: char) -> (usize, usize) {
    ((row - 1) as usize, column_index(column) as usize)
}

/// The row number and column letter of a zero-based (row, column) pair.
pub open spec fn index_coord(r: int, c: int) -> (int, char) {
    (r + 1, column_letter(c))
}

/// Zero-based position of a column letter, if it is one of A to J.
pub fn column_to_index(column: char) -> (res: Option<usize>)
    ensures
        valid_column(column) ==> res == Some(column_index(column) as usize),
        !valid_column(column) ==> res is None,
{
    let code: u32 = column as u32;
    if 'A' as u32 <= code && code <= 'J' as u32 {
        Some((code - 'A' as u32) as usize)
    } else {
        None
    }
}

/// The letter of a zero-based column.
pub fn index_to_column(c: usize) -> (column: char)
    requires
        c < 10,
    ensures
        column == column_letter(c as int),
        valid_column(column),
        column_index(column) == c,
{
    let code: u8 = 'A' as u8 + c as u8;
    code as char
}

/// Converts a row number (1 to 10) and a column letter (A to J) into the
/// zero-based (row, column) index pair; anything else is out of range.
pub fn get_coord_index(row: i32, column: char) -> (res: Result<(usize, usize), CoordError>)
    ensures
        valid_coord(row as int, column) ==> res == Ok::<(usize, usize), CoordError>(
            cell_of(row as int, column),
        ),
        !valid_coord(row as int, column) ==> res == Err::<(usize, usize), CoordError>(
            CoordError::OutOfRange,
        ),
{
    if row < 1 || row > 10 {
        return Err(CoordError::OutOfRange);
    }
    match column_to_index(column) {
        Some(c_idx) => Ok(((row - 1) as usize, c_idx)),
        None => Err(CoordError::OutOfRange),
    }
}

/// Converts a zero-based (row, column) index pair back into a row number and
/// a column letter; a pair off the board is out of range.
pub fn get_index_coord(r: usize, c: usize) -> (res: Result<(i32, char), CoordError>)
    ensures
        on_board(r as int, c as int) ==> res == Ok::<(i32, char), CoordError>(
            (index_coord(r as int, c as int).0 as i32, index_coord(r as int, c as int).1),
        ),
        !on_board(r as int, c as int) ==> res == Err::<(i32, char), CoordError>(
            CoordError::OutOfRange,
        ),
{
    if r >= BOARD_SIZE || c >= BOARD_SIZE {
        return Err(CoordError::OutOfRange);
    }
    Ok(((r + 1) as i32, index_to_column(c)))
}

/// Addressing is a bijection. A valid row number and column letter name a
/// cell of the board, and going back from its index pair gives the same row
/// and letter. Every index pair on the board has a valid row number and
/// column letter, which name that pair again.
pub proof fn lemma_coord_bijection(row: int, column: char, r: int, c: int)
    ensures
        valid_coord(row, column) ==> {
            let cell = cell_of(row, column);
            on_board(cell.0 as int, cell.1 as int) && index_coord(cell.0 as int, cell.1 as int)
                == (row, column)
        },
        on_board(r, c) ==> {
            let rc = index_coord(r, c);
            valid_coord(rc.0, rc.1) && cell_of(rc.0, rc.1) == (r as usize, c as usize)
        },
{
}

} // verus!
