//! Randomized placement of the computer's fleet, quadrant by quadrant.
//!
//! The board is cut into four quadrants of 5x5 cells: 0 is the upper left,
//! 1 the upper right, 2 the lower left, 3 the lower right. A ship starts in a
//! cell of its quadrant and runs away from the quadrant's corner of the
//! board: along its column (direction 0) or along its row (direction 1).

use crate::coord::on_board;
use crate::grid::{Grid, GridView};
use crate::placement::{contains_cell, covers, remove_cells, without_cells};
use crate::random::random_below;
use vstd::prelude::*;

verus! {

/// How many random draws a placement makes before it searches the quadrant
/// cell by cell.
pub const PLACEMENT_ATTEMPTS: usize = 1000;

/// The cell `(r, c)` lies in quadrant `q`.
pub open spec fn in_quadrant(q: int, r: int, c: int) -> bool {
    &&& 0 <= q < 4
    &&& if q < 2 { 0 <= r < 5 } else { 5 <= r < 10 }
    &&& if q % 2 == 0 { 0 <= c < 5 } else { 5 <= c < 10 }
}

/// The `k`-th cell of the run that starts at `(r, c)` in quadrant `q`. In
/// direction 0 the run follows the column, downwards from the upper
/// quadrants and upwards from the lower ones; in direction 1 it follows the
/// row, to the right from the left quadrants and to the left from the right
/// ones.
pub open spec fn run_cell(q: int, r: int, c: int, dir: int, k: int) -> (int, int) {
    if dir == 0 {
        (if q < 2 { r + k } else { r - k }, c)
    } else {
        (r, if q % 2 == 0 { c + k } else { c - k })
    }
}

/// A run of `len` cells from `(r, c)` is a candidate of quadrant `q`: it
/// starts in the quadrant, has a direction and at least one cell, and ends on
/// the board.
pub open spec fn run_fits(q: int, r: int, c: int, dir: int, len: int) -> bool {
    &&& in_quadrant(q, r, c)
    &&& (dir == 0 || dir == 1)
    &&& len >= 1
    &&& on_board(run_cell(q, r, c, dir, len - 1).0, run_cell(q, r, c, dir, len - 1).1)
}

/// The cells of a run, from its start.
pub open spec fn run_cells(q: int, r: int, c: int, dir: int, len: int) -> Seq<(usize, usize)> {
    Seq::new(
        len as nat,
        |k: int| (run_cell(q, r, c, dir, k).0 as usize, run_cell(q, r, c, dir, k).1 as usize),
    )
}

/// A candidate run all of whose cells are available.
pub open spec fn run_free(
    points: Seq<(usize, usize)>,
    q: int,
    r: int,
    c: int,
    dir: int,
    len: int,
) -> bool {
    run_fits(q, r, c, dir, len) && covers(points, run_cells(q, r, c, dir, len))
}

/// Quadrant `q` has a candidate run of `len` cells that are all available.
pub open spec fn can_place(points: Seq<(usize, usize)>, q: int, len: int) -> bool {
    exists|r: int, c: int, dir: int| #[trigger] run_free(points, q, r, c, dir, len)
}

/// Lists the cells of the run of `len` cells from `(r, c)` in direction
/// `dir`, if it is a candidate of the quadrant and all its cells are
/// available.
pub fn try_run(
    points: &Vec<(usize, usize)>,
    quadrant: usize,
    r: usize,
    c: usize,
    dir: usize,
    len: usize,
) -> (res: Option<Vec<(usize, usize)>>)
    ensures
        match res {
            Some(cells) => {
                &&& run_free(points@, quadrant as int, r as int, c as int, dir as int, len as int)
                &&& cells@ == run_cells(
                    quadrant as int,
                    r as int,
                    c as int,
                    dir as int,
                    len as int,
                )
            },
            None => !run_free(
                points@,
                quadrant as int,
                r as int,
                c as int,
                dir as int,
                len as int,
            ),
        },
{
    if quadrant > 3 || dir > 1 || len == 0 || len > 10 {
        return None;
    }
    let base_r: usize = if quadrant < 2 { 0 } else { 5 };
    let base_c: usize = if quadrant % 2 == 0 { 0 } else { 5 };
    if r < base_r || r >= base_r + 5 || c < base_c || c >= base_c + 5 {
        return None;
    }
    let ghost want = run_cells(quadrant as int, r as int, c as int, dir as int, len as int);
    let mut cells: Vec<(usize, usize)> = Vec::new();
    let mut k: usize = 0;
    while k < len
        invariant
            k <= len <= 10,
            quadrant <= 3,
            dir <= 1,
            in_quadrant(quadrant as int, r as int, c as int),
            want == run_cells(quadrant as int, r as int, c as int, dir as int, len as int),
            cells@.len() == k,
            forall|j: int| 0 <= j < k ==> cells@[j] == want[j],
            forall|j: int| 0 <= j < k ==> points@.contains(#[trigger] want[j]),
            forall|j: int|
                0 <= j < k ==> on_board(
                    (#[trigger] run_cell(quadrant as int, r as int, c as int, dir as int, j)).0,
                    run_cell(quadrant as int, r as int, c as int, dir as int, j).1,
                ),
        decreases len - k,
    {
        let mut row: usize = r;
        let mut col: usize = c;
        if dir == 0 {
            if quadrant < 2 {
                row = r + k;
            } else {
                if k > r {
                    return None;
                }
                row = r - k;
            }
        } else {
            if quadrant % 2 == 0 {
                col = c + k;
            } else {
                if k > c {
                    return None;
                }
                col = c - k;
            }
        }
        if row >= 10 || col >= 10 {
            return None;
        }
        assert((row, col) == want[k as int]);
        if !contains_cell(points, row, col) {
            return None;
        }
        cells.push((row, col));
        k += 1;
    }
    proof {
        assert(on_board(
            run_cell(quadrant as int, r as int, c as int, dir as int, len - 1).0,
            run_cell(quadrant as int, r as int, c as int, dir as int, len - 1).1,
        ));
        assert(cells@ =~= want);
    }
    Some(cells)
}

/// The run from `(r1, c1)` in direction `d1` is searched before the run from
/// `(r2, c2)` in direction `d2`: rows come in rising order, then columns,
/// then the two directions.
pub open spec fn searched_before(r1: int, c1: int, d1: int, r2: int, c2: int, d2: int) -> bool {
    r1 < r2 || (r1 == r2 && (c1 < c2 || (c1 == c2 && d1 < d2)))
}

/// The free candidate run of quadrant `q` that a search comes to first.
pub open spec fn first_free(
    points: Seq<(usize, usize)>,
    q: int,
    r: int,
    c: int,
    dir: int,
    len: int,
) -> bool {
    &&& run_free(points, q, r, c, dir, len)
    &&& forall|r2: int, c2: int, d2: int|
        searched_before(r2, c2, d2, r, c, dir) ==> !#[trigger] run_free(
            points,
            q,
            r2,
            c2,
            d2,
            len,
        )
}

/// Searches the quadrant cell by cell, row by row, both directions at each
/// cell, for a candidate run of `len` cells that are all available, and
/// lists the cells of the first one.
pub fn first_free_run(points: &Vec<(usize, usize)>, quadrant: usize, len: usize) -> (res: Option<
    Vec<(usize, usize)>,
>)
    ensures
        match res {
            Some(cells) => exists|r: int, c: int, dir: int|
                {
                    &&& #[trigger] first_free(points@, quadrant as int, r, c, dir, len as int)
                    &&& cells@ == run_cells(quadrant as int, r, c, dir, len as int)
                },
            None => !can_place(points@, quadrant as int, len as int),
        },
{
    if quadrant > 3 {
        return None;
    }
    let base_r: usize = if quadrant < 2 { 0 } else { 5 };
    let base_c: usize = if quadrant % 2 == 0 { 0 } else { 5 };
    let ghost q = quadrant as int;
    let mut i: usize = 0;
    while i < 5
        invariant
            i <= 5,
            quadrant <= 3,
            q == quadrant as int,
            base_r == (if quadrant < 2 { 0usize } else { 5usize }),
            base_c == (if quadrant % 2 == 0 { 0usize } else { 5usize }),
            forall|r: int, c: int, dir: int|
                r < base_r + i ==> !#[trigger] run_free(points@, q, r, c, dir, len as int),
        decreases 5 - i,
    {
        let r: usize = base_r + i;
        let mut j: usize = 0;
        while j < 5
            invariant
                j <= 5,
                i < 5,
                r == base_r + i,
                quadrant <= 3,
                q == quadrant as int,
                base_r == (if quadrant < 2 { 0usize } else { 5usize }),
                base_c == (if quadrant % 2 == 0 { 0usize } else { 5usize }),
                forall|r: int, c: int, dir: int|
                    r < base_r + i ==> !#[trigger] run_free(points@, q, r, c, dir, len as int),
                forall|c: int, dir: int|
                    c < base_c + j ==> !#[trigger] run_free(
                        points@,
                        q,
                        r as int,
                        c,
                        dir,
                        len as int,
                    ),
            decreases 5 - j,
        {
            let c: usize = base_c + j;
            match try_run(points, quadrant, r, c, 0, len) {
                Some(cells) => {
                    proof {
                        assert(first_free(points@, q, r as int, c as int, 0, len as int));
                    }
                    return Some(cells);
                },
                None => {},
            }
            match try_run(points, quadrant, r, c, 1, len) {
                Some(cells) => {
                    proof {
                        assert(first_free(points@, q, r as int, c as int, 1, len as int));
                    }
                    return Some(cells);
                },
                None => {},
            }
            j += 1;
        }
        i += 1;
    }
    None
}

/// The cells of a free candidate run can become a ship on a board that
/// offers the points.
pub proof fn lemma_run_can_hold(
    board: GridView,
    points: Seq<(usize, usize)>,
    q: int,
    r: int,
    c: int,
    dir: int,
    len: int,
)
    requires
        board.offers(points),
        run_free(points, q, r, c, dir, len),
    ensures
        board.can_hold(run_cells(q, r, c, dir, len)),
{
    let cells = run_cells(q, r, c, dir, len);
    assert forall|k: int| 0 <= k < cells.len() implies board.free(#[trigger] cells[k]) by {
        let p = cells[k];
        assert(points.contains(p));
        let m = choose|m: int| 0 <= m < points.len() && points[m] == p;
        assert(board.free(points[m]));
    }
    assert forall|i: int, j: int| 0 <= i < cells.len() && 0 <= j < cells.len() && i != j implies cells[i]
        != cells[j] by {
        lemma_run_on_board(q, r, c, dir, len, i);
        lemma_run_on_board(q, r, c, dir, len, j);
    }
}

/// The cells lie in one row or one column, each one step on from the one
/// before, all steps the same way.
pub open spec fn straight(cells: Seq<(usize, usize)>) -> bool {
    ||| forall|k: int|
        0 <= k < cells.len() ==> (#[trigger] cells[k]).0 == cells[0].0 + k && cells[k].1
            == cells[0].1
    ||| forall|k: int|
        0 <= k < cells.len() ==> (#[trigger] cells[k]).0 == cells[0].0 - k && cells[k].1
            == cells[0].1
    ||| forall|k: int|
        0 <= k < cells.len() ==> (#[trigger] cells[k]).0 == cells[0].0 && cells[k].1
            == cells[0].1 + k
    ||| forall|k: int|
        0 <= k < cells.len() ==> (#[trigger] cells[k]).0 == cells[0].0 && cells[k].1
            == cells[0].1 - k
}

/// The shape of a candidate run: as many cells as its length, all on the
/// board, the first one in the quadrant, and each further one a step on
/// from the one before, away from the quadrant's corner of the board, along
/// the column or along the row.
pub proof fn lemma_run_shape(q: int, r: int, c: int, dir: int, len: int)
    requires
        run_fits(q, r, c, dir, len),
    ensures
        run_cells(q, r, c, dir, len).len() == len,
        in_quadrant(
            q,
            run_cells(q, r, c, dir, len)[0].0 as int,
            run_cells(q, r, c, dir, len)[0].1 as int,
        ),
        forall|k: int|
            0 <= k < len ==> (#[trigger] run_cells(q, r, c, dir, len)[k]).0 < 10 && run_cells(
                q,
                r,
                c,
                dir,
                len,
            )[k].1 < 10,
        forall|k: int|
            0 <= k < len ==> #[trigger] run_cells(q, r, c, dir, len)[k] == (
                run_cell(q, r, c, dir, k).0 as usize,
                run_cell(q, r, c, dir, k).1 as usize,
            ),
        straight(run_cells(q, r, c, dir, len)),
{
    let cells = run_cells(q, r, c, dir, len);
    assert forall|k: int| 0 <= k < len implies (#[trigger] cells[k]).0 < 10 && cells[k].1
        < 10 by {
        lemma_run_on_board(q, r, c, dir, len, k);
    }
    lemma_run_on_board(q, r, c, dir, len, 0);
    assert forall|k: int| 0 <= k < len implies (#[trigger] cells[k]).0 == run_cell(
        q,
        r,
        c,
        dir,
        k,
    ).0 && cells[k].1 == run_cell(q, r, c, dir, k).1 by {
        lemma_run_on_board(q, r, c, dir, len, k);
    }
    if dir == 0 && q < 2 {
        assert forall|k: int| 0 <= k < cells.len() implies (#[trigger] cells[k]).0 == cells[0].0
            + k && cells[k].1 == cells[0].1 by {}
    } else if dir == 0 {
        assert forall|k: int| 0 <= k < cells.len() implies (#[trigger] cells[k]).0 == cells[0].0
            - k && cells[k].1 == cells[0].1 by {}
    } else if q % 2 == 0 {
        assert forall|k: int| 0 <= k < cells.len() implies (#[trigger] cells[k]).0 == cells[0].0
            && cells[k].1 == cells[0].1 + k by {}
    } else {
        assert forall|k: int| 0 <= k < cells.len() implies (#[trigger] cells[k]).0 == cells[0].0
            && cells[k].1 == cells[0].1 - k by {}
    }
}

/// Every cell of a candidate run lies on the board.
pub proof fn lemma_run_on_board(q: int, r: int, c: int, dir: int, len: int, k: int)
    requires
        run_fits(q, r, c, dir, len),
        0 <= k < len,
    ensures
        on_board(run_cell(q, r, c, dir, k).0, run_cell(q, r, c, dir, k).1),
{
}

impl Grid {
    /// Places a ship of the given name and length in a quadrant of the board
    /// (0 to 3), on a candidate run drawn at random among those whose cells
    /// are all available. The ship is registered, its cells are marked and
    /// leave the available `points`. After
    /// `PLACEMENT_ATTEMPTS` draws without a fit the quadrant is searched cell
    /// by cell, so the ship is placed whenever the quadrant has room for it;
    /// the answer is `false`, with nothing changed, only when it has none or
    /// the board already has a ship of that name.
    pub fn create_ship(
        &mut self,
        ship_info: (String, u32),
        points: &mut Vec<(usize, usize)>,
        quadrant: usize,
    ) -> (placed: bool)
        requires
            old(self).wf(),
            old(self)@.offers(old(points)@),
        ensures
            placed == (!old(self)@.has_name(ship_info.0@) && can_place(
                old(points)@,
                quadrant as int,
                ship_info.1 as int,
            )),
            placed ==> exists|r: int, c: int, dir: int|
                {
                    &&& #[trigger] run_free(
                        old(points)@,
                        quadrant as int,
                        r,
                        c,
                        dir,
                        ship_info.1 as int,
                    )
                    &&& final(self)@ == old(self)@.with_ship(
                        ship_info.0@,
                        run_cells(quadrant as int, r, c, dir, ship_info.1 as int),
                    )
                    &&& final(points)@ == without_cells(
                        old(points)@,
                        run_cells(quadrant as int, r, c, dir, ship_info.1 as int),
                    )
                },
            placed ==> {
                let ship = final(self)@.ships.last();
                &&& final(self)@.ships.len() == old(self)@.ships.len() + 1
                &&& ship.name == ship_info.0@
                &&& ship.length == ship_info.1
                &&& ship.cells.len() == ship_info.1
                &&& in_quadrant(quadrant as int, ship.cells[0].0 as int, ship.cells[0].1 as int)
                &&& straight(ship.cells)
                &&& forall|k: int|
                    0 <= k < ship.cells.len() ==> (#[trigger] ship.cells[k]).0 < 10
                        && ship.cells[k].1 < 10
            },
            !placed ==> final(self)@ == old(self)@ && final(points)@ == old(points)@,
            final(self).wf(),
            final(self)@.offers(final(points)@),
            old(self)@.placing(old(points)@) ==> final(self)@.placing(final(points)@),
    {
        let (name, length) = ship_info;
        if self.has_ship(&name) {
            return false;
        }
        if quadrant > 3 || length == 0 || length > 10 {
            proof {
                assert forall|r: int, c: int, dir: int| !#[trigger] run_free(
                    points@,
                    quadrant as int,
                    r,
                    c,
                    dir,
                    length as int,
                ) by {}
            }
            return false;
        }
        let len: usize = length as usize;
        let base_r: usize = if quadrant < 2 { 0 } else { 5 };
        let base_c: usize = if quadrant % 2 == 0 { 0 } else { 5 };
        let mut found: Option<Vec<(usize, usize)>> = None;
        let mut attempts: usize = 0;
        while attempts < PLACEMENT_ATTEMPTS && found.is_none()
            invariant
                attempts <= PLACEMENT_ATTEMPTS,
                quadrant <= 3,
                base_r == (if quadrant < 2 { 0usize } else { 5usize }),
                base_c == (if quadrant % 2 == 0 { 0usize } else { 5usize }),
                match found {
                    Some(cells) => exists|r: int, c: int, dir: int|
                        {
                            &&& #[trigger] run_free(points@, quadrant as int, r, c, dir, len as int)
                            &&& cells@ == run_cells(quadrant as int, r, c, dir, len as int)
                        },
                    None => true,
                },
            decreases PLACEMENT_ATTEMPTS - attempts + (if found.is_none() { 1int } else { 0int }),
        {
            let r = base_r + random_below(5);
            let c = base_c + random_below(5);
            let dir = random_below(2);
            found = try_run(points, quadrant, r, c, dir, len);
            attempts += 1;
        }
        if found.is_none() {
            found = first_free_run(points, quadrant, len);
        }
        match found {
            None => false,
            Some(cells) => {
                proof {
                    let (r, c, dir) = choose|r: int, c: int, dir: int|
                        {
                            &&& #[trigger] run_free(points@, quadrant as int, r, c, dir, len as int)
                            &&& cells@ == run_cells(quadrant as int, r, c, dir, len as int)
                        };
                    lemma_run_can_hold(self@, points@, quadrant as int, r, c, dir, len as int);
                    lemma_run_shape(quadrant as int, r, c, dir, len as int);
                    self@.lemma_with_ship_offers(points@, name@, cells@);
                    if self@.placing(points@) {
                        self@.lemma_placing_goes_on(points@, name@, cells@);
                    }
                }
                remove_cells(points, &cells);
                self.add_ship(name, cells);
                true
            },
        }
    }
}

} // verus!
