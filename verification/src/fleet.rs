//! The fleet, and its randomized placement on the computer's board.

use crate::coord::{on_board, CoordState};
use crate::grid::{cell_on_board, lemma_remove_no_duplicates, Grid, GridView};
use crate::placement::{
    cells_of, full_points, lemma_fresh_offers_all, lemma_without_cells, total_length,
    without_cells,
};
use crate::quadrant::{
    can_place, in_quadrant, lemma_run_on_board, lemma_run_shape, run_cell, run_cells, run_fits,
    run_free, straight,
};
use crate::random::random_below;
use vstd::prelude::*;

verus! {

/// A run of cells: its quadrant, the cell it starts at, its direction and
/// its length.
pub struct Run {
    pub q: int,
    pub r: int,
    pub c: int,
    pub dir: int,
    pub len: int,
}

impl Run {
    /// The run is a candidate of its quadrant.
    pub open spec fn fits(self) -> bool {
        run_fits(self.q, self.r, self.c, self.dir, self.len)
    }

    /// The cells of the run, from its start.
    pub open spec fn cells(self) -> Seq<(usize, usize)> {
        run_cells(self.q, self.r, self.c, self.dir, self.len)
    }

    /// The least row that the run reaches.
    pub open spec fn first_row(self) -> int {
        if self.dir == 0 && self.q >= 2 { self.r - self.len + 1 } else { self.r }
    }

    /// The greatest row that the run reaches.
    pub open spec fn last_row(self) -> int {
        if self.dir == 0 && self.q < 2 { self.r + self.len - 1 } else { self.r }
    }

    /// The least column that the run reaches.
    pub open spec fn first_col(self) -> int {
        if self.dir == 1 && self.q % 2 == 1 { self.c - self.len + 1 } else { self.c }
    }

    /// The greatest column that the run reaches.
    pub open spec fn last_col(self) -> int {
        if self.dir == 1 && self.q % 2 == 0 { self.c + self.len - 1 } else { self.c }
    }

    /// The two runs keep apart: one ends before the rows or the columns of
    /// the other begin.
    pub open spec fn apart(self, other: Run) -> bool {
        ||| self.last_row() < other.first_row()
        ||| other.last_row() < self.first_row()
        ||| self.last_col() < other.first_col()
        ||| other.last_col() < self.first_col()
    }

    /// The run keeps apart from every one of `placed`.
    pub open spec fn clear_of(self, placed: Seq<Run>) -> bool {
        forall|j: int| 0 <= j < placed.len() ==> self.apart(#[trigger] placed[j])
    }
}

/// The run of quadrant `q` that starts `a` rows and `b` columns from the
/// quadrant's corner of the board.
pub open spec fn corner_run(q: int, a: int, b: int, dir: int, len: int) -> Run {
    Run { q, r: if q < 2 { a } else { 9 - a }, c: if q % 2 == 0 { b } else { 9 - b }, dir, len }
}

/// Runs of at most five cells each, no two from one quadrant.
pub open spec fn one_per_quadrant(placed: Seq<Run>) -> bool {
    &&& forall|j: int| 0 <= j < placed.len() ==> (#[trigger] placed[j]).fits() && placed[j].len <= 5
    &&& forall|i: int, j: int|
        0 <= i < j < placed.len() ==> (#[trigger] placed[i]).q != (#[trigger] placed[j]).q
}

/// A quadrant that holds no run yet has room for a run of up to five cells,
/// whatever runs the other quadrants hold: one of four runs near its corner
/// keeps apart from them all.
pub proof fn lemma_room_in_empty_quadrant(placed: Seq<Run>, q: int, len: int)
    requires
        0 <= q < 4,
        1 <= len <= 5,
        one_per_quadrant(placed),
        forall|j: int| 0 <= j < placed.len() ==> (#[trigger] placed[j]).q != q,
    ensures
        corner_run(q, 0, 0, 0, len).clear_of(placed) || corner_run(q, 0, 0, 1, len).clear_of(placed)
            || corner_run(q, 1, 1, 0, len).clear_of(placed) || corner_run(
            q,
            1,
            1,
            1,
            len,
        ).clear_of(placed),
{
}

/// Any quadrant has room for a run of two cells when each quadrant holds at
/// most one run: one of five runs of the quadrant keeps apart from them all.
pub proof fn lemma_room_for_two(placed: Seq<Run>, q: int)
    requires
        0 <= q < 4,
        one_per_quadrant(placed),
    ensures
        corner_run(q, 0, 0, 0, 2).clear_of(placed) || corner_run(q, 2, 1, 0, 2).clear_of(placed)
            || corner_run(q, 4, 2, 1, 2).clear_of(placed) || corner_run(q, 0, 4, 1, 2).clear_of(
            placed,
        ) || corner_run(q, 1, 0, 0, 2).clear_of(placed),
{
}

/// The names of the fleet's five ships, in the order they are placed.
pub open spec fn fleet_name(i: int) -> Seq<char> {
    if i == 0 {
        "Carrier"@
    } else if i == 1 {
        "Battleship"@
    } else if i == 2 {
        "Cruiser"@
    } else if i == 3 {
        "Submarine"@
    } else {
        "Destroyer"@
    }
}

/// The lengths of the fleet's five ships: 5, 4, 3, 3 and 2 cells, 17 in all.
pub open spec fn fleet_length(i: int) -> int {
    if i == 0 {
        5
    } else if i == 1 {
        4
    } else if i == 2 {
        3
    } else if i == 3 {
        3
    } else {
        2
    }
}

/// The fleet that each side places: Carrier (5 cells), Battleship (4),
/// Cruiser (3), Submarine (3) and Destroyer (2).
pub fn fleet() -> (ships: Vec<(String, u32)>)
    ensures
        ships@.len() == 5,
        forall|i: int|
            0 <= i < 5 ==> (#[trigger] ships@[i]).0@ == fleet_name(i) && ships@[i].1
                == fleet_length(i),
{
    let mut ships: Vec<(String, u32)> = Vec::new();
    ships.push(("Carrier".to_owned(), 5));
    ships.push(("Battleship".to_owned(), 4));
    ships.push(("Cruiser".to_owned(), 3));
    ships.push(("Submarine".to_owned(), 3));
    ships.push(("Destroyer".to_owned(), 2));
    ships
}

/// No two ships of the fleet share a name.
pub proof fn lemma_fleet_names_differ()
    ensures
        forall|i: int, j: int|
            0 <= i < 5 && 0 <= j < 5 && i != j ==> #[trigger] fleet_name(i) != #[trigger] fleet_name(
                j,
            ),
{
    reveal_strlit("Carrier");
    reveal_strlit("Battleship");
    reveal_strlit("Cruiser");
    reveal_strlit("Submarine");
    reveal_strlit("Destroyer");
    assert("Carrier"@[1] != "Cruiser"@[1]);
    assert("Submarine"@[0] != "Destroyer"@[0]);
    assert("Carrier"@.len() == 7 && "Cruiser"@.len() == 7);
    assert("Battleship"@.len() == 10);
    assert("Submarine"@.len() == 9 && "Destroyer"@.len() == 9);
}

/// Two candidate runs that keep apart share no cell.
pub proof fn lemma_apart_disjoint(a: Run, b: Run)
    requires
        a.fits(),
        b.fits(),
        a.apart(b),
    ensures
        forall|k: int| 0 <= k < a.len ==> !b.cells().contains(#[trigger] a.cells()[k]),
{
    assert forall|k: int| 0 <= k < a.len implies !b.cells().contains(#[trigger] a.cells()[k]) by {
        if b.cells().contains(a.cells()[k]) {
            let m = choose|m: int| 0 <= m < b.cells().len() && b.cells()[m] == a.cells()[k];
            lemma_run_on_board(a.q, a.r, a.c, a.dir, a.len, k);
            lemma_run_on_board(b.q, b.r, b.c, b.dir, b.len, m);
            assert(run_cell(a.q, a.r, a.c, a.dir, k) == run_cell(b.q, b.r, b.c, b.dir, m));
        }
    }
}

/// A run of a candidate's cells never leaves the half of the board that its
/// quadrant lies in across its direction: a run along a column stays in the
/// quadrant's columns, a run along a row in the quadrant's rows.
pub proof fn lemma_run_stays_in_half_board(run: Run, k: int)
    requires
        run.fits(),
        0 <= k < run.len,
    ensures
        on_board(
            run_cell(run.q, run.r, run.c, run.dir, k).0,
            run_cell(run.q, run.r, run.c, run.dir, k).1,
        ),
        run.dir == 0 ==> in_quadrant(
            run.q,
            run.r,
            run_cell(run.q, run.r, run.c, run.dir, k).1,
        ),
        run.dir == 1 ==> in_quadrant(
            run.q,
            run_cell(run.q, run.r, run.c, run.dir, k).0,
            run.c,
        ),
{
}

/// The fleet stands on the board: its five ships, in their order, each
/// intact on the cells of the candidate run of that place in `runs`, the
/// first four in four different quadrants, and the cells of the board show a
/// ship where a ship occupies them and are blank elsewhere.
pub open spec fn fleet_placed(board: GridView, runs: Seq<Run>) -> bool {
    &&& forall|p: (usize, usize)|
        cell_on_board(p) ==> #[trigger] board.state(p) == (if board.occupied(p) {
            CoordState::Ship
        } else {
            CoordState::Blank
        })
    &&& board.ships.len() == 5
    &&& runs.len() == 5
    &&& forall|i: int|
        0 <= i < 5 ==> {
            &&& (#[trigger] runs[i]).fits()
            &&& runs[i].len == fleet_length(i)
            &&& board.ships[i].name == fleet_name(i)
            &&& board.ships[i].length == fleet_length(i)
            &&& board.ships[i].cells == runs[i].cells()
        }
    &&& forall|i: int, j: int|
        0 <= i < j < 4 ==> (#[trigger] runs[i]).q != (#[trigger] runs[j]).q
}

/// The shape of a fleet on a board: five ships with the fleet's names and
/// lengths, in their order, each with all its cells, on the board, in a
/// straight run.
pub open spec fn fleet_shape(board: GridView) -> bool {
    &&& board.ships.len() == 5
    &&& forall|i: int|
        0 <= i < 5 ==> {
            &&& (#[trigger] board.ships[i]).name == fleet_name(i)
            &&& board.ships[i].length == fleet_length(i)
            &&& board.ships[i].cells.len() == fleet_length(i)
            &&& straight(board.ships[i].cells)
            &&& forall|k: int|
                0 <= k < board.ships[i].cells.len() ==> cell_on_board(
                    #[trigger] board.ships[i].cells[k],
                )
        }
}

/// A fleet that stands on its runs has the shape of a fleet.
pub proof fn lemma_fleet_shape(board: GridView, runs: Seq<Run>)
    requires
        fleet_placed(board, runs),
    ensures
        fleet_shape(board),
{
    assert forall|i: int| 0 <= i < 5 implies {
        &&& (#[trigger] board.ships[i]).name == fleet_name(i)
        &&& board.ships[i].length == fleet_length(i)
        &&& board.ships[i].cells.len() == fleet_length(i)
        &&& straight(board.ships[i].cells)
        &&& forall|k: int|
            0 <= k < board.ships[i].cells.len() ==> cell_on_board(
                #[trigger] board.ships[i].cells[k],
            )
    } by {
        let run = runs[i];
        assert(run.fits());
        lemma_run_shape(run.q, run.r, run.c, run.dir, run.len);
    }
}

/// What holds while the fleet is being placed: the first `n` ships stand on
/// the board, each on its run, nothing was fired upon, and the available
/// points are the cells that no run takes.
pub open spec fn fleet_under_way(
    board: GridView,
    points: Seq<(usize, usize)>,
    runs: Seq<Run>,
    n: int,
) -> bool {
    &&& board.placing(points)
    &&& board.ships.len() == n
    &&& runs.len() == n
    &&& one_per_quadrant(runs)
    &&& forall|i: int|
        0 <= i < n ==> {
            &&& (#[trigger] runs[i]).len == fleet_length(i)
            &&& board.ships[i].name == fleet_name(i)
            &&& board.ships[i].length == fleet_length(i)
            &&& board.ships[i].cells == runs[i].cells()
        }
    &&& forall|p: (usize, usize)|
        cell_on_board(p) && (forall|j: int| 0 <= j < n ==> !(#[trigger] runs[j]).cells().contains(p))
            ==> #[trigger] points.contains(p)
}

/// A candidate run that keeps apart from the runs placed so far is free.
pub proof fn lemma_clear_run_is_free(
    board: GridView,
    points: Seq<(usize, usize)>,
    runs: Seq<Run>,
    n: int,
    cand: Run,
)
    requires
        fleet_under_way(board, points, runs, n),
        cand.fits(),
        cand.clear_of(runs),
    ensures
        run_free(points, cand.q, cand.r, cand.c, cand.dir, cand.len),
{
    let cells = cand.cells();
    assert forall|k: int| 0 <= k < cells.len() implies points.contains(#[trigger] cells[k]) by {
        let p = cells[k];
        lemma_run_on_board(cand.q, cand.r, cand.c, cand.dir, cand.len, k);
        assert(cell_on_board(p));
        assert forall|j: int| 0 <= j < n implies !(#[trigger] runs[j]).cells().contains(p) by {
            lemma_apart_disjoint(cand, runs[j]);
        }
    }
}

/// While the fleet is being placed, a quadrant that is still empty has room
/// for a ship of up to five cells.
pub proof fn lemma_fleet_has_room(
    board: GridView,
    points: Seq<(usize, usize)>,
    runs: Seq<Run>,
    n: int,
    q: int,
    len: int,
)
    requires
        fleet_under_way(board, points, runs, n),
        0 <= q < 4,
        1 <= len <= 5,
        forall|j: int| 0 <= j < n ==> (#[trigger] runs[j]).q != q,
    ensures
        can_place(points, q, len),
{
    lemma_room_in_empty_quadrant(runs, q, len);
    let cand = if corner_run(q, 0, 0, 0, len).clear_of(runs) {
        corner_run(q, 0, 0, 0, len)
    } else if corner_run(q, 0, 0, 1, len).clear_of(runs) {
        corner_run(q, 0, 0, 1, len)
    } else if corner_run(q, 1, 1, 0, len).clear_of(runs) {
        corner_run(q, 1, 1, 0, len)
    } else {
        corner_run(q, 1, 1, 1, len)
    };
    lemma_clear_run_is_free(board, points, runs, n, cand);
}

/// While the fleet is being placed, every quadrant has room for a ship of
/// two cells.
pub proof fn lemma_fleet_has_room_for_two(
    board: GridView,
    points: Seq<(usize, usize)>,
    runs: Seq<Run>,
    n: int,
    q: int,
)
    requires
        fleet_under_way(board, points, runs, n),
        0 <= q < 4,
    ensures
        can_place(points, q, 2),
{
    lemma_room_for_two(runs, q);
    let cand = if corner_run(q, 0, 0, 0, 2).clear_of(runs) {
        corner_run(q, 0, 0, 0, 2)
    } else if corner_run(q, 2, 1, 0, 2).clear_of(runs) {
        corner_run(q, 2, 1, 0, 2)
    } else if corner_run(q, 4, 2, 1, 2).clear_of(runs) {
        corner_run(q, 4, 2, 1, 2)
    } else if corner_run(q, 0, 4, 1, 2).clear_of(runs) {
        corner_run(q, 0, 4, 1, 2)
    } else {
        corner_run(q, 1, 0, 0, 2)
    };
    lemma_clear_run_is_free(board, points, runs, n, cand);
}

/// Placing the next ship of the fleet on a free run keeps the placement
/// under way.
pub proof fn lemma_fleet_grows(
    board: GridView,
    points: Seq<(usize, usize)>,
    runs: Seq<Run>,
    n: int,
    run: Run,
    after: GridView,
    left: Seq<(usize, usize)>,
)
    requires
        fleet_under_way(board, points, runs, n),
        0 <= n < 5,
        run_free(points, run.q, run.r, run.c, run.dir, run.len),
        run.len == fleet_length(n),
        forall|j: int| 0 <= j < n ==> (#[trigger] runs[j]).q != run.q,
        after == board.with_ship(fleet_name(n), run.cells()),
        left == without_cells(points, run.cells()),
        after.placing(left),
    ensures
        fleet_under_way(after, left, runs.push(run), n + 1),
{
    let grown = runs.push(run);
    lemma_without_cells(points, run.cells());
    assert forall|i: int| 0 <= i < n implies #[trigger] grown[i] == runs[i] by {}
    assert forall|i: int| 0 <= i < n implies #[trigger] after.ships[i] == board.ships[i] by {}
    assert(one_per_quadrant(grown)) by {
        assert forall|j: int| 0 <= j < grown.len() implies (#[trigger] grown[j]).fits()
            && grown[j].len <= 5 by {
            if j < n {
                assert(runs[j].fits());
            }
        }
        assert forall|i: int, j: int| 0 <= i < j < grown.len() implies (#[trigger] grown[i]).q != (
        #[trigger] grown[j]).q by {
            if j < n {
                assert(runs[i].q != runs[j].q);
            } else {
                assert(runs[i].q != run.q);
            }
        }
    }
    assert forall|p: (usize, usize)|
        cell_on_board(p) && (forall|j: int|
            0 <= j < n + 1 ==> !(#[trigger] grown[j]).cells().contains(
                p,
            )) implies #[trigger] left.contains(p) by {
        assert forall|j: int| 0 <= j < n implies !(#[trigger] runs[j]).cells().contains(p) by {
            assert(!grown[j].cells().contains(p));
        }
        assert(points.contains(p));
        assert(!grown[n].cells().contains(p));
    }
}

impl Grid {
    /// Places the fleet on a board on which nothing was placed. Carrier,
    /// Battleship, Cruiser and Submarine get a quadrant each, drawn without
    /// replacement; the Destroyer comes last, in a quadrant drawn among all
    /// four. Each ship lies on a candidate run of its quadrant, and the
    /// fleet always finds room: seventeen cells, none shared, each showing a
    /// ship, and the other eighty-three blank.
    pub fn set_computer_ships(&mut self)
        requires
            old(self)@ == GridView::fresh(),
        ensures
            exists|runs: Seq<Run>| fleet_placed(final(self)@, runs),
            fleet_shape(final(self)@),
            final(self).wf(),
            final(self)@.intact(),
            final(self)@.unshot(),
            cells_of(final(self)@.ships).no_duplicates(),
            cells_of(final(self)@.ships).len() == 17,
            final(self)@.shown_cells().len() == 17,
    {
        let ships = fleet();
        let mut points = full_points();
        let mut quadrants: Vec<usize> = Vec::new();
        quadrants.push(0);
        quadrants.push(1);
        quadrants.push(2);
        quadrants.push(3);
        let ghost mut runs: Seq<Run> = Seq::empty();
        proof {
            lemma_fresh_offers_all();
            lemma_fleet_names_differ();
        }
        let mut i: usize = 0;
        while i < 4
            invariant
                i <= 4,
                ships@.len() == 5,
                forall|k: int|
                    0 <= k < 5 ==> (#[trigger] ships@[k]).0@ == fleet_name(k) && ships@[k].1
                        == fleet_length(k),
                forall|a: int, b: int|
                    0 <= a < 5 && 0 <= b < 5 && a != b ==> #[trigger] fleet_name(a)
                        != #[trigger] fleet_name(b),
                fleet_under_way(self@, points@, runs, i as int),
                quadrants@.len() == 4 - i,
                quadrants@.no_duplicates(),
                forall|k: int| 0 <= k < quadrants@.len() ==> #[trigger] quadrants@[k] < 4,
                forall|j: int, k: int|
                    0 <= j < i && 0 <= k < quadrants@.len() ==> (#[trigger] runs[j]).q
                        != #[trigger] quadrants@[k],
            decreases 4 - i,
        {
            let q_idx = random_below(quadrants.len());
            proof {
                lemma_remove_no_duplicates(quadrants@, q_idx as int);
                quadrants@.remove_ensures(q_idx as int);
            }
            let ghost before = quadrants@;
            let quadrant = quadrants.remove(q_idx);
            let name = ships[i].0.clone();
            let length = ships[i].1;
            let ghost board = self@;
            let ghost had = points@;
            proof {
                lemma_fleet_has_room(board, had, runs, i as int, quadrant as int, length as int);
                if board.has_name(name@) {
                    let j = choose|j: int|
                        0 <= j < board.ships.len() && (#[trigger] board.ships[j]).name == name@;
                    assert(runs[j].len == fleet_length(j));
                    assert(fleet_name(j) != fleet_name(i as int));
                }
                assert(name@ == fleet_name(i as int));
                assert(can_place(had, quadrant as int, length as int));
            }
            let placed = self.create_ship((name, length), &mut points, quadrant);
            proof {
                assert(placed);
                let (r, c, dir) = choose|r: int, c: int, dir: int|
                    {
                        &&& #[trigger] run_free(had, quadrant as int, r, c, dir, length as int)
                        &&& self@ == board.with_ship(
                            fleet_name(i as int),
                            run_cells(quadrant as int, r, c, dir, length as int),
                        )
                        &&& points@ == without_cells(
                            had,
                            run_cells(quadrant as int, r, c, dir, length as int),
                        )
                    };
                let run = Run { q: quadrant as int, r, c, dir, len: length as int };
                lemma_fleet_grows(board, had, runs, i as int, run, self@, points@);
                assert forall|j: int, k: int|
                    0 <= j < i + 1 && 0 <= k < quadrants@.len() implies (#[trigger] runs.push(
                    run,
                )[j]).q != #[trigger] quadrants@[k] by {
                    let k0 = if k < q_idx { k } else { k + 1 };
                    assert(quadrants@[k] == before[k0]);
                    if j < i {
                        assert(runs[j].q != before[k0]);
                    } else {
                        assert(quadrants@.contains(quadrants@[k]));
                    }
                }
                runs = runs.push(run);
            }
            i += 1;
        }
        let quad = random_below(4);
        let name = ships[4].0.clone();
        let length = ships[4].1;
        let ghost board = self@;
        let ghost had = points@;
        proof {
            lemma_fleet_has_room_for_two(board, had, runs, 4, quad as int);
            if board.has_name(name@) {
                let j = choose|j: int|
                    0 <= j < board.ships.len() && (#[trigger] board.ships[j]).name == name@;
                assert(runs[j].len == fleet_length(j));
                assert(fleet_name(j) != fleet_name(4));
            }
            assert(name@ == fleet_name(4));
            assert(length == 2);
        }
        let placed = self.create_ship((name, length), &mut points, quad);
        proof {
            assert(placed);
            let (r, c, dir) = choose|r: int, c: int, dir: int|
                {
                    &&& #[trigger] run_free(had, quad as int, r, c, dir, 2)
                    &&& self@ == board.with_ship(
                        fleet_name(4),
                        run_cells(quad as int, r, c, dir, 2),
                    )
                    &&& points@ == without_cells(had, run_cells(quad as int, r, c, dir, 2))
                };
            let run = Run { q: quad as int, r, c, dir, len: 2 };
            let all = runs.push(run);
            assert forall|k: int| 0 <= k < 4 implies #[trigger] all[k] == runs[k] by {}
            assert forall|k: int| 0 <= k < 4 implies #[trigger] self@.ships[k] == board.ships[k] by {}
            assert forall|k: int| 0 <= k < 5 implies {
                &&& (#[trigger] all[k]).fits()
                &&& all[k].len == fleet_length(k)
                &&& self@.ships[k].name == fleet_name(k)
                &&& self@.ships[k].length == fleet_length(k)
                &&& self@.ships[k].cells == all[k].cells()
            } by {
                if k < 4 {
                    assert(runs[k].fits());
                }
            }
            assert forall|a: int, b: int| 0 <= a < b < 4 implies (#[trigger] all[a]).q != (
            #[trigger] all[b]).q by {
                assert(runs[a].q != runs[b].q);
            }
            assert forall|p: (usize, usize)| cell_on_board(p) implies #[trigger] self@.state(p)
                == (if self@.occupied(p) {
                CoordState::Ship
            } else {
                CoordState::Blank
            }) by {
                self@.lemma_shot_marks_one_cell(p, p);
                assert(!self@.already_shot(p));
            }
            assert(fleet_placed(self@, all));
            lemma_fleet_shape(self@, all);
            lemma_fleet_counts(self@, all);
            self@.lemma_placing_counts(points@);
        }
    }
}

/// A board on which the fleet stands is intact, and its ships hold
/// seventeen cells.
pub proof fn lemma_fleet_counts(board: GridView, runs: Seq<Run>)
    requires
        board.wf(),
        fleet_placed(board, runs),
    ensures
        board.intact(),
        cells_of(board.ships).no_duplicates(),
        cells_of(board.ships).len() == 17,
        total_length(board.ships) == 17,
{
    assert forall|i: int| 0 <= i < board.ships.len() implies (
    #[trigger] board.ships[i]).cells.len() == board.ships[i].length by {
        assert(runs[i].fits());
    }
    board.lemma_placement_exclusive();
    let s = board.ships;
    assert(runs[0].len == 5 && runs[1].len == 4 && runs[2].len == 3 && runs[3].len == 3
        && runs[4].len == 2);
    reveal_with_fuel(total_length, 6);
    assert(s.drop_last().drop_last().drop_last().drop_last().drop_last().len() == 0);
    assert(s.drop_last().last() == s[3]);
    assert(s.drop_last().drop_last().last() == s[2]);
    assert(s.drop_last().drop_last().drop_last().last() == s[1]);
    assert(s.drop_last().drop_last().drop_last().drop_last().last() == s[0]);
    assert(total_length(s) == 17);
}

} // verus!
