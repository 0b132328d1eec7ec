//! Placing ships on a board: the cells still available, the registration of
//! a ship, and manual placement between two end points.

use crate::coord::{cell_of, get_coord_index, valid_coord, CoordState};
use crate::grid::{cell_on_board, Grid, GridView, Ship, ShipView};
use vstd::prelude::*;

verus! {

/// Why a ship could not be registered.
#[derive(Copy, Clone, Debug, PartialEq, Eq, Structural)]
pub enum PlacementError {
    /// The board already has a ship of that name.
    NameTaken,
}

/// Everything that is wrong with a manual placement; several faults can hold
/// at once.
#[derive(Copy, Clone, Debug, PartialEq, Eq, Structural)]
pub struct PlacementFaults {
    /// An end point is not a cell of the board.
    pub out_of_range: bool,
    /// The end points share neither row nor column.
    pub not_straight: bool,
    /// The end points are the same cell.
    pub zero_length: bool,
    /// The end points are not the ship's length apart.
    pub wrong_length: bool,
    /// A cell between the end points is not available.
    pub overlap: bool,
    /// The board already has a ship of that name.
    pub name_taken: bool,
}

impl PlacementFaults {
    /// No fault holds.
    pub open spec fn none(self) -> bool {
        &&& !self.out_of_range
        &&& !self.not_straight
        &&& !self.zero_length
        &&& !self.wrong_length
        &&& !self.overlap
        &&& !self.name_taken
    }

    /// Whether the placement has no fault.
    pub fn is_clear(&self) -> (clear: bool)
        ensures
            clear == self.none(),
    {
        !self.out_of_range && !self.not_straight && !self.zero_length && !self.wrong_length
            && !self.overlap && !self.name_taken
    }
}

/// The test that keeps the cells outside `cells`.
pub open spec fn outside(cells: Seq<(usize, usize)>) -> spec_fn((usize, usize)) -> bool {
    |p: (usize, usize)| !cells.contains(p)
}

/// The available cells that are left when `cells` are taken, in their order.
pub open spec fn without_cells(points: Seq<(usize, usize)>, cells: Seq<(usize, usize)>) -> Seq<
    (usize, usize),
> {
    points.filter(outside(cells))
}

/// Every one of `cells` is among `points`.
pub open spec fn covers(points: Seq<(usize, usize)>, cells: Seq<(usize, usize)>) -> bool {
    forall|k: int| 0 <= k < cells.len() ==> points.contains(#[trigger] cells[k])
}

/// All hundred cells of the board, row by row.
pub open spec fn all_cells() -> Seq<(usize, usize)> {
    Seq::new(100, |k: int| ((k / 10) as usize, (k % 10) as usize))
}

/// The cells from one end point to the other, both included, from the lesser
/// row or column to the greater. End points on different rows span the rows
/// of the first one's column.
pub open spec fn span_cells(a: (usize, usize), b: (usize, usize)) -> Seq<(usize, usize)> {
    if a.0 != b.0 {
        let lo = if a.0 < b.0 { a.0 } else { b.0 };
        let hi = if a.0 < b.0 { b.0 } else { a.0 };
        Seq::new((hi - lo + 1) as nat, |k: int| ((lo + k) as usize, a.1))
    } else {
        let lo = if a.1 < b.1 { a.1 } else { b.1 };
        let hi = if a.1 < b.1 { b.1 } else { a.1 };
        Seq::new((hi - lo + 1) as nat, |k: int| (a.0, (lo + k) as usize))
    }
}

/// The distance between two end points along the axis on which they differ,
/// rows first.
pub open spec fn span(a: (usize, usize), b: (usize, usize)) -> int {
    if a.0 != b.0 {
        if a.0 < b.0 { b.0 - a.0 } else { a.0 - b.0 }
    } else {
        if a.1 < b.1 { b.1 - a.1 } else { a.1 - b.1 }
    }
}

impl GridView {
    /// The cell is on the board, blank, and no ship occupies it.
    pub open spec fn free(self, p: (usize, usize)) -> bool {
        &&& cell_on_board(p)
        &&& self.state(p) == CoordState::Blank
        &&& !self.occupied(p)
    }

    /// `points` is a set of cells that are free on this board: no cell
    /// twice, and each one free.
    pub open spec fn offers(self, points: Seq<(usize, usize)>) -> bool {
        &&& points.no_duplicates()
        &&& forall|k: int| 0 <= k < points.len() ==> self.free(#[trigger] points[k])
    }

    /// `cells` can become a ship: at least one cell, none twice, each one
    /// free.
    pub open spec fn can_hold(self, cells: Seq<(usize, usize)>) -> bool {
        &&& cells.len() > 0
        &&& cells.no_duplicates()
        &&& forall|k: int| 0 <= k < cells.len() ==> self.free(#[trigger] cells[k])
    }

    /// No cell of the board was fired upon.
    pub open spec fn unshot(self) -> bool {
        forall|p: (usize, usize)| cell_on_board(p) ==> !#[trigger] self.already_shot(p)
    }

    /// The test that keeps the cells that show a ship.
    pub open spec fn shows_ship(self) -> spec_fn((usize, usize)) -> bool {
        |p: (usize, usize)| self.state(p) == CoordState::Ship
    }

    /// The cells of the board that show a ship, row by row.
    pub open spec fn shown_cells(self) -> Seq<(usize, usize)> {
        all_cells().filter(self.shows_ship())
    }

    /// The board while ships are being placed, with `points` as the cells
    /// still available: a well-formed board, every ship intact, no cell fired
    /// upon, and `points` exactly its free cells.
    pub open spec fn placing(self, points: Seq<(usize, usize)>) -> bool {
        &&& self.wf()
        &&& self.intact()
        &&& self.unshot()
        &&& self.offers(points)
        &&& forall|p: (usize, usize)| #[trigger] self.free(p) ==> points.contains(p)
    }

    /// The board with one more ship, registered last, whose length is the
    /// number of its cells, and whose cells show a ship.
    pub open spec fn with_ship(self, name: Seq<char>, cells: Seq<(usize, usize)>) -> GridView {
        GridView {
            states: Seq::new(
                10,
                |r: int|
                    Seq::new(
                        10,
                        |c: int|
                            if cells.contains((r as usize, c as usize)) {
                                CoordState::Ship
                            } else {
                                self.states[r][c]
                            },
                    ),
            ),
            ships: self.ships.push(ShipView { name, length: cells.len(), cells }),
        }
    }

    /// What is wrong with placing a ship of `given_size` cells, under `name`,
    /// between the end points `start` and `end`, given as row number and
    /// column letter, when `points` are the cells still available. End points
    /// off the board are out of range, and nothing more is said of them. The
    /// length is held against the span whether or not the line is straight;
    /// the cells are looked up only on a straight line.
    pub open spec fn manual_faults(
        self,
        points: Seq<(usize, usize)>,
        name: Seq<char>,
        start: (i32, char),
        end: (i32, char),
        given_size: u32,
    ) -> PlacementFaults {
        let in_range = valid_coord(start.0 as int, start.1) && valid_coord(end.0 as int, end.1);
        let a = cell_of(start.0 as int, start.1);
        let b = cell_of(end.0 as int, end.1);
        let straight = a.0 == b.0 || a.1 == b.1;
        PlacementFaults {
            out_of_range: !in_range,
            not_straight: in_range && !straight,
            zero_length: in_range && a == b,
            wrong_length: in_range && span(a, b) != given_size - 1,
            overlap: in_range && straight && !covers(points, span_cells(a, b)),
            name_taken: self.has_name(name),
        }
    }
}

/// A filter keeps exactly the cells that pass its test, each as often as
/// before: once where no cell occurred twice.
pub proof fn lemma_filter_cells(points: Seq<(usize, usize)>, pred: spec_fn((usize, usize)) -> bool)
    ensures
        forall|p: (usize, usize)| #[trigger]
            points.filter(pred).contains(p) <==> points.contains(p) && pred(p),
        points.no_duplicates() ==> points.filter(pred).no_duplicates(),
        points.filter(pred).len() <= points.len(),
    decreases points.len(),
{
    reveal(Seq::filter);
    let out = points.filter(pred);
    if points.len() > 0 {
        let front = points.drop_last();
        let last = points.last();
        let sub = front.filter(pred);
        lemma_filter_cells(front, pred);
        assert(points =~= front.push(last));
        assert forall|p: (usize, usize)| #[trigger]
            out.contains(p) <==> points.contains(p) && pred(p) by {
            if out.contains(p) {
                let m = choose|m: int| 0 <= m < out.len() && out[m] == p;
                if pred(last) && m == out.len() - 1 {
                    assert(points[points.len() - 1] == p);
                } else {
                    assert(sub[m] == p);
                    assert(sub.contains(p));
                    let n = choose|n: int| 0 <= n < front.len() && front[n] == p;
                    assert(points[n] == p);
                }
            }
            if points.contains(p) && pred(p) {
                let n = choose|n: int| 0 <= n < points.len() && points[n] == p;
                if n == points.len() - 1 {
                    assert(pred(last));
                    assert(out[out.len() - 1] == p);
                } else {
                    assert(front[n] == p);
                    assert(front.contains(p));
                    assert(sub.contains(p));
                    let m = choose|m: int| 0 <= m < sub.len() && sub[m] == p;
                    assert(out[m] == p);
                }
            }
        }
        if points.no_duplicates() {
            assert(front.no_duplicates());
            if pred(last) {
                if sub.contains(last) {
                    let n = choose|n: int| 0 <= n < front.len() && front[n] == last;
                    assert(points[n] == points[points.len() - 1]);
                }
                assert forall|i: int, j: int|
                    0 <= i < out.len() && 0 <= j < out.len() && i != j implies out[i]
                    != out[j] by {
                    if i == out.len() - 1 {
                        assert(sub[j] == out[j]);
                        assert(sub.contains(out[j]));
                    } else if j == out.len() - 1 {
                        assert(sub[i] == out[i]);
                        assert(sub.contains(out[i]));
                    } else {
                        assert(sub[i] == out[i] && sub[j] == out[j]);
                    }
                }
            }
        }
    }
}

/// Taking cells from a set of available cells leaves exactly the cells that
/// were available and are not taken, each still once.
pub proof fn lemma_without_cells(points: Seq<(usize, usize)>, cells: Seq<(usize, usize)>)
    ensures
        forall|p: (usize, usize)| #[trigger]
            without_cells(points, cells).contains(p) <==> points.contains(p) && !cells.contains(
                p,
            ),
        points.no_duplicates() ==> without_cells(points, cells).no_duplicates(),
        without_cells(points, cells).len() <= points.len(),
{
    lemma_filter_cells(points, outside(cells));
}

impl GridView {
    /// Registering a ship on free cells, under a new name, keeps a
    /// well-formed board well-formed.
    pub proof fn lemma_with_ship_wf(self, name: Seq<char>, cells: Seq<(usize, usize)>)
        requires
            self.wf(),
            self.can_hold(cells),
            !self.has_name(name),
        ensures
            self.with_ship(name, cells).wf(),
    {
        let after = self.with_ship(name, cells);
        let n = self.ships.len() as int;
        assert(after.ships.len() == n + 1);
        assert(after.ships[n].cells == cells);
        assert forall|i: int| 0 <= i < n implies #[trigger] after.ships[i] == self.ships[i] by {}
        assert forall|q: (usize, usize)| cell_on_board(q) implies #[trigger] after.state(q) == (
        if cells.contains(q) {
            CoordState::Ship
        } else {
            self.state(q)
        }) by {
            assert(self.states[q.0 as int].len() == 10);
        }
        assert(after.shaped()) by {
            assert forall|r: int| 0 <= r < 10 implies (#[trigger] after.states[r]).len() == 10 by {
                assert(self.states[r].len() == 10);
            }
        }
        assert forall|i: int| 0 <= i < after.ships.len() implies (
        #[trigger] after.ships[i]).sound() by {
            if i < n {
                assert(self.ships[i].sound());
            }
        }
        assert forall|i: int, k: int|
            0 <= i < after.ships.len() && 0 <= k < after.ships[i].cells.len() implies {
            &&& cell_on_board(#[trigger] after.ships[i].cells[k])
            &&& after.state(after.ships[i].cells[k]) == CoordState::Ship
        } by {
            let q = after.ships[i].cells[k];
            if i < n {
                assert(q == self.ships[i].cells[k]);
                assert(cell_on_board(q) && self.state(q) == CoordState::Ship);
            } else {
                assert(self.free(cells[k]));
                assert(cells.contains(q));
            }
        }
        assert forall|i: int, j: int, p: (usize, usize)|
            0 <= i < after.ships.len() && 0 <= j < after.ships.len() && i != j
                && #[trigger] after.ships[i].cells.contains(
                p,
            ) implies !#[trigger] after.ships[j].cells.contains(p) by {
            if after.ships[j].cells.contains(p) {
                if i < n && j < n {
                    assert(self.ships[i].cells.contains(p));
                    assert(self.ships[j].cells.contains(p));
                    assert(false);
                } else {
                    let old_one = if i < n { i } else { j };
                    assert(self.ships[old_one].cells.contains(p));
                    assert(self.occupied(p));
                    let k = choose|k: int| 0 <= k < cells.len() && cells[k] == p;
                    assert(self.free(cells[k]));
                    assert(false);
                }
            }
        }
        assert forall|p: (usize, usize)|
            cell_on_board(p) && #[trigger] after.state(p)
                == CoordState::Ship implies after.occupied(p) by {
            if cells.contains(p) {
                assert(after.ships[n].cells.contains(p));
            } else {
                assert(self.state(p) == CoordState::Ship);
                assert(self.occupied(p));
                let i = self.ship_at(p);
                assert(self.ships[i].cells.contains(p));
                assert(after.ships[i].cells.contains(p));
            }
        }
        assert forall|i: int, j: int| 0 <= i < j < after.ships.len() implies (
        #[trigger] after.ships[i]).name != (#[trigger] after.ships[j]).name by {
            if j < n {
                assert(self.ships[i].name != self.ships[j].name);
            } else {
                assert(self.ships[i].name != name);
            }
        }
    }

    /// When a ship takes its cells from the available ones, the cells that are
    /// left are a set of free cells of the board with that ship.
    pub proof fn lemma_with_ship_offers(
        self,
        points: Seq<(usize, usize)>,
        name: Seq<char>,
        cells: Seq<(usize, usize)>,
    )
        requires
            self.shaped(),
            self.offers(points),
        ensures
            self.with_ship(name, cells).offers(without_cells(points, cells)),
    {
        let after = self.with_ship(name, cells);
        let left = without_cells(points, cells);
        lemma_without_cells(points, cells);
        assert forall|k: int| 0 <= k < left.len() implies after.free(#[trigger] left[k]) by {
            let p = left[k];
            assert(left.contains(p));
            assert(points.contains(p) && !cells.contains(p));
            let m = choose|m: int| 0 <= m < points.len() && points[m] == p;
            assert(self.free(points[m]));
            assert(self.states[p.0 as int].len() == 10);
            assert(after.state(p) == self.state(p));
            if after.occupied(p) {
                let i = after.ship_at(p);
                assert(after.ships[i].cells.contains(p));
                if i < self.ships.len() {
                    assert(self.ships[i].cells.contains(p));
                    assert(self.occupied(p));
                }
                assert(false);
            }
        }
    }
}

/// Whether `(r, c)` is one of `cells`.
pub fn contains_cell(cells: &Vec<(usize, usize)>, r: usize, c: usize) -> (found: bool)
    ensures
        found == cells@.contains((r, c)),
{
    let mut i: usize = 0;
    while i < cells.len()
        invariant
            i <= cells@.len(),
            forall|j: int| 0 <= j < i ==> cells@[j] != (r, c),
        decreases cells@.len() - i,
    {
        let cell = cells[i];
        if cell.0 == r && cell.1 == c {
            return true;
        }
        i += 1;
    }
    false
}

/// Whether every one of `cells` is among `points`.
pub fn covers_cells(points: &Vec<(usize, usize)>, cells: &Vec<(usize, usize)>) -> (all: bool)
    ensures
        all == covers(points@, cells@),
{
    let mut k: usize = 0;
    while k < cells.len()
        invariant
            k <= cells@.len(),
            forall|j: int| 0 <= j < k ==> points@.contains(#[trigger] cells@[j]),
        decreases cells@.len() - k,
    {
        let cell = cells[k];
        if !contains_cell(points, cell.0, cell.1) {
            return false;
        }
        k += 1;
    }
    true
}

/// Takes `cells` out of the available `points`; the others keep their order.
pub fn remove_cells(points: &mut Vec<(usize, usize)>, cells: &Vec<(usize, usize)>)
    ensures
        final(points)@ == without_cells(old(points)@, cells@),
{
    let mut kept: Vec<(usize, usize)> = Vec::new();
    let mut i: usize = 0;
    proof {
        reveal(Seq::filter);
        assert(points@.take(0) =~= Seq::<(usize, usize)>::empty());
    }
    while i < points.len()
        invariant
            i <= points@.len(),
            kept@ == without_cells(points@.take(i as int), cells@),
        decreases points@.len() - i,
    {
        let p = points[i];
        proof {
            assert(points@.take(i + 1) =~= points@.take(i as int).push(p));
            points@.take(i as int).lemma_filter_push(p, outside(cells@));
        }
        if !contains_cell(cells, p.0, p.1) {
            kept.push(p);
        }
        i += 1;
    }
    proof {
        assert(points@.take(points@.len() as int) =~= points@);
    }
    *points = kept;
}

/// All hundred cells of the board, row by row: the cells available on a
/// board on which nothing was placed.
pub fn full_points() -> (points: Vec<(usize, usize)>)
    ensures
        points@ == all_cells(),
{
    let mut points: Vec<(usize, usize)> = Vec::new();
    let mut i: usize = 0;
    while i < 10
        invariant
            i <= 10,
            points@.len() == 10 * i,
            forall|k: int|
                0 <= k < points@.len() ==> #[trigger] points@[k] == (
                    (k / 10) as usize,
                    (k % 10) as usize,
                ),
        decreases 10 - i,
    {
        let mut j: usize = 0;
        while j < 10
            invariant
                i < 10,
                j <= 10,
                points@.len() == 10 * i + j,
                forall|k: int|
                    0 <= k < points@.len() ==> #[trigger] points@[k] == (
                        (k / 10) as usize,
                        (k % 10) as usize,
                    ),
            decreases 10 - j,
        {
            points.push((i, j));
            j += 1;
        }
        i += 1;
    }
    proof {
        assert(points@ =~= all_cells());
    }
    points
}

/// On a board on which nothing was placed, all hundred cells are available.
pub proof fn lemma_fresh_offers_all()
    ensures
        GridView::fresh().wf(),
        GridView::fresh().offers(all_cells()),
        GridView::fresh().placing(all_cells()),
        forall|p: (usize, usize)| cell_on_board(p) <==> all_cells().contains(p),
{
    let fresh = GridView::fresh();
    let all = all_cells();
    assert forall|p: (usize, usize)| cell_on_board(p) implies all.contains(p) by {
        let k = p.0 * 10 + p.1;
        assert(all[k] == p);
    }
    assert forall|p: (usize, usize)| all.contains(p) implies cell_on_board(p) by {
        let k = choose|k: int| 0 <= k < all.len() && all[k] == p;
        assert(cell_on_board(all[k]));
    }
    assert(fresh.wf());
    assert(fresh.offers(all));
    assert(fresh.intact());
    assert(fresh.unshot());
}

/// The cells between two end points of the board, as `span_cells` lists them.
fn line_between(a: (usize, usize), b: (usize, usize)) -> (cells: Vec<(usize, usize)>)
    requires
        cell_on_board(a),
        cell_on_board(b),
    ensures
        cells@ == span_cells(a, b),
{
    let mut cells: Vec<(usize, usize)> = Vec::new();
    if a.0 != b.0 {
        let lo: usize = if a.0 < b.0 { a.0 } else { b.0 };
        let hi: usize = if a.0 < b.0 { b.0 } else { a.0 };
        let mut i: usize = lo;
        while i <= hi
            invariant
                lo <= i <= hi + 1,
                hi < 10,
                cells@.len() == i - lo,
                forall|k: int| 0 <= k < cells@.len() ==> cells@[k] == ((lo + k) as usize, a.1),
            decreases hi + 1 - i,
        {
            cells.push((i, a.1));
            i += 1;
        }
        proof {
            assert(cells@ =~= span_cells(a, b));
        }
    } else {
        let lo: usize = if a.1 < b.1 { a.1 } else { b.1 };
        let hi: usize = if a.1 < b.1 { b.1 } else { a.1 };
        let mut i: usize = lo;
        while i <= hi
            invariant
                lo <= i <= hi + 1,
                hi < 10,
                cells@.len() == i - lo,
                forall|k: int| 0 <= k < cells@.len() ==> cells@[k] == (a.0, (lo + k) as usize),
            decreases hi + 1 - i,
        {
            cells.push((a.0, i));
            i += 1;
        }
        proof {
            assert(cells@ =~= span_cells(a, b));
        }
    }
    cells
}

impl Grid {
    /// Registers a ship as the last of the registry and marks its cells.
    pub(crate) fn add_ship(&mut self, name: String, cells: Vec<(usize, usize)>)
        requires
            old(self).wf(),
            old(self)@.can_hold(cells@),
            !old(self)@.has_name(name@),
        ensures
            final(self)@ == old(self)@.with_ship(name@, cells@),
            final(self).wf(),
    {
        proof {
            old(self)@.lemma_with_ship_wf(name@, cells@);
        }
        let mut k: usize = 0;
        while k < cells.len()
            invariant
                k <= cells@.len(),
                old(self)@.shaped(),
                self@.shaped(),
                self@.ships == old(self)@.ships,
                forall|i: int| 0 <= i < cells@.len() ==> cell_on_board(#[trigger] cells@[i]),
                forall|r: int, c: int|
                    0 <= r < 10 && 0 <= c < 10 ==> #[trigger] self@.states[r][c] == (
                    if cells@.take(k as int).contains((r as usize, c as usize)) {
                        CoordState::Ship
                    } else {
                        old(self)@.states[r][c]
                    }),
            decreases cells@.len() - k,
        {
            let cell = cells[k];
            let ghost before = self@;
            assert(cell_on_board(cells@[k as int]));
            self.set_state(cell.0, cell.1, CoordState::Ship);
            proof {
                let grown = cells@.take(k + 1);
                let had = cells@.take(k as int);
                assert(grown =~= had.push(cell));
                assert forall|r: int, c: int|
                    0 <= r < 10 && 0 <= c < 10 implies #[trigger] self@.states[r][c] == (
                if grown.contains((r as usize, c as usize)) {
                    CoordState::Ship
                } else {
                    old(self)@.states[r][c]
                }) by {
                    let q = (r as usize, c as usize);
                    assert(before.states[r].len() == 10);
                    if q == cell {
                        assert(grown[k as int] == q);
                    } else {
                        assert(self@.states[r][c] == before.states[r][c]);
                        if had.contains(q) {
                            let m = choose|m: int| 0 <= m < had.len() && had[m] == q;
                            assert(grown[m] == q);
                        }
                        if grown.contains(q) {
                            let m = choose|m: int| 0 <= m < grown.len() && grown[m] == q;
                            assert(had[m] == q);
                        }
                    }
                }
                assert forall|r: int| 0 <= r < 10 implies (#[trigger] self@.states[r]).len()
                    == 10 by {
                    assert(before.states[r].len() == 10);
                }
            }
            k += 1;
        }
        proof {
            assert(cells@.take(cells@.len() as int) =~= cells@);
        }
        let length = cells.len();
        let ghost name_view = name@;
        let ghost cells_view = cells@;
        self.ships.push(Ship { name, length, cells });
        proof {
            let want = old(self)@.with_ship(name_view, cells_view);
            assert(self@.ships =~= want.ships);
            assert(self@.states =~~= want.states);
        }
    }

    /// Records a ship on the given cells, in their order, and marks each of
    /// them as holding a ship. The cells are not validated here: whoever
    /// places the ship answers for them being free cells of the board, at
    /// least one and none twice. A name that the board already has is
    /// refused, and the board stays as it was.
    pub fn place_ship(&mut self, name: String, cells: Vec<(usize, usize)>) -> (res: Result<
        (),
        PlacementError,
    >)
        requires
            old(self).wf(),
            old(self)@.can_hold(cells@),
        ensures
            old(self)@.has_name(name@) ==> res == Err::<(), PlacementError>(
                PlacementError::NameTaken,
            ) && final(self)@ == old(self)@,
            !old(self)@.has_name(name@) ==> res == Ok::<(), PlacementError>(()) && final(self)@
                == old(self)@.with_ship(name@, cells@),
            final(self).wf(),
    {
        if self.has_ship(&name) {
            return Err(PlacementError::NameTaken);
        }
        self.add_ship(name, cells);
        Ok(())
    }

    /// Examines a manual placement and, where it has no fault, lists the
    /// ship's cells.
    fn survey_user_ship(
        &self,
        name: &String,
        start_point: (i32, char),
        end_point: (i32, char),
        given_size: u32,
        points: &Vec<(usize, usize)>,
    ) -> (res: (PlacementFaults, Vec<(usize, usize)>))
        ensures
            res.0 == self@.manual_faults(points@, name@, start_point, end_point, given_size),
            res.0.none() ==> res.1@ == span_cells(
                cell_of(start_point.0 as int, start_point.1),
                cell_of(end_point.0 as int, end_point.1),
            ),
    {
        let name_taken = self.has_ship(name);
        let start = get_coord_index(start_point.0, start_point.1);
        let end = get_coord_index(end_point.0, end_point.1);
        match (start, end) {
            (Ok(a), Ok(b)) => {
                let straight = a.0 == b.0 || a.1 == b.1;
                let identical = a.0 == b.0 && a.1 == b.1;
                let reach: usize = if a.0 != b.0 {
                    if a.0 < b.0 { b.0 - a.0 } else { a.0 - b.0 }
                } else {
                    if a.1 < b.1 { b.1 - a.1 } else { a.1 - b.1 }
                };
                let wrong_length = reach as u64 + 1 != given_size as u64;
                let cells = if straight { line_between(a, b) } else { Vec::new() };
                let overlap = straight && !covers_cells(points, &cells);
                (
                    PlacementFaults {
                        out_of_range: false,
                        not_straight: !straight,
                        zero_length: identical,
                        wrong_length,
                        overlap,
                        name_taken,
                    },
                    cells,
                )
            },
            _ => (
                PlacementFaults {
                    out_of_range: true,
                    not_straight: false,
                    zero_length: false,
                    wrong_length: false,
                    overlap: false,
                    name_taken,
                },
                Vec::new(),
            ),
        }
    }

    /// Says what is wrong with placing a ship of `given_size` cells between
    /// two end points, each a row number and a column letter, when `points`
    /// are the cells still available. Nothing is changed.
    pub fn check_user_ship(
        &self,
        name: &String,
        start_point: (i32, char),
        end_point: (i32, char),
        given_size: u32,
        points: &Vec<(usize, usize)>,
    ) -> (faults: PlacementFaults)
        ensures
            faults == self@.manual_faults(points@, name@, start_point, end_point, given_size),
    {
        self.survey_user_ship(name, start_point, end_point, given_size, points).0
    }

    /// Places a ship of `given_size` cells between two end points, each a row
    /// number and a column letter, if the placement has no fault: the cells
    /// between the end points become the ship, are marked on the board and
    /// leave the available `points`. With any fault, the board and the points
    /// stay as they were and the answer is `false`.
    pub fn place_user_ship(
        &mut self,
        name: String,
        start_point: (i32, char),
        end_point: (i32, char),
        given_size: u32,
        points: &mut Vec<(usize, usize)>,
    ) -> (valid: bool)
        requires
            old(self).wf(),
            old(self)@.offers(old(points)@),
        ensures
            valid == old(self)@.manual_faults(
                old(points)@,
                name@,
                start_point,
                end_point,
                given_size,
            ).none(),
            valid ==> {
                let cells = span_cells(
                    cell_of(start_point.0 as int, start_point.1),
                    cell_of(end_point.0 as int, end_point.1),
                );
                &&& final(self)@ == old(self)@.with_ship(name@, cells)
                &&& final(points)@ == without_cells(old(points)@, cells)
            },
            !valid ==> final(self)@ == old(self)@ && final(points)@ == old(points)@,
            final(self).wf(),
            final(self)@.offers(final(points)@),
            old(self)@.placing(old(points)@) ==> final(self)@.placing(final(points)@),
    {
        let (faults, cells) = self.survey_user_ship(
            &name,
            start_point,
            end_point,
            given_size,
            points,
        );
        if !faults.is_clear() {
            return false;
        }
        proof {
            let a = cell_of(start_point.0 as int, start_point.1);
            let b = cell_of(end_point.0 as int, end_point.1);
            assert(cells@ == span_cells(a, b));
            assert(covers(points@, cells@));
            assert forall|k: int| 0 <= k < cells@.len() implies self@.free(
                #[trigger] cells@[k],
            ) by {
                let p = cells@[k];
                assert(points@.contains(p));
                let m = choose|m: int| 0 <= m < points@.len() && points@[m] == p;
                assert(self@.free(points@[m]));
            }
            self@.lemma_with_ship_offers(points@, name@, cells@);
            if self@.placing(points@) {
                self@.lemma_placing_goes_on(points@, name@, cells@);
            }
        }
        remove_cells(points, &cells);
        self.add_ship(name, cells);
        true
    }
}

/// The cells of all the ships of a registry, ship by ship.
pub open spec fn cells_of(ships: Seq<ShipView>) -> Seq<(usize, usize)>
    decreases ships.len(),
{
    if ships.len() == 0 {
        Seq::empty()
    } else {
        cells_of(ships.drop_last()) + ships.last().cells
    }
}

/// The lengths of all the ships of a registry, added up.
pub open spec fn total_length(ships: Seq<ShipView>) -> nat
    decreases ships.len(),
{
    if ships.len() == 0 {
        0
    } else {
        total_length(ships.drop_last()) + ships.last().length
    }
}

impl GridView {
    /// No ship was hit yet: each one has all the cells of its length.
    pub open spec fn intact(self) -> bool {
        forall|i: int|
            0 <= i < self.ships.len() ==> (#[trigger] self.ships[i]).cells.len()
                == self.ships[i].length
    }

    /// Registering a ship leaves the ships intact.
    pub proof fn lemma_with_ship_intact(
        self,
        name: Seq<char>,
        cells: Seq<(usize, usize)>,
    )
        requires
            self.intact(),
        ensures
            self.with_ship(name, cells).intact(),
    {
        let after = self.with_ship(name, cells);
        assert forall|i: int| 0 <= i < after.ships.len() implies (
        #[trigger] after.ships[i]).cells.len() == after.ships[i].length by {
            if i < self.ships.len() {
                assert(after.ships[i] == self.ships[i]);
            }
        }
    }

    /// Placement is exclusive. On a well-formed board no cell occurs twice
    /// among the cells of all the ships, and those cells are exactly the
    /// occupied ones. While the ships are intact, as they are after any
    /// sequence of placements on a board on which nothing was placed, the
    /// number of occupied cells is the sum of the ships' lengths.
    pub proof fn lemma_placement_exclusive(self)
        requires
            self.wf(),
        ensures
            cells_of(self.ships).no_duplicates(),
            forall|p: (usize, usize)| #[trigger] cells_of(self.ships).contains(p) <==> self.occupied(p),
            self.intact() ==> cells_of(self.ships).len() == total_length(self.ships),
    {
        assert forall|i: int| 0 <= i < self.ships.len() implies (
        #[trigger] self.ships[i]).cells.no_duplicates() by {
            assert(self.ships[i].sound());
        }
        lemma_cells_of(self.ships);
    }
}

/// Where no ship holds a cell twice and no two ships share a cell, the
/// cells of all the ships hold no cell twice; they are the cells that some
/// ship holds, and as many as the ships' cell counts add up to.
pub proof fn lemma_cells_of(ships: Seq<ShipView>)
    requires
        forall|i: int| 0 <= i < ships.len() ==> (#[trigger] ships[i]).cells.no_duplicates(),
        forall|i: int, j: int, p: (usize, usize)|
            0 <= i < ships.len() && 0 <= j < ships.len() && i != j
                && #[trigger] ships[i].cells.contains(p) ==> !#[trigger] ships[j].cells.contains(
                p,
            ),
    ensures
        cells_of(ships).no_duplicates(),
        forall|p: (usize, usize)| #[trigger]
            cells_of(ships).contains(p) <==> exists|i: int|
                0 <= i < ships.len() && (#[trigger] ships[i]).cells.contains(p),
        (forall|i: int| 0 <= i < ships.len() ==> (#[trigger] ships[i]).cells.len() == ships[i].length)
            ==> cells_of(ships).len() == total_length(ships),
    decreases ships.len(),
{
    if ships.len() > 0 {
        let front = ships.drop_last();
        let last = ships.last();
        let n = front.len() as int;
        assert forall|i: int| 0 <= i < front.len() implies #[trigger] front[i] == ships[i] by {}
        assert forall|i: int, j: int, p: (usize, usize)|
            0 <= i < front.len() && 0 <= j < front.len() && i != j
                && #[trigger] front[i].cells.contains(
                p,
            ) implies !#[trigger] front[j].cells.contains(p) by {
            assert(ships[i].cells.contains(p));
            if ships[j].cells.contains(p) {
                assert(false);
            }
        }
        lemma_cells_of(front);
        let head = cells_of(front);
        let all = cells_of(ships);
        assert(all == head + last.cells);
        assert forall|p: (usize, usize)| #[trigger]
            all.contains(p) <==> exists|i: int|
                0 <= i < ships.len() && (#[trigger] ships[i]).cells.contains(p) by {
            if all.contains(p) {
                let m = choose|m: int| 0 <= m < all.len() && all[m] == p;
                if m < head.len() {
                    assert(head[m] == p);
                    assert(head.contains(p));
                    let i = choose|i: int|
                        0 <= i < front.len() && (#[trigger] front[i]).cells.contains(p);
                    assert(ships[i].cells.contains(p));
                } else {
                    assert(last.cells[m - head.len()] == p);
                    assert(ships[n].cells.contains(p));
                }
            }
            if exists|i: int| 0 <= i < ships.len() && (#[trigger] ships[i]).cells.contains(p) {
                let i = choose|i: int|
                    0 <= i < ships.len() && (#[trigger] ships[i]).cells.contains(p);
                if i < n {
                    assert(front[i].cells.contains(p));
                    assert(head.contains(p));
                    let m = choose|m: int| 0 <= m < head.len() && head[m] == p;
                    assert(all[m] == p);
                } else {
                    let m = choose|m: int| 0 <= m < last.cells.len() && last.cells[m] == p;
                    assert(all[head.len() + m] == p);
                }
            }
        }
        assert forall|a: int, b: int| 0 <= a < all.len() && 0 <= b < all.len() && a != b implies all[a]
            != all[b] by {
            if a < head.len() && b < head.len() {
                assert(head[a] == all[a] && head[b] == all[b]);
            } else if a >= head.len() && b >= head.len() {
                assert(last.cells[a - head.len()] == all[a]);
                assert(last.cells[b - head.len()] == all[b]);
                assert(ships[n].cells.no_duplicates());
            } else {
                let lo = if a < b { a } else { b };
                let hi = if a < b { b } else { a };
                assert(head[lo] == all[lo]);
                assert(head.contains(all[lo]));
                let i = choose|i: int|
                    0 <= i < front.len() && (#[trigger] front[i]).cells.contains(all[lo]);
                assert(ships[i].cells.contains(all[lo]));
                assert(last.cells[hi - head.len()] == all[hi]);
                assert(ships[n].cells.contains(all[hi]));
            }
        }
    }
}

impl GridView {
    /// Placing a ship on free cells, under a new name, goes on from a board
    /// in placement to a board in placement, with the ship's cells taken
    /// from the available ones.
    pub proof fn lemma_placing_goes_on(
        self,
        points: Seq<(usize, usize)>,
        name: Seq<char>,
        cells: Seq<(usize, usize)>,
    )
        requires
            self.placing(points),
            self.can_hold(cells),
            !self.has_name(name),
        ensures
            self.with_ship(name, cells).placing(without_cells(points, cells)),
    {
        let after = self.with_ship(name, cells);
        let left = without_cells(points, cells);
        let n = self.ships.len() as int;
        self.lemma_with_ship_wf(name, cells);
        self.lemma_with_ship_intact(name, cells);
        self.lemma_with_ship_offers(points, name, cells);
        lemma_without_cells(points, cells);
        assert(after.ships[n].cells == cells);
        assert forall|i: int| 0 <= i < n implies #[trigger] after.ships[i] == self.ships[i] by {}
        assert forall|q: (usize, usize)| cell_on_board(q) implies #[trigger] after.state(q) == (
        if cells.contains(q) {
            CoordState::Ship
        } else {
            self.state(q)
        }) by {
            assert(self.states[q.0 as int].len() == 10);
        }
        assert forall|p: (usize, usize)| cell_on_board(p) implies !#[trigger] after.already_shot(
            p,
        ) by {
            assert(!self.already_shot(p));
        }
        assert forall|p: (usize, usize)| #[trigger] after.occupied(p) implies after.state(p)
            == CoordState::Ship by {
            let i = after.ship_at(p);
            assert(after.ships[i].cells.contains(p));
            let k = after.ships[i].cells.index_of(p);
            assert(cell_on_board(after.ships[i].cells[k]));
            if i < n {
                assert(self.ships[i].cells.contains(p));
                assert(self.occupied(p));
            }
        }
        assert forall|p: (usize, usize)| #[trigger] after.free(p) implies left.contains(p) by {
            assert(!cells.contains(p));
            assert(self.state(p) == CoordState::Blank);
            if self.occupied(p) {
                let i = self.ship_at(p);
                assert(self.ships[i].cells.contains(p));
                assert(after.ships[i].cells.contains(p));
                assert(after.occupied(p));
            }
            assert(self.free(p));
        }
    }

    /// The count of placed cells. On a board in placement the cells that
    /// show a ship are as many as the ships' lengths add up to, and with the
    /// cells still available they make up the hundred cells of the board.
    pub proof fn lemma_placing_counts(self, points: Seq<(usize, usize)>)
        requires
            self.placing(points),
        ensures
            self.shown_cells().len() == total_length(self.ships),
            self.shown_cells().len() + points.len() == 100,
    {
        let all = all_cells();
        let taken = cells_of(self.ships);
        let shown = self.shown_cells();
        lemma_fresh_offers_all();
        self.lemma_placement_exclusive();
        lemma_filter_cells(all, self.shows_ship());
        assert forall|p: (usize, usize)| taken.contains(p) implies cell_on_board(p) by {
            assert(self.occupied(p));
            let i = self.ship_at(p);
            assert(self.ships[i].cells.contains(p));
            let k = self.ships[i].cells.index_of(p);
            assert(cell_on_board(self.ships[i].cells[k]));
        }
        assert(shown.to_set() =~= taken.to_set()) by {
            assert forall|p: (usize, usize)| shown.contains(p) <==> taken.contains(p) by {
                if shown.contains(p) {
                    assert(all.contains(p) && self.state(p) == CoordState::Ship);
                    assert(self.occupied(p));
                }
                if taken.contains(p) {
                    assert(self.occupied(p));
                    assert(all.contains(p));
                }
            }
        }
        shown.unique_seq_to_set();
        taken.unique_seq_to_set();
        let both = points + taken;
        assert(both.no_duplicates()) by {
            assert forall|i: int, j: int|
                0 <= i < points.len() && 0 <= j < taken.len() implies points[i] != taken[j] by {
                assert(self.free(points[i]));
                assert(taken.contains(taken[j]));
            }
            vstd::seq_lib::lemma_no_dup_in_concat(points, taken);
        }
        assert(both.to_set() =~= all.to_set()) by {
            assert forall|p: (usize, usize)| both.contains(p) <==> all.contains(p) by {
                if both.contains(p) {
                    let m = choose|m: int| 0 <= m < both.len() && both[m] == p;
                    if m < points.len() {
                        assert(self.free(points[m]));
                    } else {
                        assert(taken[m - points.len()] == p);
                        assert(taken.contains(p));
                    }
                }
                if all.contains(p) {
                    assert(cell_on_board(p));
                    if self.occupied(p) {
                        assert(taken.contains(p));
                        let m = choose|m: int| 0 <= m < taken.len() && taken[m] == p;
                        assert(both[points.len() + m] == p);
                    } else {
                        assert(!self.already_shot(p));
                        assert(self.free(p));
                        assert(points.contains(p));
                        let m = choose|m: int| 0 <= m < points.len() && points[m] == p;
                        assert(both[m] == p);
                    }
                }
            }
        }
        both.unique_seq_to_set();
        all.unique_seq_to_set();
    }
}

} // verus!
