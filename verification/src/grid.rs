//! The board: a 10x10 grid of cells and the registry of the ships that are
//! still afloat, with the rules for shooting at it.

use crate::coord::{cell_of, get_coord_index, valid_coord, CoordState, Coordinate, BOARD_SIZE};
use crate::shot::{report_of, ShotOutcome};
use vstd::prelude::*;

verus! {

/// A ship on a board: its name, the length it was placed with, and the cells
/// it still occupies, in the order they were placed.
#[derive(Clone, Debug)]
pub struct Ship {
    pub name: String,
    pub length: usize,
    pub cells: Vec<(usize, usize)>,
}

/// The game board and the ships afloat on it.
#[derive(Clone, Debug)]
pub struct Grid {
    pub grid: Vec<Vec<Coordinate>>,
    pub ships: Vec<Ship>,
}

/// A ship as a mathematical value.
pub struct ShipView {
    pub name: Seq<char>,
    pub length: nat,
    pub cells: Seq<(usize, usize)>,
}

/// A board as a mathematical value: the state of each cell, row by row, and
/// the registry of ships.
pub struct GridView {
    pub states: Seq<Seq<CoordState>>,
    pub ships: Seq<ShipView>,
}

impl View for Ship {
    type V = ShipView;

    open spec fn view(&self) -> ShipView {
        ShipView { name: self.name@, length: self.length as nat, cells: self.cells@ }
    }
}

impl View for Grid {
    type V = GridView;

    open spec fn view(&self) -> GridView {
        GridView {
            states: Seq::new(
                self.grid@.len(),
                |r: int| Seq::new(self.grid@[r]@.len(), |c: int| self.grid@[r]@[c].state),
            ),
            ships: Seq::new(self.ships@.len(), |i: int| self.ships@[i]@),
        }
    }
}

/// A zero-based (row, column) pair lies on the board.
pub open spec fn cell_on_board(p: (usize, usize)) -> bool {
    p.0 < 10 && p.1 < 10
}

impl ShipView {
    /// A registered ship still has a cell, never more cells than its length,
    /// and no cell twice.
    pub open spec fn sound(self) -> bool {
        &&& 0 < self.cells.len() <= self.length
        &&& self.cells.no_duplicates()
    }

    /// The ship without its cell `p`.
    pub open spec fn without(self, p: (usize, usize)) -> ShipView {
        ShipView { cells: self.cells.remove(self.cells.index_of(p)), ..self }
    }
}

impl GridView {
    /// The board before anything is placed: every cell blank, no ship.
    pub open spec fn fresh() -> GridView {
        GridView {
            states: Seq::new(10, |r: int| Seq::new(10, |c: int| CoordState::Blank)),
            ships: Seq::empty(),
        }
    }

    /// Ten rows of ten cells.
    pub open spec fn shaped(self) -> bool {
        &&& self.states.len() == 10
        &&& forall|r: int| 0 <= r < 10 ==> (#[trigger] self.states[r]).len() == 10
    }

    /// The state of a cell.
    pub open spec fn state(self, p: (usize, usize)) -> CoordState {
        self.states[p.0 as int][p.1 as int]
    }

    /// The cell was fired upon before.
    pub open spec fn already_shot(self, p: (usize, usize)) -> bool {
        self.state(p) == CoordState::Hit || self.state(p) == CoordState::Miss
    }

    /// Some ship afloat occupies the cell.
    pub open spec fn occupied(self, p: (usize, usize)) -> bool {
        exists|i: int| 0 <= i < self.ships.len() && (#[trigger] self.ships[i]).cells.contains(p)
    }

    /// The registry index of the ship that occupies the cell.
    pub open spec fn ship_at(self, p: (usize, usize)) -> int {
        choose|i: int| 0 <= i < self.ships.len() && (#[trigger] self.ships[i]).cells.contains(p)
    }

    /// A ship of that name is registered.
    pub open spec fn has_name(self, name: Seq<char>) -> bool {
        exists|i: int| 0 <= i < self.ships.len() && (#[trigger] self.ships[i]).name == name
    }

    /// No cell belongs to two ships.
    pub open spec fn exclusive(self) -> bool {
        forall|i: int, j: int, p: (usize, usize)|
            0 <= i < self.ships.len() && 0 <= j < self.ships.len() && i != j
                && #[trigger] self.ships[i].cells.contains(p)
                ==> !#[trigger] self.ships[j].cells.contains(p)
    }

    /// Every ship is shown: each cell of a ship lies on the board and shows
    /// a ship.
    pub open spec fn all_shown(self) -> bool {
        forall|i: int, k: int|
            0 <= i < self.ships.len() && 0 <= k < self.ships[i].cells.len() ==> {
                &&& cell_on_board(#[trigger] self.ships[i].cells[k])
                &&& self.state(self.ships[i].cells[k]) == CoordState::Ship
            }
    }

    /// The invariant of a board. It has ten rows of ten cells. Every
    /// registered ship has a cell left, no more cells than its length and no
    /// cell twice. The cells of the ships lie on the board and show a ship,
    /// so none of them was fired upon. No cell belongs to two ships, every
    /// cell that shows a ship belongs to one, and no two ships share a name.
    pub open spec fn wf(self) -> bool {
        &&& self.shaped()
        &&& forall|i: int| 0 <= i < self.ships.len() ==> (#[trigger] self.ships[i]).sound()
        &&& self.all_shown()
        &&& self.exclusive()
        &&& forall|p: (usize, usize)|
            cell_on_board(p) && #[trigger] self.state(p) == CoordState::Ship ==> self.occupied(p)
        &&& forall|i: int, j: int|
            0 <= i < j < self.ships.len() ==> (#[trigger] self.ships[i]).name != (
            #[trigger] self.ships[j]).name
    }

    /// The board with the state of one cell replaced.
    pub open spec fn with_state(self, p: (usize, usize), s: CoordState) -> GridView {
        GridView {
            states: self.states.update(p.0 as int, self.states[p.0 as int].update(p.1 as int, s)),
            ..self
        }
    }

    /// What a shot at cell `p` comes to. A cell fired upon before is already
    /// shot. A cell that no ship occupies is a miss. Otherwise it is a hit:
    /// plain while the ship keeps another cell, sinking when it was the
    /// ship's last, and the end of the game when that ship was the last
    /// afloat.
    pub open spec fn shot_outcome(self, p: (usize, usize)) -> ShotOutcome {
        if self.already_shot(p) {
            ShotOutcome::AlreadyShot
        } else if !self.occupied(p) {
            ShotOutcome::Miss
        } else {
            let ship = self.ships[self.ship_at(p)];
            if ship.cells.len() > 1 {
                ShotOutcome::Hit
            } else if self.ships.len() > 1 {
                ShotOutcome::HitSunk(ship.length as usize)
            } else {
                ShotOutcome::HitSunkGameOver(ship.length as usize)
            }
        }
    }

    /// The board after a shot at cell `p`. A cell fired upon before changes
    /// nothing. A miss marks the cell. A hit marks the cell and takes it from
    /// the ship that held it; a ship left without cells leaves the registry.
    pub open spec fn after_shot(self, p: (usize, usize)) -> GridView {
        if self.already_shot(p) {
            self
        } else if !self.occupied(p) {
            self.with_state(p, CoordState::Miss)
        } else {
            let i = self.ship_at(p);
            let rest = self.ships[i].without(p);
            GridView {
                states: self.with_state(p, CoordState::Hit).states,
                ships: if rest.cells.len() == 0 {
                    self.ships.remove(i)
                } else {
                    self.ships.update(i, rest)
                },
            }
        }
    }
}

/// In a sequence without duplicates, taking out the element at `k` leaves
/// exactly the other elements, still without duplicates.
pub proof fn lemma_remove_no_duplicates<A>(s: Seq<A>, k: int)
    requires
        s.no_duplicates(),
        0 <= k < s.len(),
    ensures
        s.remove(k).no_duplicates(),
        s.remove(k).len() == s.len() - 1,
        !s.remove(k).contains(s[k]),
        forall|q: A| q != s[k] && s.contains(q) ==> #[trigger] s.remove(k).contains(q),
        forall|q: A| #[trigger] s.remove(k).contains(q) ==> s.contains(q),
{
    let t = s.remove(k);
    s.remove_ensures(k);
    assert forall|q: A| q != s[k] && s.contains(q) implies #[trigger] t.contains(q) by {
        let m = choose|m: int| 0 <= m < s.len() && s[m] == q;
        if m < k {
            assert(t[m] == q);
        } else {
            assert(t[m - 1] == q);
        }
    }
    assert forall|q: A| #[trigger] t.contains(q) implies s.contains(q) by {
        let m = choose|m: int| 0 <= m < t.len() && t[m] == q;
        if m < k {
            assert(s[m] == q);
        } else {
            assert(s[m + 1] == q);
        }
    }
    if t.contains(s[k]) {
        let m = choose|m: int| 0 <= m < t.len() && t[m] == s[k];
        if m < k {
            assert(s[m] == s[k]);
        } else {
            assert(s[m + 1] == s[k]);
        }
    }
}

impl GridView {
    /// On a well-formed board the ship that occupies a cell is the only one
    /// that holds it, and holds it at one place.
    pub proof fn lemma_ship_at(self, i: int, k: int)
        requires
            self.wf(),
            0 <= i < self.ships.len(),
            0 <= k < self.ships[i].cells.len(),
        ensures
            self.occupied(self.ships[i].cells[k]),
            self.ship_at(self.ships[i].cells[k]) == i,
            self.ships[i].cells.index_of(self.ships[i].cells[k]) == k,
    {
        let p = self.ships[i].cells[k];
        assert(self.ships[i].cells.contains(p));
        let j = self.ship_at(p);
        assert(self.ships[j].cells.contains(p));
        assert(self.ships[i].sound());
    }

    /// A shot keeps a well-formed board well-formed.
    pub proof fn lemma_after_shot_wf(self, p: (usize, usize))
        requires
            self.wf(),
            cell_on_board(p),
        ensures
            self.after_shot(p).wf(),
    {
        let after = self.after_shot(p);
        if self.already_shot(p) {
        } else if !self.occupied(p) {
            assert(after.ships == self.ships);
            assert forall|q: (usize, usize)| cell_on_board(q) implies (#[trigger] after.state(q)
                == if q == p {
                CoordState::Miss
            } else {
                self.state(q)
            }) by {}
            assert forall|i: int, k: int|
                0 <= i < after.ships.len() && 0 <= k < after.ships[i].cells.len() implies {
                &&& cell_on_board(#[trigger] after.ships[i].cells[k])
                &&& after.state(after.ships[i].cells[k]) == CoordState::Ship
            } by {
                let q = self.ships[i].cells[k];
                assert(self.ships[i].cells.contains(q));
                assert(q != p);
                assert(after.state(q) == self.state(q));
            }
            assert forall|q: (usize, usize)|
                cell_on_board(q) && #[trigger] after.state(q)
                    == CoordState::Ship implies after.occupied(q) by {
                assert(self.state(q) == CoordState::Ship);
                assert(self.occupied(q));
            }
            assert(after.shaped());
            assert(after.exclusive());
        } else {
            let i = self.ship_at(p);
            let ship = self.ships[i];
            assert(ship.sound());
            let k = ship.cells.index_of(p);
            assert(ship.cells.contains(p));
            let rest = ship.without(p);
            lemma_remove_no_duplicates(ship.cells, k);
            assert forall|q: (usize, usize)| cell_on_board(q) implies (#[trigger] after.state(q)
                == if q == p {
                CoordState::Hit
            } else {
                self.state(q)
            }) by {}
            assert(after.shaped());
            if rest.cells.len() == 0 {
                assert(after.ships == self.ships.remove(i));
                assert forall|j: int| 0 <= j < after.ships.len() implies #[trigger] after.ships[j]
                    == self.ships[if j < i {
                    j
                } else {
                    j + 1
                }] by {}
                assert forall|j: int| 0 <= j < after.ships.len() implies (
                #[trigger] after.ships[j]).sound() by {
                    let j0 = if j < i { j } else { j + 1 };
                    assert(self.ships[j0].sound());
                }
                assert forall|j: int, m: int|
                    0 <= j < after.ships.len() && 0 <= m < after.ships[j].cells.len() implies {
                    &&& cell_on_board(#[trigger] after.ships[j].cells[m])
                    &&& after.state(after.ships[j].cells[m]) == CoordState::Ship
                } by {
                    let j0 = if j < i { j } else { j + 1 };
                    let q = self.ships[j0].cells[m];
                    assert(self.ships[j0].cells.contains(q));
                    assert(cell_on_board(q) && self.state(q) == CoordState::Ship);
                    assert(q != p);
                }
                assert forall|a: int, b: int, q: (usize, usize)|
                    0 <= a < after.ships.len() && 0 <= b < after.ships.len() && a != b
                        && #[trigger] after.ships[a].cells.contains(
                        q,
                    ) implies !#[trigger] after.ships[b].cells.contains(q) by {
                    let a0 = if a < i { a } else { a + 1 };
                    let b0 = if b < i { b } else { b + 1 };
                    assert(self.ships[a0].cells.contains(q));
                    if self.ships[b0].cells.contains(q) {
                        assert(false);
                    }
                }
                assert forall|q: (usize, usize)|
                    cell_on_board(q) && #[trigger] after.state(q)
                        == CoordState::Ship implies after.occupied(q) by {
                    assert(q != p);
                    assert(self.occupied(q));
                    let j0 = self.ship_at(q);
                    assert(self.ships[j0].cells.contains(q));
                    if j0 == i {
                        assert(rest.cells.contains(q));
                        assert(false);
                    }
                    let j = if j0 < i { j0 } else { j0 - 1 };
                    assert(after.ships[j] == self.ships[j0]);
                    assert(after.ships[j].cells.contains(q));
                }
                assert forall|a: int, b: int| 0 <= a < b < after.ships.len() implies (
                #[trigger] after.ships[a]).name != (#[trigger] after.ships[b]).name by {
                    let a0 = if a < i { a } else { a + 1 };
                    let b0 = if b < i { b } else { b + 1 };
                    assert(self.ships[a0].name != self.ships[b0].name);
                }
            } else {
                assert(after.ships == self.ships.update(i, rest));
                assert forall|j: int| 0 <= j < after.ships.len() implies (
                #[trigger] after.ships[j]).sound() by {
                    if j != i {
                        assert(self.ships[j].sound());
                    }
                }
                assert forall|j: int, m: int|
                    0 <= j < after.ships.len() && 0 <= m < after.ships[j].cells.len() implies {
                    &&& cell_on_board(#[trigger] after.ships[j].cells[m])
                    &&& after.state(after.ships[j].cells[m]) == CoordState::Ship
                } by {
                    let q = after.ships[j].cells[m];
                    assert(after.ships[j].cells.contains(q));
                    assert(self.ships[j].cells.contains(q));
                    let m0 = self.ships[j].cells.index_of(q);
                    assert(self.ships[j].cells[m0] == q);
                    assert(cell_on_board(q) && self.state(q) == CoordState::Ship);
                    if j != i {
                        assert(self.ships[i].cells.contains(p));
                        assert(q != p);
                    }
                }
                assert forall|a: int, b: int, q: (usize, usize)|
                    0 <= a < after.ships.len() && 0 <= b < after.ships.len() && a != b
                        && #[trigger] after.ships[a].cells.contains(
                        q,
                    ) implies !#[trigger] after.ships[b].cells.contains(q) by {
                    assert(self.ships[a].cells.contains(q));
                    if after.ships[b].cells.contains(q) {
                        assert(self.ships[b].cells.contains(q));
                        assert(false);
                    }
                }
                assert forall|q: (usize, usize)|
                    cell_on_board(q) && #[trigger] after.state(q)
                        == CoordState::Ship implies after.occupied(q) by {
                    assert(q != p);
                    assert(self.occupied(q));
                    let j0 = self.ship_at(q);
                    assert(self.ships[j0].cells.contains(q));
                    assert(after.ships[j0].cells.contains(q));
                }
                assert forall|a: int, b: int| 0 <= a < b < after.ships.len() implies (
                #[trigger] after.ships[a]).name != (#[trigger] after.ships[b]).name by {
                    assert(self.ships[a].name != self.ships[b].name);
                }
            }
        }
    }

    /// A shot changes the state of no cell but the one fired at, and that
    /// one only from blank to miss or from ship to hit. A cell once shot
    /// keeps its state, and no cell becomes blank or comes to show a ship.
    pub proof fn lemma_shot_marks_one_cell(self, p: (usize, usize), q: (usize, usize))
        requires
            self.wf(),
            cell_on_board(p),
            cell_on_board(q),
        ensures
            q != p ==> self.after_shot(p).state(q) == self.state(q),
            self.after_shot(p).state(p) == (match self.state(p) {
                CoordState::Blank => CoordState::Miss,
                CoordState::Ship => CoordState::Hit,
                CoordState::Hit => CoordState::Hit,
                CoordState::Miss => CoordState::Miss,
            }),
            self.occupied(p) <==> self.state(p) == CoordState::Ship,
    {
        if self.occupied(p) {
            let i = self.ship_at(p);
            assert(self.ships[i].cells.contains(p));
            let k = self.ships[i].cells.index_of(p);
            assert(self.state(self.ships[i].cells[k]) == CoordState::Ship);
        }
    }

    /// A shot adds no ship and no cell to a ship: every ship afloat after the
    /// shot was afloat before, under its name and with its length, and holds
    /// only cells that it held before.
    pub proof fn lemma_shot_only_shrinks(self, p: (usize, usize), j: int)
        requires
            self.wf(),
            cell_on_board(p),
            0 <= j < self.after_shot(p).ships.len(),
        ensures
            exists|i: int|
                {
                    &&& 0 <= i < self.ships.len()
                    &&& (#[trigger] self.ships[i]).name == self.after_shot(p).ships[j].name
                    &&& self.ships[i].length == self.after_shot(p).ships[j].length
                    &&& forall|k: int|
                        0 <= k < self.after_shot(p).ships[j].cells.len()
                            ==> self.ships[i].cells.contains(
                            #[trigger] self.after_shot(p).ships[j].cells[k],
                        )
                },
    {
        let after = self.after_shot(p);
        if !self.already_shot(p) && self.occupied(p) {
            let i = self.ship_at(p);
            let ship = self.ships[i];
            assert(ship.sound());
            assert(ship.cells.contains(p));
            let at = ship.cells.index_of(p);
            lemma_remove_no_duplicates(ship.cells, at);
            let rest = ship.without(p);
            if rest.cells.len() == 0 {
                let i0 = if j < i { j } else { j + 1 };
                assert(after.ships[j] == self.ships[i0]);
                assert forall|k: int| 0 <= k < after.ships[j].cells.len() implies self.ships[i0].cells.contains(
                    #[trigger] after.ships[j].cells[k],
                ) by {}
            } else {
                assert forall|k: int| 0 <= k < after.ships[j].cells.len() implies self.ships[j].cells.contains(
                    #[trigger] after.ships[j].cells[k],
                ) by {
                    assert(after.ships[j].cells.contains(after.ships[j].cells[k]));
                }
            }
        } else {
            assert(after.ships == self.ships);
            assert forall|k: int| 0 <= k < after.ships[j].cells.len() implies self.ships[j].cells.contains(
                #[trigger] after.ships[j].cells[k],
            ) by {}
        }
    }

    /// A shot takes a ship off the registry only when it hits the ship's last
    /// cell: every ship afloat before the shot is afloat after it, under its
    /// name, unless the cell fired at was the only one it had left.
    pub proof fn lemma_shot_removes_only_the_sunk(self, p: (usize, usize), i: int)
        requires
            self.wf(),
            cell_on_board(p),
            0 <= i < self.ships.len(),
        ensures
            self.after_shot(p).has_name(self.ships[i].name) || (self.ships[i].cells.len() == 1
                && self.ships[i].cells[0] == p && !self.already_shot(p)),
    {
        let after = self.after_shot(p);
        if !self.already_shot(p) && self.occupied(p) {
            let at = self.ship_at(p);
            let ship = self.ships[at];
            assert(ship.sound());
            assert(ship.cells.contains(p));
            let k = ship.cells.index_of(p);
            lemma_remove_no_duplicates(ship.cells, k);
            if ship.without(p).cells.len() == 0 {
                if i != at {
                    let j = if i < at { i } else { i - 1 };
                    assert(after.ships[j] == self.ships[i]);
                }
            } else {
                assert(after.ships[i].name == self.ships[i].name);
            }
        } else {
            assert(after.ships[i] == self.ships[i]);
        }
    }

    /// A shot is reported as the end of the game exactly when it empties the
    /// registry of a board that had a ship afloat.
    pub proof fn lemma_game_over_when_registry_empties(self, p: (usize, usize))
        requires
            self.wf(),
            cell_on_board(p),
        ensures
            self.shot_outcome(p) is HitSunkGameOver <==> self.ships.len() > 0 && self.after_shot(
                p,
            ).ships.len() == 0,
    {
        if !self.already_shot(p) && self.occupied(p) {
            let i = self.ship_at(p);
            let ship = self.ships[i];
            assert(ship.sound());
            assert(ship.cells.contains(p));
            lemma_remove_no_duplicates(ship.cells, ship.cells.index_of(p));
        }
    }

    /// Firing again at the same cell is answered with `AlreadyShot` and
    /// changes nothing: neither a cell's state nor the registry.
    pub proof fn lemma_reshoot(self, p: (usize, usize))
        requires
            self.wf(),
            cell_on_board(p),
        ensures
            self.after_shot(p).shot_outcome(p) == ShotOutcome::AlreadyShot,
            self.after_shot(p).after_shot(p) == self.after_shot(p),
    {
    }
}

impl Grid {
    /// The board's invariant, as `GridView::wf` states it.
    pub open spec fn wf(&self) -> bool {
        self@.wf()
    }

    /// A board of blank cells with no ship on it.
    pub fn new() -> (g: Self)
        ensures
            g@ == GridView::fresh(),
            g.wf(),
    {
        let mut new_grid: Vec<Vec<Coordinate>> = Vec::new();
        let mut i: usize = 0;
        while i < BOARD_SIZE
            invariant
                i <= 10,
                new_grid@.len() == i,
                forall|r: int|
                    0 <= r < i ==> {
                        &&& (#[trigger] new_grid@[r])@.len() == 10
                        &&& forall|c: int|
                            0 <= c < 10 ==> (#[trigger] new_grid@[r]@[c]).state
                                == CoordState::Blank
                    },
            decreases 10 - i,
        {
            let mut new_row: Vec<Coordinate> = Vec::new();
            let mut j: usize = 0;
            while j < BOARD_SIZE
                invariant
                    j <= 10,
                    new_row@.len() == j,
                    forall|c: int|
                        0 <= c < j ==> (#[trigger] new_row@[c]).state == CoordState::Blank,
                decreases 10 - j,
            {
                new_row.push(Coordinate::new());
                j += 1;
            }
            new_grid.push(new_row);
            i += 1;
        }
        let g = Self { grid: new_grid, ships: Vec::new() };
        proof {
            assert(g@.states =~~= GridView::fresh().states);
            assert(g@.ships =~= GridView::fresh().ships);
        }
        g
    }

    /// Sets the state of the cell at a zero-based (row, column) pair.
    pub(crate) fn set_state(&mut self, r: usize, c: usize, new_state: CoordState)
        requires
            old(self)@.shaped(),
            r < 10,
            c < 10,
        ensures
            final(self)@ == old(self)@.with_state((r, c), new_state),
            final(self).ships == old(self).ships,
    {
        proof {
            assert(self@.states[r as int].len() == 10);
        }
        self.grid[r][c].state = new_state;
        proof {
            assert(self@.states =~~= old(self)@.with_state((r, c), new_state).states);
            assert(self@.ships =~= old(self)@.ships);
        }
    }

    /// Sets the state of the cell that a row number (1 to 10) and a column
    /// letter (A to J) name, whatever it was before. The ships stay as they
    /// are, so the board's invariant is the caller's to keep.
    pub fn update_coord_state(&mut self, row: i32, column: char, new_state: CoordState)
        requires
            old(self)@.shaped(),
            valid_coord(row as int, column),
        ensures
            final(self)@ == old(self)@.with_state(cell_of(row as int, column), new_state),
    {
        match get_coord_index(row, column) {
            Ok((r_idx, c_idx)) => self.set_state(r_idx, c_idx, new_state),
            Err(_) => {},
        }
    }

    /// The place in the registry of the first ship of that name, if there is
    /// one.
    pub fn ship_index(&self, name: &String) -> (res: Option<usize>)
        ensures
            match res {
                Some(i) => {
                    &&& i < self@.ships.len()
                    &&& self@.ships[i as int].name == name@
                    &&& forall|j: int| 0 <= j < i ==> (#[trigger] self@.ships[j]).name != name@
                },
                None => !self@.has_name(name@),
            },
    {
        let mut i: usize = 0;
        while i < self.ships.len()
            invariant
                i <= self.ships@.len(),
                forall|j: int| 0 <= j < i ==> (#[trigger] self@.ships[j]).name != name@,
            decreases self.ships@.len() - i,
        {
            if self.ships[i].name == *name {
                assert(self@.ships[i as int].name == name@);
                return Some(i);
            }
            i += 1;
        }
        None
    }

    /// Whether the board has a ship of that name.
    pub fn has_ship(&self, name: &String) -> (found: bool)
        ensures
            found == self@.has_name(name@),
    {
        self.ship_index(name).is_some()
    }

    /// Looks for the ship that occupies a cell: its place in the registry and
    /// the cell's place among the ship's cells.
    fn find_ship(&self, r: usize, c: usize) -> (res: Option<(usize, usize)>)
        ensures
            match res {
                Some((i, k)) => {
                    &&& i < self.ships@.len()
                    &&& k < self.ships@[i as int].cells@.len()
                    &&& self.ships@[i as int].cells@[k as int] == (r, c)
                },
                None => !self@.occupied((r, c)),
            },
    {
        let mut i: usize = 0;
        while i < self.ships.len()
            invariant
                i <= self.ships@.len(),
                forall|j: int| 0 <= j < i ==> !(#[trigger] self@.ships[j]).cells.contains((r, c)),
            decreases self.ships@.len() - i,
        {
            let mut k: usize = 0;
            while k < self.ships[i].cells.len()
                invariant
                    i < self.ships@.len(),
                    k <= self.ships@[i as int].cells@.len(),
                    forall|m: int| 0 <= m < k ==> self.ships@[i as int].cells@[m] != (r, c),
                decreases self.ships@[i as int].cells@.len() - k,
            {
                let cell = self.ships[i].cells[k];
                if cell.0 == r && cell.1 == c {
                    return Some((i, k));
                }
                k += 1;
            }
            i += 1;
        }
        None
    }

    /// Resolves a shot at the cell at a zero-based (row, column) pair.
    pub fn resolve_shot(&mut self, r: usize, c: usize) -> (outcome: ShotOutcome)
        requires
            old(self).wf(),
            r < 10,
            c < 10,
        ensures
            outcome == old(self)@.shot_outcome((r, c)),
            final(self)@ == old(self)@.after_shot((r, c)),
            final(self).wf(),
    {
        proof {
            old(self)@.lemma_after_shot_wf((r, c));
        }
        let state = self.grid[r][c].state;
        if state == CoordState::Hit || state == CoordState::Miss {
            return ShotOutcome::AlreadyShot;
        }
        match self.find_ship(r, c) {
            None => {
                self.set_state(r, c, CoordState::Miss);
                ShotOutcome::Miss
            },
            Some((i, k)) => {
                proof {
                    old(self)@.lemma_ship_at(i as int, k as int);
                }
                self.set_state(r, c, CoordState::Hit);
                let mut ship = self.ships.remove(i);
                ship.cells.remove(k);
                let outcome = if ship.cells.len() > 0 {
                    self.ships.insert(i, ship);
                    ShotOutcome::Hit
                } else if self.ships.len() > 0 {
                    ShotOutcome::HitSunk(ship.length)
                } else {
                    ShotOutcome::HitSunkGameOver(ship.length)
                };
                proof {
                    assert(self@.ships =~= old(self)@.after_shot((r, c)).ships);
                    assert(self@.states =~~= old(self)@.after_shot((r, c)).states);
                }
                outcome
            },
        }
    }

    /// Resolves a shot at the cell that a row number (1 to 10) and a column
    /// letter (A to J) name, and reports the outcome.
    pub fn guess(&mut self, row: i32, column: char) -> (report: (char, (char, usize)))
        requires
            old(self).wf(),
            valid_coord(row as int, column),
        ensures
            report == report_of(old(self)@.shot_outcome(cell_of(row as int, column))),
            final(self)@ == old(self)@.after_shot(cell_of(row as int, column)),
            final(self).wf(),
    {
        match get_coord_index(row, column) {
            Ok((r_idx, c_idx)) => self.resolve_shot(r_idx, c_idx).report(),
            Err(_) => ShotOutcome::AlreadyShot.report(),
        }
    }
}

impl Default for Grid {
    fn default() -> (g: Self)
        ensures
            g@ == GridView::fresh(),
            g.wf(),
    {
        Self::new()
    }
}

} // verus!
