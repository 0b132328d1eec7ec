//! The targeting engine of the automated player: what it still may fire at,
//! what a run of hits makes it fire at next, and how each outcome changes
//! that. A point is a column letter and a row number.

use crate::coord::{
    column_index, column_letter, column_to_index, get_coord_index, get_index_coord,
    index_to_column, on_board, valid_coord,
};
use crate::grid::lemma_remove_no_duplicates;
use crate::random::{random_below, random_bool};
use crate::shot::{outcome_of, ShotOutcome};
use vstd::prelude::*;

verus! {

/// While fewer shots than this were taken, the hard engine searches on its
/// parity only.
pub const PARITY_SHOTS: i32 = 50;

/// How many random draws a parity search makes before it goes through the
/// untried points in their order.
pub const PARITY_ATTEMPTS: usize = 1000;

/// What the automated player knows when it picks a shot.
///
/// `points` are the points not yet fired upon. `reasonable_guesses` are the
/// points to fire at first after a hit, `next_guesses` those that a later hit
/// made less likely. `num_hits` counts the hits that no sunk ship accounts
/// for yet, `last_hit` is the point of the last shot on record, whatever it
/// came to. `guess_version` picks the checkerboard colour of the hard search,
/// `difficult` switches that search on, and `guess_count` counts the shots.
pub struct PossibleGuesses {
    pub points: Vec<(char, i32)>,
    pub reasonable_guesses: Vec<(char, i32)>,
    pub next_guesses: Vec<(char, i32)>,
    pub num_hits: i32,
    pub last_hit: (char, i32),
    pub guess_version: bool,
    pub difficult: bool,
    pub guess_count: i32,
}

/// The engine as a mathematical value.
pub struct TargetingState {
    /// The points not yet fired upon.
    pub untried: Seq<(char, i32)>,
    /// The candidates to fire at first.
    pub primary: Seq<(char, i32)>,
    /// The candidates to fire at when the primary ones are used up.
    pub secondary: Seq<(char, i32)>,
    /// The hits that no sunk ship accounts for yet.
    pub streak: int,
    /// The point of the last shot on record.
    pub last_hit: (char, i32),
    /// The parity that the hard search keeps to.
    pub parity: bool,
    /// Whether the search is the hard one.
    pub hard: bool,
    /// The shots taken.
    pub shots: int,
}

impl View for PossibleGuesses {
    type V = TargetingState;

    open spec fn view(&self) -> TargetingState {
        TargetingState {
            untried: self.points@,
            primary: self.reasonable_guesses@,
            secondary: self.next_guesses@,
            streak: self.num_hits as int,
            last_hit: self.last_hit,
            parity: self.guess_version,
            hard: self.difficult,
            shots: self.guess_count as int,
        }
    }
}

/// The point names a cell of the board.
pub open spec fn valid_point(p: (char, i32)) -> bool {
    valid_coord(p.1 as int, p.0)
}

/// Every point of the sequence names a cell of the board.
pub open spec fn all_valid(points: Seq<(char, i32)>) -> bool {
    forall|k: int| 0 <= k < points.len() ==> valid_point(#[trigger] points[k])
}

/// All hundred points, column by column: A1 to A10, then B1 to B10, and so
/// on to J10.
pub open spec fn all_points() -> Seq<(char, i32)> {
    Seq::new(100, |k: int| (column_letter(k / 10), (k % 10 + 1) as i32))
}

/// The point `dcol` columns and `drow` rows away from `p`, if both are
/// points of the board.
pub open spec fn step(p: (char, i32), dcol: int, drow: int) -> Option<(char, i32)> {
    if valid_point(p) && on_board(p.1 - 1 + drow, column_index(p.0) + dcol) {
        Some((column_letter(column_index(p.0) + dcol), (p.1 + drow) as i32))
    } else {
        None
    }
}

/// The point lies on the checkerboard colour that `parity` picks: the sum of
/// its zero-based row and column is odd for `true`, even for `false`.
pub open spec fn on_parity(p: (char, i32), parity: bool) -> bool {
    (column_index(p.0) + p.1 - 1) % 2 == (if parity { 1int } else { 0int })
}

/// The test that keeps the points of a column.
pub open spec fn on_column(col: char) -> spec_fn((char, i32)) -> bool {
    |q: (char, i32)| q.0 == col
}

/// The test that keeps the points off a column.
pub open spec fn off_column(col: char) -> spec_fn((char, i32)) -> bool {
    |q: (char, i32)| q.0 != col
}

/// The test that keeps the points of a row.
pub open spec fn on_row(row: i32) -> spec_fn((char, i32)) -> bool {
    |q: (char, i32)| q.1 == row
}

/// The test that keeps the points off a row.
pub open spec fn off_row(row: i32) -> spec_fn((char, i32)) -> bool {
    |q: (char, i32)| q.1 != row
}

/// The untried points without `p`.
pub open spec fn drop_point(untried: Seq<(char, i32)>, p: (char, i32)) -> Seq<(char, i32)> {
    if untried.contains(p) {
        untried.remove(untried.index_of(p))
    } else {
        untried
    }
}

impl TargetingState {
    /// The invariant of the engine: no untried point occurs twice, every
    /// point it holds names a cell of the board, and its counts are not
    /// negative.
    pub open spec fn wf(self) -> bool {
        &&& self.untried.no_duplicates()
        &&& all_valid(self.untried)
        &&& all_valid(self.primary)
        &&& all_valid(self.secondary)
        &&& self.streak >= 0
        &&& self.shots >= 0
    }

    /// Some untried point lies on the engine's parity.
    pub open spec fn has_parity_point(self) -> bool {
        exists|k: int|
            0 <= k < self.untried.len() && on_parity(#[trigger] self.untried[k], self.parity)
    }

    /// The next blind shot must lie on the engine's parity: the search is the
    /// hard one, fewer than `PARITY_SHOTS` shots were taken, and an untried
    /// point lies on the parity.
    pub open spec fn parity_owed(self) -> bool {
        self.hard && self.shots < PARITY_SHOTS && self.has_parity_point()
    }

    /// Hunting: no candidate is waiting.
    pub open spec fn hunting(self) -> bool {
        self.primary.len() == 0 && self.secondary.len() == 0
    }

    /// A candidate as it joins a queue: the point itself if it is still
    /// untried, nothing otherwise.
    pub open spec fn offered(self, candidate: Option<(char, i32)>) -> Seq<(char, i32)> {
        match candidate {
            Some(p) => if self.untried.contains(p) {
                seq![p]
            } else {
                Seq::empty()
            },
            None => Seq::empty(),
        }
    }

    /// The engine without the untried point at `index`.
    pub open spec fn without(self, index: int) -> TargetingState {
        TargetingState { untried: self.untried.remove(index), ..self }
    }

    /// The engine after a blind shot at the untried point at `index`.
    pub open spec fn after_hunt(self, index: int) -> TargetingState {
        TargetingState { shots: self.shots + 1, ..self.without(index) }
    }

    /// The queue that the next candidate comes from: the primary one while
    /// it has any.
    pub open spec fn queue(self) -> Seq<(char, i32)> {
        if self.primary.len() > 0 {
            self.primary
        } else {
            self.secondary
        }
    }

    /// The engine with the candidate at `index` of its queue taken: it
    /// leaves the queue, and the untried points too if it is still among
    /// them.
    pub open spec fn taken(self, index: int) -> TargetingState {
        let guess = self.queue()[index];
        if self.primary.len() > 0 {
            TargetingState {
                primary: self.primary.remove(index),
                untried: drop_point(self.untried, guess),
                ..self
            }
        } else {
            TargetingState {
                secondary: self.secondary.remove(index),
                untried: drop_point(self.untried, guess),
                ..self
            }
        }
    }

    /// The engine after a shot at the candidate at `index` of its queue.
    pub open spec fn after_target(self, index: int) -> TargetingState {
        TargetingState { shots: self.shots + 1, ..self.taken(index) }
    }

    /// The engine after a ship of `length` cells sank. A ship shorter than
    /// the run of hits leaves the rest of the run open: the secondary
    /// candidates join the primary ones. Otherwise the run is over and both
    /// queues are emptied.
    pub open spec fn after_sunk(self, length: usize) -> TargetingState {
        if length < self.streak {
            TargetingState {
                streak: self.streak - length,
                primary: self.primary + self.secondary,
                secondary: Seq::empty(),
                ..self
            }
        } else {
            TargetingState { streak: 0, primary: Seq::empty(), secondary: Seq::empty(), ..self }
        }
    }

    /// The engine after a hit at `p` that sank nothing.
    ///
    /// The first hit of a run queues the neighbours of `p` that are still
    /// untried: the one in the next column, the one in the column before, the
    /// one in the next row, the one in the row before. A later hit in the
    /// column of the last shot on record queues the point one row further on,
    /// away from that shot (a row up unless the hit lies below it), if it is
    /// still untried, and moves the candidates off that column to the
    /// secondary queue. A later hit in the row of the last shot does the same
    /// along the row. A later hit elsewhere only counts.
    pub open spec fn after_hit(self, p: (char, i32)) -> TargetingState {
        if self.streak == 0 {
            TargetingState {
                streak: 1,
                primary: self.primary + self.offered(step(p, 1, 0)) + self.offered(
                    step(p, -1, 0),
                ) + self.offered(step(p, 0, 1)) + self.offered(step(p, 0, -1)),
                ..self
            }
        } else if p.0 == self.last_hit.0 {
            let further = if p.1 > self.last_hit.1 { step(p, 0, 1) } else { step(p, 0, -1) };
            let grown = self.primary + self.offered(further);
            TargetingState {
                streak: self.streak + 1,
                primary: grown.filter(on_column(p.0)),
                secondary: self.secondary + grown.filter(off_column(p.0)),
                ..self
            }
        } else if p.1 == self.last_hit.1 {
            let further = if p.0 as int > self.last_hit.0 as int {
                step(p, 1, 0)
            } else {
                step(p, -1, 0)
            };
            let grown = self.primary + self.offered(further);
            TargetingState {
                streak: self.streak + 1,
                primary: grown.filter(on_row(p.1)),
                secondary: self.secondary + grown.filter(off_row(p.1)),
                ..self
            }
        } else {
            TargetingState { streak: self.streak + 1, ..self }
        }
    }

    /// The engine after the outcome of a shot at column `col`, row `row`, is
    /// put on record. A miss, or a cell that was shot before, changes no
    /// queue. Whatever the outcome, the point becomes the last shot on record.
    pub open spec fn recorded(self, outcome: ShotOutcome, col: char, row: i32) -> TargetingState {
        let moved = match outcome {
            ShotOutcome::Miss => self,
            ShotOutcome::AlreadyShot => self,
            ShotOutcome::Hit => self.after_hit((col, row)),
            ShotOutcome::HitSunk(length) => self.after_sunk(length),
            ShotOutcome::HitSunkGameOver(length) => self.after_sunk(length),
        };
        TargetingState { last_hit: (col, row), ..moved }
    }
}

/// What a filter keeps was there before, so it keeps points of the board
/// points of the board.
pub proof fn lemma_filter_all_valid(points: Seq<(char, i32)>, pred: spec_fn((char, i32)) -> bool)
    requires
        all_valid(points),
    ensures
        all_valid(points.filter(pred)),
{
    let kept = points.filter(pred);
    assert forall|k: int| 0 <= k < kept.len() implies valid_point(#[trigger] kept[k]) by {
        assert(kept.contains(kept[k]));
        points.lemma_filter_contains_rev(pred, kept[k]);
        let m = choose|m: int| 0 <= m < points.len() && points[m] == kept[k];
        assert(valid_point(points[m]));
    }
}

/// Putting an outcome on record keeps a well-formed engine well-formed.
pub proof fn lemma_recorded_wf(state: TargetingState, outcome: ShotOutcome, col: char, row: i32)
    requires
        state.wf(),
    ensures
        state.recorded(outcome, col, row).wf(),
        state.recorded(outcome, col, row).untried == state.untried,
{
    let p = (col, row);
    assert forall|cand: Option<(char, i32)>| all_valid(#[trigger] state.offered(cand)) by {
        if cand is Some && state.untried.contains(cand->0) {
            let m = choose|m: int| 0 <= m < state.untried.len() && state.untried[m] == cand->0;
            assert(valid_point(state.untried[m]));
        }
    }
    match outcome {
        ShotOutcome::Hit => {
            if state.streak == 0 {
            } else if p.0 == state.last_hit.0 {
                let further = if p.1 > state.last_hit.1 { step(p, 0, 1) } else { step(p, 0, -1) };
                let grown = state.primary + state.offered(further);
                assert(all_valid(state.offered(further)));
                lemma_filter_all_valid(grown, on_column(p.0));
                lemma_filter_all_valid(grown, off_column(p.0));
            } else if p.1 == state.last_hit.1 {
                let further = if p.0 as int > state.last_hit.0 as int {
                    step(p, 1, 0)
                } else {
                    step(p, -1, 0)
                };
                let grown = state.primary + state.offered(further);
                assert(all_valid(state.offered(further)));
                lemma_filter_all_valid(grown, on_row(p.1));
                lemma_filter_all_valid(grown, off_row(p.1));
            }
        },
        _ => {},
    }
}

/// The point `dcol` columns and `drow` rows away from `p`, if both are
/// points of the board.
fn step_point(p: (char, i32), dcol: i32, drow: i32) -> (res: Option<(char, i32)>)
    requires
        -1 <= dcol <= 1,
        -1 <= drow <= 1,
    ensures
        res == step(p, dcol as int, drow as int),
{
    match get_coord_index(p.1, p.0) {
        Err(_) => None,
        Ok((r, c)) => {
            let next_r: i32 = r as i32 + drow;
            let next_c: i32 = c as i32 + dcol;
            if next_r < 0 || next_c < 0 {
                return None;
            }
            match get_index_coord(next_r as usize, next_c as usize) {
                Ok((row, col)) => Some((col, row)),
                Err(_) => None,
            }
        },
    }
}

/// Whether the letter `a` comes after the letter `b`.
fn comes_after(a: char, b: char) -> (after: bool)
    ensures
        after == (a as int > b as int),
{
    a as u32 > b as u32
}

/// Whether the point of column `col` and row `row`, a point of the board,
/// lies on the checkerboard colour that `parity` picks.
fn lies_on_parity(col: char, row: i32, parity: bool) -> (res: bool)
    requires
        valid_point((col, row)),
    ensures
        res == on_parity((col, row), parity),
{
    match column_to_index(col) {
        Some(c_idx) => ((c_idx + (row - 1) as usize) % 2 == 1) == parity,
        None => false,
    }
}

/// Where `p` first stands among `points`, if it does.
pub fn position_of(points: &Vec<(char, i32)>, p: (char, i32)) -> (res: Option<usize>)
    ensures
        match res {
            Some(i) => {
                &&& i < points@.len()
                &&& points@[i as int] == p
                &&& forall|j: int| 0 <= j < i ==> points@[j] != p
            },
            None => !points@.contains(p),
        },
{
    let mut i: usize = 0;
    while i < points.len()
        invariant
            i <= points@.len(),
            forall|j: int| 0 <= j < i ==> points@[j] != p,
        decreases points@.len() - i,
    {
        let q = points[i];
        if q.0 == p.0 && q.1 == p.1 {
            return Some(i);
        }
        i += 1;
    }
    None
}

/// Parts a queue in two by a column (`by_column`) or by a row: the points on
/// it, and the points off it, each in their order.
fn part_queue(queue: &Vec<(char, i32)>, by_column: bool, col: char, row: i32) -> (res: (
    Vec<(char, i32)>,
    Vec<(char, i32)>,
))
    ensures
        by_column ==> res.0@ == queue@.filter(on_column(col)) && res.1@ == queue@.filter(
            off_column(col),
        ),
        !by_column ==> res.0@ == queue@.filter(on_row(row)) && res.1@ == queue@.filter(
            off_row(row),
        ),
{
    let ghost keep = if by_column { on_column(col) } else { on_row(row) };
    let ghost drop = if by_column { off_column(col) } else { off_row(row) };
    let mut on: Vec<(char, i32)> = Vec::new();
    let mut off: Vec<(char, i32)> = Vec::new();
    let mut i: usize = 0;
    proof {
        reveal(Seq::filter);
        assert(queue@.take(0) =~= Seq::<(char, i32)>::empty());
    }
    while i < queue.len()
        invariant
            i <= queue@.len(),
            keep == (if by_column { on_column(col) } else { on_row(row) }),
            drop == (if by_column { off_column(col) } else { off_row(row) }),
            on@ == queue@.take(i as int).filter(keep),
            off@ == queue@.take(i as int).filter(drop),
        decreases queue@.len() - i,
    {
        let q = queue[i];
        proof {
            assert(queue@.take(i + 1) =~= queue@.take(i as int).push(q));
            queue@.take(i as int).lemma_filter_push(q, keep);
            queue@.take(i as int).lemma_filter_push(q, drop);
        }
        let stays = if by_column { q.0 == col } else { q.1 == row };
        if stays {
            on.push(q);
        } else {
            off.push(q);
        }
        i += 1;
    }
    proof {
        assert(queue@.take(queue@.len() as int) =~= queue@);
    }
    (on, off)
}

impl PossibleGuesses {
    /// The engine's invariant, as `TargetingState::wf` states it.
    pub open spec fn wf(&self) -> bool {
        self@.wf()
    }

    /// A new engine: all hundred points untried, no candidate, no hit, the
    /// easy search, and a parity drawn at random. The last shot on record is
    /// a point off the board, `('z', 100)`.
    pub fn new() -> (pg: Self)
        ensures
            pg@.untried == all_points(),
            pg@.primary.len() == 0,
            pg@.secondary.len() == 0,
            pg@.streak == 0,
            pg@.last_hit == ('z', 100i32),
            !pg@.hard,
            pg@.shots == 0,
            pg.wf(),
    {
        let mut create_points: Vec<(char, i32)> = Vec::new();
        let mut c: usize = 0;
        while c < 10
            invariant
                c <= 10,
                create_points@.len() == 10 * c,
                forall|k: int|
                    0 <= k < create_points@.len() ==> #[trigger] create_points@[k]
                        == all_points()[k],
            decreases 10 - c,
        {
            let column = index_to_column(c);
            let mut row: i32 = 1;
            while row <= 10
                invariant
                    c < 10,
                    1 <= row <= 11,
                    column == column_letter(c as int),
                    create_points@.len() == 10 * c + row - 1,
                    forall|k: int|
                        0 <= k < create_points@.len() ==> #[trigger] create_points@[k]
                            == all_points()[k],
                decreases 11 - row,
            {
                create_points.push((column, row));
                row += 1;
            }
            c += 1;
        }
        proof {
            assert(create_points@ =~= all_points());
            lemma_all_points();
        }
        Self {
            points: create_points,
            reasonable_guesses: Vec::new(),
            next_guesses: Vec::new(),
            num_hits: 0,
            last_hit: ('z', 100),
            guess_version: random_bool(),
            difficult: false,
            guess_count: 0,
        }
    }

    /// Takes the untried point at `index`.
    pub fn take_point(&mut self, index: usize) -> (guess: (char, i32))
        requires
            old(self).wf(),
            index < old(self)@.untried.len(),
        ensures
            guess == old(self)@.untried[index as int],
            final(self)@ == old(self)@.without(index as int),
            final(self).wf(),
            valid_point(guess),
            !final(self)@.untried.contains(guess),
    {
        proof {
            lemma_remove_no_duplicates(self@.untried, index as int);
            self@.untried.remove_ensures(index as int);
        }
        self.points.remove(index)
    }

    /// Takes `point` from the untried points if it lies on the engine's
    /// parity and is still untried; otherwise nothing changes.
    pub fn take_on_parity(&mut self, point: (char, i32)) -> (res: Option<(char, i32)>)
        requires
            old(self).wf(),
        ensures
            res is Some <==> on_parity(point, old(self)@.parity) && old(self)@.untried.contains(
                point,
            ),
            res is Some ==> res == Some(point) && final(self)@ == old(self)@.without(
                old(self)@.untried.index_of(point),
            ) && valid_point(point),
            res is None ==> final(self)@ == old(self)@,
            final(self).wf(),
    {
        match position_of(&self.points, point) {
            Some(index) => {
                assert(valid_point(self@.untried[index as int]));
                if lies_on_parity(point.0, point.1, self.guess_version) {
                    assert(self@.untried.index_of(point) == index);
                    Some(self.take_point(index))
                } else {
                    None
                }
            },
            None => None,
        }
    }

    /// Where the first untried point on the engine's parity stands, if any
    /// untried point lies on it.
    pub fn first_on_parity(&self) -> (res: Option<usize>)
        requires
            self.wf(),
        ensures
            match res {
                Some(i) => {
                    &&& i < self@.untried.len()
                    &&& on_parity(self@.untried[i as int], self@.parity)
                    &&& forall|j: int|
                        0 <= j < i ==> !on_parity(#[trigger] self@.untried[j], self@.parity)
                },
                None => !self@.has_parity_point(),
            },
    {
        let mut i: usize = 0;
        while i < self.points.len()
            invariant
                i <= self@.untried.len(),
                self.wf(),
                forall|j: int|
                    0 <= j < i ==> !on_parity(#[trigger] self@.untried[j], self@.parity),
            decreases self@.untried.len() - i,
        {
            let point = self.points[i];
            assert(valid_point(self@.untried[i as int]));
            if lies_on_parity(point.0, point.1, self.guess_version) {
                return Some(i);
            }
            i += 1;
        }
        None
    }

    /// Picks a blind shot for the hard search: an untried point on the
    /// engine's parity, whenever there is one. It draws points of the board
    /// at random until one lies on the parity and is still untried; after
    /// `PARITY_ATTEMPTS` draws without one it takes the first untried point
    /// on the parity. Only when no untried point lies on the parity does it
    /// draw among the untried points directly. The point leaves the untried
    /// points.
    pub fn smart_random_guess(&mut self) -> (guess: (char, i32))
        requires
            old(self).wf(),
            old(self)@.untried.len() > 0,
        ensures
            exists|i: int|
                0 <= i < old(self)@.untried.len() && guess == #[trigger] old(self)@.untried[i]
                    && final(self)@ == old(self)@.without(i),
            old(self)@.has_parity_point() ==> on_parity(guess, old(self)@.parity),
            valid_point(guess),
            final(self).wf(),
    {
        let mut attempts: usize = 0;
        while attempts < PARITY_ATTEMPTS
            invariant
                attempts <= PARITY_ATTEMPTS,
                self@ == old(self)@,
                self.wf(),
            decreases PARITY_ATTEMPTS - attempts,
        {
            let draw = random_below(100);
            let column = index_to_column(draw / 10);
            let row: i32 = (draw % 10) as i32 + 1;
            match self.take_on_parity((column, row)) {
                Some(guess) => {
                    proof {
                        let i = old(self)@.untried.index_of(guess);
                        assert(old(self)@.untried[i] == guess);
                    }
                    return guess;
                },
                None => {},
            }
            attempts += 1;
        }
        let index = match self.first_on_parity() {
            Some(index) => index,
            None => random_below(self.points.len()),
        };
        self.take_point(index)
    }

    /// Picks a blind shot among the untried points and counts it. The hard
    /// search keeps to its parity while fewer than `PARITY_SHOTS` shots
    /// were taken before this one and an untried point lies on the parity;
    /// otherwise any untried point may come.
    pub fn random_guess(&mut self) -> (guess: (char, i32))
        requires
            old(self).wf(),
            old(self)@.untried.len() > 0,
            old(self)@.shots < i32::MAX,
        ensures
            exists|i: int|
                0 <= i < old(self)@.untried.len() && guess == #[trigger] old(self)@.untried[i]
                    && final(self)@ == old(self)@.after_hunt(i),
            old(self)@.parity_owed() ==> on_parity(guess, old(self)@.parity),
            valid_point(guess),
            final(self).wf(),
    {
        let on_parity_only = self.difficult && self.guess_count < PARITY_SHOTS;
        self.guess_count += 1;
        let ghost counted = self@;
        let guess = if on_parity_only {
            self.smart_random_guess()
        } else {
            let index = random_below(self.points.len());
            self.take_point(index)
        };
        proof {
            let i = choose|i: int|
                0 <= i < counted.untried.len() && guess == #[trigger] counted.untried[i] && self@
                    == counted.without(i);
            assert(old(self)@.untried[i] == guess);
            assert(self@ == old(self)@.after_hunt(i));
        }
        guess
    }

    /// Takes the candidate at `index` of the queue that is in turn: the
    /// primary one while it has any, else the secondary one. The candidate
    /// leaves its queue, and the untried points if it is still among them.
    pub fn take_queued(&mut self, index: usize) -> (guess: (char, i32))
        requires
            old(self).wf(),
            index < old(self)@.queue().len(),
        ensures
            guess == old(self)@.queue()[index as int],
            final(self)@ == old(self)@.taken(index as int),
            valid_point(guess),
            final(self).wf(),
    {
        let guess = if !self.reasonable_guesses.is_empty() {
            proof {
                self@.primary.remove_ensures(index as int);
            }
            self.reasonable_guesses.remove(index)
        } else {
            proof {
                self@.secondary.remove_ensures(index as int);
            }
            self.next_guesses.remove(index)
        };
        match position_of(&self.points, guess) {
            Some(pos) => {
                proof {
                    assert(self@.untried.index_of(guess) == pos);
                    lemma_remove_no_duplicates(self@.untried, pos as int);
                    self@.untried.remove_ensures(pos as int);
                }
                self.points.remove(pos);
            },
            None => {},
        }
        guess
    }

    /// Picks a shot among the candidates and counts it: one of the primary
    /// candidates while there are any, else one of the secondary ones, drawn
    /// at random.
    pub fn non_random_guess(&mut self) -> (guess: (char, i32))
        requires
            old(self).wf(),
            !old(self)@.hunting(),
            old(self)@.shots < i32::MAX,
        ensures
            exists|i: int|
                0 <= i < old(self)@.queue().len() && guess == #[trigger] old(self)@.queue()[i]
                    && final(self)@ == old(self)@.after_target(i),
            valid_point(guess),
            final(self).wf(),
    {
        self.guess_count += 1;
        let ghost counted = self@;
        let bound = if !self.reasonable_guesses.is_empty() {
            self.reasonable_guesses.len()
        } else {
            self.next_guesses.len()
        };
        let index = random_below(bound);
        let guess = self.take_queued(index);
        proof {
            assert(counted.queue() == old(self)@.queue());
            assert(old(self)@.queue()[index as int] == guess);
            assert(self@ == old(self)@.after_target(index as int));
        }
        guess
    }

    /// Picks the next shot and counts it: a blind one while the engine is
    /// hunting, on the engine's parity where the hard search owes it, else
    /// one of its candidates, the primary ones first. The point leaves the
    /// engine's queues and untried points.
    pub fn next_guess(&mut self) -> (guess: (char, i32))
        requires
            old(self).wf(),
            old(self)@.shots < i32::MAX,
            !old(self)@.hunting() || old(self)@.untried.len() > 0,
        ensures
            old(self)@.hunting() ==> exists|i: int|
                0 <= i < old(self)@.untried.len() && guess == #[trigger] old(self)@.untried[i]
                    && final(self)@ == old(self)@.after_hunt(i),
            !old(self)@.hunting() ==> exists|i: int|
                0 <= i < old(self)@.queue().len() && guess == #[trigger] old(self)@.queue()[i]
                    && final(self)@ == old(self)@.after_target(i),
            old(self)@.hunting() && old(self)@.parity_owed() ==> on_parity(
                guess,
                old(self)@.parity,
            ),
            valid_point(guess),
            final(self).wf(),
    {
        if self.reasonable_guesses.is_empty() && self.next_guesses.is_empty() {
            self.random_guess()
        } else {
            self.non_random_guess()
        }
    }

    /// Queues a candidate among the primary ones if it is still untried.
    fn offer(&mut self, candidate: Option<(char, i32)>)
        ensures
            final(self)@ == (TargetingState {
                primary: old(self)@.primary + old(self)@.offered(candidate),
                ..old(self)@
            }),
    {
        match candidate {
            Some(p) => {
                if position_of(&self.points, p).is_some() {
                    self.reasonable_guesses.push(p);
                    assert(self@.primary =~= old(self)@.primary + old(self)@.offered(candidate));
                } else {
                    assert(self@.primary =~= old(self)@.primary + old(self)@.offered(candidate));
                }
            },
            None => {
                assert(self@.primary =~= old(self)@.primary + old(self)@.offered(candidate));
            },
        }
    }

    /// Puts the outcome of a shot at column `guess_col`, row `guess_row`, on
    /// record. The outcome comes as a report, as `outcome_of` reads it.
    pub fn update_guesses(&mut self, report: (char, (char, usize)), guess_col: char, guess_row: i32)
        requires
            old(self).wf(),
            old(self)@.streak < i32::MAX,
        ensures
            final(self)@ == old(self)@.recorded(outcome_of(report), guess_col, guess_row),
            final(self).wf(),
    {
        proof {
            lemma_recorded_wf(self@, outcome_of(report), guess_col, guess_row);
        }
        let guess = (guess_col, guess_row);
        match ShotOutcome::from_report(report) {
            ShotOutcome::Miss => {},
            ShotOutcome::AlreadyShot => {},
            ShotOutcome::HitSunk(length) => self.record_sunk(length),
            ShotOutcome::HitSunkGameOver(length) => self.record_sunk(length),
            ShotOutcome::Hit => self.record_hit(guess),
        }
        self.last_hit = guess;
    }

    /// Puts a sunk ship of `length` cells on record.
    fn record_sunk(&mut self, length: usize)
        requires
            old(self)@.streak >= 0,
        ensures
            final(self)@ == old(self)@.after_sunk(length),
    {
        if self.num_hits > 0 && length < self.num_hits as usize {
            self.num_hits -= length as i32;
            let mut moved: Vec<(char, i32)> = Vec::new();
            core::mem::swap(&mut moved, &mut self.next_guesses);
            self.reasonable_guesses.append(&mut moved);
        } else {
            self.num_hits = 0;
            self.reasonable_guesses = Vec::new();
            self.next_guesses = Vec::new();
        }
        proof {
            assert(self@.primary =~= old(self)@.after_sunk(length).primary);
            assert(self@.secondary =~= old(self)@.after_sunk(length).secondary);
        }
    }

    /// Puts a hit at `p` that sank nothing on record.
    fn record_hit(&mut self, p: (char, i32))
        requires
            old(self)@.streak < i32::MAX,
        ensures
            final(self)@ == old(self)@.after_hit(p),
    {
        let last = self.last_hit;
        if self.num_hits == 0 {
            self.num_hits = 1;
            self.offer(step_point(p, 1, 0));
            self.offer(step_point(p, -1, 0));
            self.offer(step_point(p, 0, 1));
            self.offer(step_point(p, 0, -1));
            proof {
                assert(self@.primary =~= old(self)@.after_hit(p).primary);
            }
        } else {
            self.num_hits += 1;
            if p.0 == last.0 {
                let further = if p.1 > last.1 { step_point(p, 0, 1) } else { step_point(p, 0, -1) };
                self.offer(further);
                let (on, mut off) = part_queue(&self.reasonable_guesses, true, p.0, p.1);
                self.reasonable_guesses = on;
                self.next_guesses.append(&mut off);
                proof {
                    assert(self@.primary =~= old(self)@.after_hit(p).primary);
                    assert(self@.secondary =~= old(self)@.after_hit(p).secondary);
                }
            } else if p.1 == last.1 {
                let further = if comes_after(p.0, last.0) {
                    step_point(p, 1, 0)
                } else {
                    step_point(p, -1, 0)
                };
                self.offer(further);
                let (on, mut off) = part_queue(&self.reasonable_guesses, false, p.0, p.1);
                self.reasonable_guesses = on;
                self.next_guesses.append(&mut off);
                proof {
                    assert(self@.primary =~= old(self)@.after_hit(p).primary);
                    assert(self@.secondary =~= old(self)@.after_hit(p).secondary);
                }
            }
        }
    }
}

impl Default for PossibleGuesses {
    fn default() -> (pg: Self)
        ensures
            pg@.untried == all_points(),
            pg@.primary.len() == 0,
            pg@.secondary.len() == 0,
            pg@.streak == 0,
            pg@.last_hit == ('z', 100i32),
            !pg@.hard,
            pg@.shots == 0,
            pg.wf(),
    {
        Self::new()
    }
}

/// The hundred points are points of the board, each one once.
pub proof fn lemma_all_points()
    ensures
        all_points().no_duplicates(),
        all_valid(all_points()),
        forall|p: (char, i32)| valid_point(p) ==> all_points().contains(p),
{
    let all = all_points();
    assert forall|p: (char, i32)| valid_point(p) implies all.contains(p) by {
        let k = column_index(p.0) * 10 + p.1 - 1;
        assert(all[k] == p);
    }
}

} // verus!
