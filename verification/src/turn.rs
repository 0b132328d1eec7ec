//! One turn of the automated player: pick a shot, resolve it on the
//! opponent's board, and put the outcome on the engine's record.

use crate::coord::cell_of;
use crate::grid::{Grid, GridView};
use crate::possible_guess::{on_parity, valid_point, PossibleGuesses, TargetingState};
use crate::shot::{lemma_report_round_trip, report_of};
use vstd::prelude::*;

verus! {

/// A turn was made: the engine `after` is the engine `fired` with the
/// outcome of a shot at `guess` on the board `before` put on record, the
/// board `now` is that board after the shot, and `finished` says whether the
/// shot ended the game.
pub open spec fn turn_made(
    before: GridView,
    now: GridView,
    fired: TargetingState,
    after: TargetingState,
    guess: (char, i32),
    finished: bool,
) -> bool {
    let cell = cell_of(guess.1 as int, guess.0);
    let outcome = before.shot_outcome(cell);
    &&& now == before.after_shot(cell)
    &&& after == fired.recorded(outcome, guess.0, guess.1)
    &&& finished == (outcome is HitSunkGameOver)
}

impl Grid {
    /// Fires at column `col`, row `row` of this board for the automated
    /// player, puts the outcome on the engine's record, whatever it is, and
    /// reports it.
    pub fn computer_shot(
        &mut self,
        col: char,
        row: i32,
        possible_guesses: &mut PossibleGuesses,
    ) -> (report: (char, (char, usize)))
        requires
            old(self).wf(),
            old(possible_guesses).wf(),
            old(possible_guesses)@.streak < i32::MAX,
            valid_point((col, row)),
        ensures
            report == report_of(old(self)@.shot_outcome(cell_of(row as int, col))),
            turn_made(
                old(self)@,
                final(self)@,
                old(possible_guesses)@,
                final(possible_guesses)@,
                (col, row),
                report.1.0 == 'f',
            ),
            final(self).wf(),
            final(possible_guesses).wf(),
    {
        proof {
            lemma_report_round_trip(self@.shot_outcome(cell_of(row as int, col)));
        }
        let report = self.guess(row, col);
        possible_guesses.update_guesses(report, col, row);
        report
    }

    /// Fires at column `col`, row `row` of this board for the automated
    /// player and puts the outcome on the engine's record, whatever it is.
    /// The answer says whether the shot sank the last ship.
    pub fn computer_guess_helper(
        &mut self,
        col: char,
        row: i32,
        possible_guesses: &mut PossibleGuesses,
    ) -> (finished: bool)
        requires
            old(self).wf(),
            old(possible_guesses).wf(),
            old(possible_guesses)@.streak < i32::MAX,
            valid_point((col, row)),
        ensures
            turn_made(
                old(self)@,
                final(self)@,
                old(possible_guesses)@,
                final(possible_guesses)@,
                (col, row),
                finished,
            ),
            final(self).wf(),
            final(possible_guesses).wf(),
    {
        self.computer_shot(col, row, possible_guesses).1.0 == 'f'
    }

    /// Takes the automated player's turn against this board. While the
    /// engine is hunting, it fires at an untried point, on the engine's
    /// parity where the hard search owes it; otherwise at one of its
    /// candidates, the primary ones first. The shot is counted, resolved
    /// on the board and put on the engine's record. The answer says whether
    /// the shot sank the last ship.
    pub fn make_computer_guess(&mut self, possible_guesses: &mut PossibleGuesses) -> (finished:
        bool)
        requires
            old(self).wf(),
            old(possible_guesses).wf(),
            old(possible_guesses)@.streak < i32::MAX,
            old(possible_guesses)@.shots < i32::MAX,
            !old(possible_guesses)@.hunting() || old(possible_guesses)@.untried.len() > 0,
        ensures
            old(possible_guesses)@.hunting() ==> exists|i: int|
                {
                    &&& 0 <= i < old(possible_guesses)@.untried.len()
                    &&& turn_made(
                        old(self)@,
                        final(self)@,
                        old(possible_guesses)@.after_hunt(i),
                        final(possible_guesses)@,
                        #[trigger] old(possible_guesses)@.untried[i],
                        finished,
                    )
                    &&& old(possible_guesses)@.parity_owed() ==> on_parity(
                        old(possible_guesses)@.untried[i],
                        old(possible_guesses)@.parity,
                    )
                },
            !old(possible_guesses)@.hunting() ==> exists|i: int|
                0 <= i < old(possible_guesses)@.queue().len() && turn_made(
                    old(self)@,
                    final(self)@,
                    old(possible_guesses)@.after_target(i),
                    final(possible_guesses)@,
                    #[trigger] old(possible_guesses)@.queue()[i],
                    finished,
                ),
            final(self).wf(),
            final(possible_guesses).wf(),
    {
        let (col, row) = possible_guesses.next_guess();
        self.computer_guess_helper(col, row, possible_guesses)
    }
}

} // verus!
