//! What a shot at a board can come to.

use vstd::prelude::*;

verus! {

/// The outcome of one shot. A sinking hit carries the length that the sunk
/// ship was placed with.
#[derive(Copy, Clone, Debug, PartialEq, Eq, Structural)]
pub enum ShotOutcome {
    Miss,
    Hit,
    HitSunk(usize),
    HitSunkGameOver(usize),
    AlreadyShot,
}

/// The three-part report of an outcome: `h`, `m` or `a` for hit, miss or
/// already shot; then `u`, `s`, `f` or `n` for a ship hit but not sunk, sunk,
/// sunk as the last of the fleet, or no ship at all; then the sunk ship's
/// length, 0 where none sank.
pub open spec fn report_of(outcome: ShotOutcome) -> (char, (char, usize)) {
    match outcome {
        ShotOutcome::Miss => ('m', ('n', 0)),
        ShotOutcome::Hit => ('h', ('u', 0)),
        ShotOutcome::HitSunk(length) => ('h', ('s', length)),
        ShotOutcome::HitSunkGameOver(length) => ('h', ('f', length)),
        ShotOutcome::AlreadyShot => ('a', ('n', 0)),
    }
}

/// The outcome that a report stands for. A report that starts with `h` is a
/// hit: sunk where `s` or `f` follows, plain otherwise. One that starts with
/// `a` is an already-shot cell, any other a miss.
pub open spec fn outcome_of(report: (char, (char, usize))) -> ShotOutcome {
    if report.0 == 'h' {
        if report.1.0 == 's' {
            ShotOutcome::HitSunk(report.1.1)
        } else if report.1.0 == 'f' {
            ShotOutcome::HitSunkGameOver(report.1.1)
        } else {
            ShotOutcome::Hit
        }
    } else if report.0 == 'a' {
        ShotOutcome::AlreadyShot
    } else {
        ShotOutcome::Miss
    }
}

impl ShotOutcome {
    /// The report of this outcome.
    pub fn report(&self) -> (res: (char, (char, usize)))
        ensures
            res == report_of(*self),
    {
        match *self {
            ShotOutcome::Miss => ('m', ('n', 0)),
            ShotOutcome::Hit => ('h', ('u', 0)),
            ShotOutcome::HitSunk(length) => ('h', ('s', length)),
            ShotOutcome::HitSunkGameOver(length) => ('h', ('f', length)),
            ShotOutcome::AlreadyShot => ('a', ('n', 0)),
        }
    }

    /// Reads an outcome back from a report.
    pub fn from_report(report: (char, (char, usize))) -> (res: ShotOutcome)
        ensures
            res == outcome_of(report),
    {
        let (hit, (sunk, length)) = report;
        if hit == 'h' {
            if sunk == 's' {
                ShotOutcome::HitSunk(length)
            } else if sunk == 'f' {
                ShotOutcome::HitSunkGameOver(length)
            } else {
                ShotOutcome::Hit
            }
        } else if hit == 'a' {
            ShotOutcome::AlreadyShot
        } else {
            ShotOutcome::Miss
        }
    }

    /// Whether this shot sank the last ship of the board.
    pub fn is_game_over(&self) -> (res: bool)
        ensures
            res == (*self is HitSunkGameOver),
    {
        match *self {
            ShotOutcome::HitSunkGameOver(_) => true,
            _ => false,
        }
    }
}

/// Reading a report back gives the outcome it was made from.
pub proof fn lemma_report_round_trip(outcome: ShotOutcome)
    ensures
        outcome_of(report_of(outcome)) == outcome,
{
}

} // verus!
