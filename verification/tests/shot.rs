use battleship::shot::ShotOutcome;

#[test]
fn report_of_each_outcome() {
    assert_eq!(ShotOutcome::Miss.report(), ('m', ('n', 0)));
    assert_eq!(ShotOutcome::Hit.report(), ('h', ('u', 0)));
    assert_eq!(ShotOutcome::HitSunk(3).report(), ('h', ('s', 3)));
    assert_eq!(ShotOutcome::HitSunkGameOver(2).report(), ('h', ('f', 2)));
    assert_eq!(ShotOutcome::AlreadyShot.report(), ('a', ('n', 0)));
}

#[test]
fn outcome_from_report() {
    assert_eq!(ShotOutcome::from_report(('m', ('n', 0))), ShotOutcome::Miss);
    assert_eq!(ShotOutcome::from_report(('h', ('u', 0))), ShotOutcome::Hit);
    assert_eq!(ShotOutcome::from_report(('h', ('n', 0))), ShotOutcome::Hit);
    assert_eq!(ShotOutcome::from_report(('h', ('s', 4))), ShotOutcome::HitSunk(4));
    assert_eq!(ShotOutcome::from_report(('h', ('f', 5))), ShotOutcome::HitSunkGameOver(5));
    assert_eq!(ShotOutcome::from_report(('a', ('n', 0))), ShotOutcome::AlreadyShot);
    assert_eq!(ShotOutcome::from_report(('x', ('s', 7))), ShotOutcome::Miss);
}

#[test]
fn report_round_trip() {
    let outcomes = [
        ShotOutcome::Miss,
        ShotOutcome::Hit,
        ShotOutcome::HitSunk(1),
        ShotOutcome::HitSunk(5),
        ShotOutcome::HitSunkGameOver(2),
        ShotOutcome::AlreadyShot,
    ];
    for outcome in outcomes {
        assert_eq!(ShotOutcome::from_report(outcome.report()), outcome);
    }
}

#[test]
fn game_over_flag() {
    assert!(ShotOutcome::HitSunkGameOver(2).is_game_over());
    assert!(!ShotOutcome::HitSunk(2).is_game_over());
    assert!(!ShotOutcome::Hit.is_game_over());
    assert!(!ShotOutcome::Miss.is_game_over());
    assert!(!ShotOutcome::AlreadyShot.is_game_over());
}
