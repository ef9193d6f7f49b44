use gridrules::piece::Exhaustion;
use gridrules::piece::ExhaustionStrategy;
use gridrules::piece::Piece;

fn budget(strategy: ExhaustionStrategy, moved: bool, used_special: bool) -> Exhaustion {
    let mut e = Exhaustion::new_rested(strategy);
    if moved {
        e.on_move();
    }
    if used_special {
        e.on_attack();
    }
    e
}

#[test]
fn either_strategy_table() {
    let cases = [
        (false, false, true, true),
        (true, false, false, false),
        (false, true, false, false),
        (true, true, false, false),
    ];
    for &(moved, used, can_move, can_attack) in cases.iter() {
        let e = budget(ExhaustionStrategy::Either, moved, used);
        assert_eq!(e.can_move(), can_move);
        assert_eq!(e.can_attack(), can_attack);
        assert_eq!(e.is_done(), !can_move && !can_attack);
    }
}

#[test]
fn both_strategy_table() {
    let cases = [
        (false, false, true, true),
        (true, false, false, true),
        (false, true, true, false),
        (true, true, false, false),
    ];
    for &(moved, used, can_move, can_attack) in cases.iter() {
        let e = budget(ExhaustionStrategy::Both, moved, used);
        assert_eq!(e.can_move(), can_move);
        assert_eq!(e.can_attack(), can_attack);
        assert_eq!(e.is_done(), !can_move && !can_attack);
    }
}

#[test]
fn move_strategy_table() {
    let cases = [
        (false, false, true, false),
        (true, false, false, false),
        (false, true, true, false),
        (true, true, false, false),
    ];
    for &(moved, used, can_move, can_attack) in cases.iter() {
        let e = budget(ExhaustionStrategy::Move, moved, used);
        assert_eq!(e.can_move(), can_move);
        assert_eq!(e.can_attack(), can_attack);
        assert_eq!(e.is_done(), !can_move && !can_attack);
    }
}

#[test]
fn special_strategy_table() {
    let cases = [
        (false, false, false, true),
        (true, false, false, true),
        (false, true, false, false),
        (true, true, false, false),
    ];
    for &(moved, used, can_move, can_attack) in cases.iter() {
        let e = budget(ExhaustionStrategy::Special, moved, used);
        assert_eq!(e.can_move(), can_move);
        assert_eq!(e.can_attack(), can_attack);
        assert_eq!(e.is_done(), !can_move && !can_attack);
    }
}

#[test]
fn move_round_trip_restores_can_move() {
    let strategies = [
        ExhaustionStrategy::Either,
        ExhaustionStrategy::Both,
        ExhaustionStrategy::Move,
        ExhaustionStrategy::Special,
    ];
    for strategy in strategies.iter() {
        for used in [false, true].iter() {
            let mut e = budget(*strategy, false, *used);
            let before = e.can_move();
            e.on_move();
            e.undo_move();
            assert_eq!(e.can_move(), before);
        }
    }
}

#[test]
fn attack_round_trip_restores_can_attack() {
    let strategies = [
        ExhaustionStrategy::Either,
        ExhaustionStrategy::Both,
        ExhaustionStrategy::Move,
        ExhaustionStrategy::Special,
    ];
    for strategy in strategies.iter() {
        for moved in [false, true].iter() {
            let mut e = budget(*strategy, *moved, false);
            let before = e.can_attack();
            e.on_attack();
            e.undo_attack();
            assert_eq!(e.can_attack(), before);
        }
    }
}

#[test]
fn reset_clears_both_flags() {
    let mut e = Exhaustion::new_exhausted(ExhaustionStrategy::Either);
    assert!(e.is_done());
    e.reset();
    assert!(e.can_move());
    assert!(e.can_attack());
}

#[test]
fn new_piece_is_exhausted_attacker() {
    let p = Piece::new(3);
    assert!(p.attack);
    assert!(p.pierce);
    assert!(!p.shield);
    assert!(p.movement.is_none());
    assert!(p.activatable.is_none());
    assert!(!p.dying);
    assert!(p.exists);
    assert_eq!(p.team_id, 3);
    assert!(p.exhaustion.is_done());
}
