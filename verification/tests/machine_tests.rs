use gridrules::board::Board;
use gridrules::board::BoardEvent;
use gridrules::geometry::Direction;
use gridrules::geometry::Range;
use gridrules::machine::GameState;
use gridrules::machine::step;
use gridrules::piece::ActivatablePower;
use gridrules::piece::Exhaustion;
use gridrules::piece::ExhaustionStrategy;
use gridrules::piece::Move;
use gridrules::piece::Power;
use gridrules::piece::Piece;

fn fighter(team: usize, attack: bool) -> Piece {
    Piece {
        attack,
        pierce: true,
        shield: false,
        movement: Some(Move::new(Direction::Straight, 3)),
        activatable: None,
        dying: false,
        exhaustion: Exhaustion::new_rested(ExhaustionStrategy::Both),
        team_id: team,
        exists: true,
    }
}

fn blaster(team: usize, kind: Power, range: Range) -> Piece {
    Piece {
        attack: true,
        pierce: true,
        shield: false,
        movement: Some(Move::new(Direction::Straight, 1)),
        activatable: Some(ActivatablePower { kind, range }),
        dying: false,
        exhaustion: Exhaustion::new_rested(ExhaustionStrategy::Both),
        team_id: team,
        exists: true,
    }
}

#[test]
fn move_onto_enemy_attacks_and_relocates() {
    let mut board = Board::new(8, 8, 2);
    let a = board.place_piece(fighter(0, true), 2, 2);
    let b = board.place_piece(fighter(1, true), 2, 4);
    board.push_event(BoardEvent::Cell { x: 2, y: 2 });
    board.push_event(BoardEvent::Cell { x: 2, y: 4 });

    let s1 = step(GameState::Placement, &mut board);
    assert!(matches!(s1, GameState::Movement(_)));
    let s2 = step(s1, &mut board);
    assert!(matches!(s2, GameState::Placement));

    assert!(board.piece(b).dying);
    assert_eq!(board.get_piece(2, 4), Some(a));
    assert_eq!(board.get_piece(2, 2), None);
    assert_eq!(board.piece_position(a), Some((2, 4)));
    assert!(!board.piece(a).exhaustion.can_move());
    assert!(board.piece(a).exhaustion.can_attack());
}

#[test]
fn move_onto_enemy_is_rejected_without_attack() {
    let mut board = Board::new(8, 8, 2);
    let a = board.place_piece(fighter(0, false), 2, 2);
    let b = board.place_piece(fighter(1, true), 2, 4);
    board.push_event(BoardEvent::Cell { x: 2, y: 2 });
    board.push_event(BoardEvent::Cell { x: 2, y: 4 });

    let s1 = step(GameState::Placement, &mut board);
    let s2 = step(s1, &mut board);
    assert!(matches!(s2, GameState::Placement));

    assert!(!board.piece(b).dying);
    assert_eq!(board.get_piece(2, 2), Some(a));
    assert_eq!(board.get_piece(2, 4), Some(b));
    assert!(board.piece(a).exhaustion.can_move());
}

#[test]
fn move_to_unreachable_cell_is_rejected() {
    let mut board = Board::new(8, 8, 2);
    let a = board.place_piece(fighter(0, true), 2, 2);
    board.push_event(BoardEvent::Cell { x: 2, y: 2 });
    board.push_event(BoardEvent::Cell { x: 2, y: 6 });

    let s1 = step(GameState::Placement, &mut board);
    let s2 = step(s1, &mut board);
    assert!(matches!(s2, GameState::Placement));
    assert_eq!(board.get_piece(2, 2), Some(a));
    assert!(board.piece(a).exhaustion.can_move());
}

#[test]
fn blocked_destination_is_rejected() {
    let mut board = Board::new(8, 8, 2);
    let a = board.place_piece(fighter(0, true), 2, 2);
    let _wall = board.place_piece(fighter(1, true), 2, 3);
    board.push_event(BoardEvent::Cell { x: 2, y: 2 });
    board.push_event(BoardEvent::Cell { x: 2, y: 4 });

    let s1 = step(GameState::Placement, &mut board);
    let s2 = step(s1, &mut board);
    assert!(matches!(s2, GameState::Placement));
    assert_eq!(board.get_piece(2, 2), Some(a));
    assert_eq!(board.get_piece(2, 4), None);
}

#[test]
fn clicking_another_friendly_piece_reselects() {
    let mut board = Board::new(8, 8, 2);
    let _a = board.place_piece(fighter(0, true), 2, 2);
    let b = board.place_piece(fighter(0, true), 5, 5);
    board.push_event(BoardEvent::Cell { x: 2, y: 2 });
    board.push_event(BoardEvent::Cell { x: 5, y: 5 });

    let s1 = step(GameState::Placement, &mut board);
    let s2 = step(s1, &mut board);
    match s2 {
        GameState::Movement(st) => {
            assert_eq!(st.piece, b);
            assert_eq!((st.from_x, st.from_y), (5, 5));
        }
        _ => panic!("expected a movement state"),
    }
    assert!(board.piece(b).exhaustion.can_move());
}

#[test]
fn blast_hits_every_unprotected_enemy_in_range() {
    let mut board = Board::new(9, 9, 2);
    let a = board.place_piece(blaster(0, Power::Blast, Range::new(Direction::Star, 2)), 4, 4);
    let e1 = board.place_piece(fighter(1, true), 4, 6);
    let e2 = board.place_piece(fighter(1, true), 2, 2);
    let e3 = board.place_piece(fighter(1, true), 6, 4);
    board.set_protected(6, 4, true);

    board.push_event(BoardEvent::Cell { x: 4, y: 4 });
    board.push_event(BoardEvent::Cell { x: 4, y: 4 });
    let s1 = step(GameState::Placement, &mut board);
    let s2 = step(s1, &mut board);
    assert!(matches!(s2, GameState::Placement));

    assert!(board.piece(e1).dying);
    assert!(board.piece(e2).dying);
    assert!(!board.piece(e3).dying);
    assert!(!board.piece(a).dying);
    assert!(!board.piece(a).exhaustion.can_attack());
    assert!(board.piece(a).exhaustion.can_move());
}

#[test]
fn blast_without_victims_costs_nothing() {
    let mut board = Board::new(9, 9, 2);
    let a = board.place_piece(blaster(0, Power::Blast, Range::new(Direction::Star, 2)), 4, 4);
    board.push_event(BoardEvent::Cell { x: 4, y: 4 });
    board.push_event(BoardEvent::Cell { x: 4, y: 4 });
    let s1 = step(GameState::Placement, &mut board);
    let _s2 = step(s1, &mut board);
    assert!(board.piece(a).exhaustion.can_attack());
}

#[test]
fn targeted_shoot_arms_and_resolves() {
    let mut board = Board::new(9, 9, 2);
    let a = board.place_piece(
        blaster(0, Power::TargetedShoot, Range::new(Direction::Straight, 3)),
        4,
        4,
    );
    let e1 = board.place_piece(fighter(1, true), 4, 7);
    board.push_event(BoardEvent::Cell { x: 4, y: 4 });
    board.push_event(BoardEvent::Cell { x: 4, y: 4 });
    board.push_event(BoardEvent::Cell { x: 4, y: 7 });

    let s1 = step(GameState::Placement, &mut board);
    let s2 = step(s1, &mut board);
    assert!(matches!(s2, GameState::PowerTargeting(_)));
    let s3 = step(s2, &mut board);
    assert!(matches!(s3, GameState::Placement));

    assert!(board.piece(e1).dying);
    assert!(!board.piece(a).exhaustion.can_attack());
}

#[test]
fn targeted_shoot_out_of_reach_is_rejected() {
    let mut board = Board::new(9, 9, 2);
    let a = board.place_piece(
        blaster(0, Power::TargetedShoot, Range::new(Direction::Straight, 1)),
        4,
        4,
    );
    let e1 = board.place_piece(fighter(1, true), 4, 7);
    board.push_event(BoardEvent::Cell { x: 4, y: 4 });
    board.push_event(BoardEvent::Cell { x: 4, y: 4 });
    board.push_event(BoardEvent::Cell { x: 4, y: 7 });

    let s1 = step(GameState::Placement, &mut board);
    let s2 = step(s1, &mut board);
    let s3 = step(s2, &mut board);
    assert!(matches!(s3, GameState::Placement));
    assert!(!board.piece(e1).dying);
    assert!(board.piece(a).exhaustion.can_attack());
}

#[test]
fn next_event_resets_the_new_team() {
    let mut board = Board::new(8, 8, 2);
    let a = board.place_piece(
        Piece {
            exhaustion: Exhaustion::new_exhausted(ExhaustionStrategy::Either),
            ..fighter(0, true)
        },
        1,
        1,
    );
    let b = board.place_piece(
        Piece {
            exhaustion: Exhaustion::new_exhausted(ExhaustionStrategy::Either),
            ..fighter(1, true)
        },
        6,
        6,
    );
    board.push_event(BoardEvent::Next);
    let s1 = step(GameState::Placement, &mut board);
    assert!(matches!(s1, GameState::Placement));

    assert_eq!(board.current_team().id, 1);
    assert!(board.piece(b).exhaustion.can_move());
    assert!(board.piece(b).exhaustion.can_attack());
    assert!(!board.piece(a).exhaustion.can_move());
}

#[test]
fn next_turn_wraps_around() {
    let mut board = Board::new(8, 8, 2);
    board.push_event(BoardEvent::Next);
    board.push_event(BoardEvent::Next);
    let s1 = step(GameState::Placement, &mut board);
    assert_eq!(board.current_team().id, 1);
    let _s2 = step(s1, &mut board);
    assert_eq!(board.current_team().id, 0);
}

#[test]
fn empty_queue_changes_nothing() {
    let mut board = Board::new(8, 8, 2);
    let a = board.place_piece(fighter(0, true), 2, 2);
    let s1 = step(GameState::Placement, &mut board);
    assert!(matches!(s1, GameState::Placement));
    assert_eq!(board.get_piece(2, 2), Some(a));
}

#[test]
fn remove_dying_retires_pieces_but_keeps_records() {
    let mut board = Board::new(8, 8, 2);
    let a = board.place_piece(fighter(0, true), 2, 2);
    let b = board.place_piece(fighter(1, true), 2, 4);
    board.mark_dying(b);
    board.remove_dying();
    assert_eq!(board.get_piece(2, 4), None);
    assert_eq!(board.piece_position(b), None);
    assert!(!board.piece(b).exists);
    assert!(board.piece(b).dying);
    assert!(board.piece(a).exists);
    assert_eq!(board.get_piece(2, 2), Some(a));
}

#[test]
fn events_are_polled_in_fifo_order() {
    let mut board = Board::new(4, 4, 1);
    board.push_event(BoardEvent::Next);
    board.push_event(BoardEvent::Cell { x: 1, y: 2 });
    assert_eq!(board.poll_event(), Some(BoardEvent::Next));
    assert_eq!(board.poll_event(), Some(BoardEvent::Cell { x: 1, y: 2 }));
    assert_eq!(board.poll_event(), None);
}

#[test]
fn move_piece_overwrites_the_destination() {
    let mut board = Board::new(8, 8, 2);
    let a = board.place_piece(fighter(0, true), 1, 1);
    let b = board.place_piece(fighter(1, true), 3, 1);
    board.move_piece(a, 1, 1, 3, 1);
    assert_eq!(board.get_piece(3, 1), Some(a));
    assert_eq!(board.get_piece(1, 1), None);
    assert_eq!(board.piece_position(b), None);
    assert_eq!(board.piece_position(a), Some((3, 1)));
}

#[test]
fn next_event_during_movement_still_changes_turn() {
    let mut board = Board::new(8, 8, 2);
    let _a = board.place_piece(fighter(0, true), 2, 2);
    board.push_event(BoardEvent::Cell { x: 2, y: 2 });
    board.push_event(BoardEvent::Next);
    let s1 = step(GameState::Placement, &mut board);
    assert!(matches!(s1, GameState::Movement(_)));
    let s2 = step(s1, &mut board);
    assert!(matches!(s2, GameState::Placement));
    assert_eq!(board.current_team().id, 1);
}

#[test]
fn blast_ray_is_blocked_by_the_first_occupied_cell() {
    let mut board = Board::new(9, 9, 2);
    let _a = board.place_piece(blaster(0, Power::Blast, Range::new(Direction::Vertical, 3)), 4, 4);
    let shield_mate = board.place_piece(fighter(0, true), 4, 5);
    let e1 = board.place_piece(fighter(1, true), 4, 6);
    board.push_event(BoardEvent::Cell { x: 4, y: 4 });
    board.push_event(BoardEvent::Cell { x: 4, y: 4 });
    let s1 = step(GameState::Placement, &mut board);
    let _s2 = step(s1, &mut board);
    assert!(!board.piece(e1).dying);
    assert!(!board.piece(shield_mate).dying);
}

#[test]
fn selecting_an_enemy_piece_does_nothing_in_placement() {
    let mut board = Board::new(8, 8, 2);
    let _b = board.place_piece(fighter(1, true), 2, 4);
    board.push_event(BoardEvent::Cell { x: 2, y: 4 });
    let s1 = step(GameState::Placement, &mut board);
    assert!(matches!(s1, GameState::Placement));
}

#[test]
fn clicking_the_selected_piece_without_power_does_nothing() {
    let mut board = Board::new(8, 8, 2);
    let a = board.place_piece(fighter(0, true), 2, 2);
    board.push_event(BoardEvent::Cell { x: 2, y: 2 });
    board.push_event(BoardEvent::Cell { x: 2, y: 2 });
    let s1 = step(GameState::Placement, &mut board);
    let s2 = step(s1, &mut board);
    match s2 {
        GameState::Movement(st) => assert_eq!(st.piece, a),
        _ => panic!("expected the selection to stand"),
    }
    assert!(board.piece(a).exhaustion.can_move());
}
