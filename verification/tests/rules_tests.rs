use gridrules::board::Board;
use gridrules::geometry::Direction;
use gridrules::geometry::Range;
use gridrules::piece::Effect;
use gridrules::piece::EffectKind;
use gridrules::piece::Exhaustion;
use gridrules::piece::ExhaustionStrategy;
use gridrules::piece::Move;
use gridrules::piece::Piece;
use gridrules::rules::is_possible_special_target_of;
use gridrules::rules::is_possible_target_of;
use gridrules::target_highlighter::HighlightType;
use gridrules::target_highlighter::TargetHighlightingSystem;

fn mover(team: usize, attack: bool) -> Piece {
    Piece {
        attack,
        pierce: true,
        shield: false,
        movement: Some(Move::new(Direction::Straight, 2)),
        activatable: None,
        dying: false,
        exhaustion: Exhaustion::new_rested(ExhaustionStrategy::Both),
        team_id: team,
        exists: true,
    }
}

#[test]
fn possible_targets_follow_the_movement_walk() {
    let mut board = Board::new(8, 8, 2);
    let a = board.place_piece(mover(0, true), 3, 3);
    let b = board.place_piece(mover(1, true), 3, 5);

    assert!(is_possible_target_of(&board, a, 3, 4));
    assert!(is_possible_target_of(&board, a, 3, 5));
    assert!(is_possible_target_of(&board, a, 1, 3));
    assert!(!is_possible_target_of(&board, a, 3, 6));
    assert!(!is_possible_target_of(&board, a, 4, 4));
    assert!(!is_possible_target_of(&board, b, 3, 2));
    assert!(is_possible_target_of(&board, b, 3, 4));
    assert!(is_possible_target_of(&board, b, 3, 3));
}

#[test]
fn occupied_targets_need_the_attack_capability() {
    let mut board = Board::new(8, 8, 2);
    let a = board.place_piece(mover(0, false), 3, 3);
    let _b = board.place_piece(mover(1, true), 3, 5);
    assert!(is_possible_target_of(&board, a, 3, 4));
    assert!(!is_possible_target_of(&board, a, 3, 5));
}

#[test]
fn special_targets_follow_the_power_range() {
    let mut board = Board::new(8, 8, 2);
    let a = board.place_piece(
        Piece {
            activatable: Some(gridrules::piece::ActivatablePower {
                kind: gridrules::piece::Power::Blast,
                range: Range::new(Direction::Diagonal, 2),
            }),
            ..mover(0, true)
        },
        3,
        3,
    );
    assert!(is_possible_special_target_of(&board, a, 5, 5));
    assert!(is_possible_special_target_of(&board, a, 1, 1));
    assert!(!is_possible_special_target_of(&board, a, 3, 5));
    assert!(!is_possible_target_of(&board, a, 5, 5));
}

#[test]
fn protection_markers_follow_the_effects() {
    let mut board = Board::new(8, 8, 2);
    let effects = vec![(
        0u8,
        0u8,
        Effect {
            kind: EffectKind::Protection,
            range: Range::new(Direction::Straight, 2),
        },
    )];
    board.update_protection(&effects);
    assert!(board.is_protected(0, 0));
    assert!(board.is_protected(0, 1));
    assert!(board.is_protected(0, 2));
    assert!(board.is_protected(2, 0));
    assert!(!board.is_protected(0, 3));
    assert!(!board.is_protected(1, 1));

    board.update_protection(&Vec::new());
    assert!(!board.is_protected(0, 0));
}

#[test]
fn highlights_mark_selection_targets_and_protection() {
    let mut board = Board::new(6, 6, 2);
    let _a = board.place_piece(mover(0, true), 2, 2);
    board.set_protected(5, 5, true);

    let marks = TargetHighlightingSystem::run(&board, Some((2, 2)), Some((4, 4)));
    assert_eq!(marks.len(), 36);

    let at = |x: usize, y: usize| -> &Vec<HighlightType> { &marks[y * 6 + x] };
    assert_eq!(at(2, 2), &vec![HighlightType::Selected]);
    assert_eq!(at(4, 4), &vec![HighlightType::Hovered]);
    assert_eq!(at(2, 3), &vec![HighlightType::TargetOfSelected]);
    assert_eq!(at(5, 5), &vec![HighlightType::Protected]);
    assert_eq!(at(3, 3), &Vec::new());
}

#[test]
fn hovered_piece_targets_are_marked() {
    let mut board = Board::new(6, 6, 2);
    let _a = board.place_piece(mover(0, true), 2, 2);
    let _b = board.place_piece(mover(1, true), 0, 0);
    let marks = TargetHighlightingSystem::run(&board, None, Some((0, 0)));
    let at = |x: usize, y: usize| -> &Vec<HighlightType> { &marks[y * 6 + x] };
    assert_eq!(at(0, 1), &vec![HighlightType::TargetOfHovered]);
    assert_eq!(at(0, 0), &vec![HighlightType::Hovered]);
}
