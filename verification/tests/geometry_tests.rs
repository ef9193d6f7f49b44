use gridrules::board::Board;
use gridrules::geometry::Direction;
use gridrules::geometry::Range;
use gridrules::piece::Exhaustion;
use gridrules::piece::ExhaustionStrategy;
use gridrules::piece::Piece;
use gridrules::piece::PieceKind;
use gridrules::piece::TurnInto;

fn plain_piece(team: usize) -> Piece {
    Piece {
        attack: true,
        pierce: true,
        shield: false,
        movement: None,
        activatable: None,
        dying: false,
        exhaustion: Exhaustion::new_rested(ExhaustionStrategy::Either),
        team_id: team,
        exists: true,
    }
}

#[test]
fn reaches_respects_shape_and_steps() {
    let straight = Range::new(Direction::Straight, 3);
    assert!(straight.reaches(2, 2, 2, 5));
    assert!(straight.reaches(2, 2, 5, 2));
    assert!(!straight.reaches(2, 2, 2, 6));
    assert!(!straight.reaches(2, 2, 3, 3));

    let diagonal = Range::new(Direction::Diagonal, 2);
    assert!(diagonal.reaches(0, 0, 2, 2));
    assert!(diagonal.reaches(4, 4, 2, 6));
    assert!(!diagonal.reaches(0, 0, 1, 2));
    assert!(!diagonal.reaches(0, 0, 3, 3));

    let vertical = Range::new(Direction::Vertical, 1);
    assert!(vertical.reaches(7, 7, 7, 8));
    assert!(!vertical.reaches(7, 7, 8, 7));

    let horizontal = Range::new(Direction::Horizontal, 1);
    assert!(horizontal.reaches(7, 7, 8, 7));
    assert!(!horizontal.reaches(7, 7, 7, 8));

    let star = Range::new(Direction::Star, 2);
    assert!(star.reaches(4, 4, 6, 6));
    assert!(star.reaches(4, 4, 4, 2));
    assert!(!star.reaches(4, 4, 5, 6));

    let anywhere = Range::anywhere();
    assert!(anywhere.reaches(0, 0, 255, 255));
}

#[test]
fn reaches_includes_origin() {
    assert!(Range::new(Direction::Vertical, 0).reaches(5, 5, 5, 5));
    assert!(Range::new_unlimited(Direction::Diagonal).reaches(5, 5, 5, 5));
}

#[test]
fn direction_step_vectors() {
    assert_eq!(Direction::Vertical.paths(), vec![(0, 1), (0, -1)]);
    assert_eq!(Direction::Horizontal.paths(), vec![(1, 0), (-1, 0)]);
    assert_eq!(
        Direction::Diagonal.paths(),
        vec![(1, 1), (-1, -1), (1, -1), (-1, 1)]
    );
    assert_eq!(
        Direction::Straight.paths(),
        vec![(1, 0), (-1, 0), (0, 1), (0, -1)]
    );
    assert_eq!(Direction::Star.paths().len(), 8);
    assert_eq!(Direction::Anywhere.paths().len(), 0);
}

#[test]
fn paths_walk_outward_per_ray() {
    let r = Range::new(Direction::Vertical, 2);
    let rays = r.paths(3, 3);
    assert_eq!(rays.len(), 2);
    assert_eq!(rays[0], vec![(3, 4), (3, 5)]);
    assert_eq!(rays[1], vec![(3, 2), (3, 1)]);
}

#[test]
fn paths_append_origin_when_include_self() {
    let r = Range {
        direction: Direction::Horizontal,
        steps: 1,
        jumps: false,
        include_self: true,
    };
    let rays = r.paths(4, 4);
    assert_eq!(rays.len(), 3);
    assert_eq!(rays[2], vec![(4, 4)]);
}

#[test]
fn paths_may_leave_the_coordinate_range() {
    let r = Range::new(Direction::Straight, 2);
    let rays = r.paths(0, 0);
    assert_eq!(rays[1], vec![(-1, 0), (-2, 0)]);
}

#[test]
fn anywhere_paths_enumerate_the_block() {
    let rays = Range::anywhere().paths(9, 9);
    assert_eq!(rays.len(), 255);
    assert_eq!(rays[0].len(), 255);
    assert_eq!(rays[0][0], (0, 0));
    assert_eq!(rays[254][254], (254, 254));
}

#[test]
fn walk_stops_at_first_occupied_without_jumps() {
    let mut board = Board::new(8, 8, 2);
    board.place_piece(plain_piece(1), 0, 2);
    let r = Range::new(Direction::Vertical, 5);
    let cells = r.visited_cells(0, 0, &board);
    assert_eq!(cells, vec![(0, 1), (0, 2)]);
}

#[test]
fn walk_visits_every_cell_with_jumps() {
    let mut board = Board::new(8, 8, 2);
    board.place_piece(plain_piece(1), 0, 2);
    let r = Range {
        direction: Direction::Vertical,
        steps: 5,
        jumps: true,
        include_self: false,
    };
    let cells = r.visited_cells(0, 0, &board);
    assert_eq!(cells, vec![(0, 1), (0, 2), (0, 3), (0, 4), (0, 5)]);
}

#[test]
fn walk_stops_at_the_board_edge() {
    let board = Board::new(4, 4, 2);
    let r = Range::new(Direction::Horizontal, 200);
    let cells = r.visited_cells(1, 1, &board);
    assert_eq!(cells, vec![(2, 1), (3, 1), (0, 1)]);
}

#[test]
fn area_walk_stops_at_protected_cells() {
    let mut board = Board::new(8, 8, 2);
    board.set_protected(0, 2, true);
    let r = Range::new(Direction::Vertical, 4);
    let cells = r.area_cells(0, 0, &board);
    assert_eq!(cells, vec![(0, 1)]);
}

#[test]
fn range_constructors_fix_the_flags() {
    let r = Range::new(Direction::Star, 7);
    assert_eq!(r.direction, Direction::Star);
    assert_eq!(r.steps, 7);
    assert!(!r.jumps);
    assert!(!r.include_self);

    let u = Range::new_unlimited(Direction::Vertical);
    assert_eq!(u.steps, 255);
    assert!(!u.jumps);

    let a = Range::anywhere();
    assert_eq!(a.direction, Direction::Anywhere);
    assert_eq!(a.steps, 255);
    assert!(a.jumps);
    assert!(!a.include_self);
}

#[test]
fn anywhere_walk_covers_the_whole_board() {
    let mut board = Board::new(3, 3, 2);
    board.place_piece(plain_piece(1), 1, 1);
    let cells = Range::anywhere().visited_cells(1, 1, &board);
    assert_eq!(cells.len(), 9);
    for x in 0..3u8 {
        for y in 0..3u8 {
            assert!(cells.contains(&(x, y)));
        }
    }
}

#[test]
fn turn_into_carries_a_piece_kind() {
    let t = TurnInto { kind: PieceKind::Queen };
    assert!(matches!(t.kind, PieceKind::Queen));
    let kinds = [
        PieceKind::Simple,
        PieceKind::HorizontalBar,
        PieceKind::VerticalBar,
        PieceKind::Cross,
        PieceKind::Queen,
        PieceKind::Castle,
        PieceKind::Sniper,
    ];
    assert_eq!(kinds.len(), 7);
}
