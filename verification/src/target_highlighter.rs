//! Highlight computation for the presentation layer: which marker
//! list each cell gets, derived from the current selection, hover and
//! targeting rules.  Output only — the rules never read it back.

use vstd::prelude::*;

use crate::board::Board;
use crate::board::lemma_cell_index_bound;
use crate::board::lemma_cell_index_injective;
use crate::rules::spec_possible_special_target;
use crate::rules::spec_possible_target;
use crate::rules::is_possible_special_target_of;
use crate::rules::is_possible_target_of;

verus! {

/// The markers a cell can carry for rendering.
#[derive(Debug, PartialEq, Eq, Copy, Clone, Structural)]
pub enum HighlightType {
    Selected,
    Hovered,
    TargetOfSelected,
    TargetOfHovered,
    Protected,
}

/// The occupant of the selected or hovered cell, if any.
pub open spec fn spec_marker_piece(b: Board, cell: Option<(u8, u8)>) -> Option<usize> {
    match cell {
        Some(c) => b.piece_at(c.0 as int, c.1 as int),
        None => None,
    }
}

/// The marker list of one cell: the selection marker (selection wins
/// over hover), then a target-of-selected marker, a target-of-hovered
/// marker, and the protection marker, in that order.
pub open spec fn spec_highlights_cell(
    b: Board,
    sel: Option<(u8, u8)>,
    hov: Option<(u8, u8)>,
    x: int,
    y: int,
) -> Seq<HighlightType> {
    let base = if sel == Some((x as u8, y as u8)) {
        seq![HighlightType::Selected]
    } else if hov == Some((x as u8, y as u8)) {
        seq![HighlightType::Hovered]
    } else {
        Seq::empty()
    };
    let s = spec_marker_piece(b, sel);
    let h = spec_marker_piece(b, hov);
    let t1 = if s is Some && (spec_possible_target(b, s->0 as int, x, y)
        || spec_possible_special_target(b, s->0 as int, x, y)) {
        seq![HighlightType::TargetOfSelected]
    } else {
        Seq::empty()
    };
    let t2 = if h is Some && (spec_possible_target(b, h->0 as int, x, y)
        || spec_possible_special_target(b, h->0 as int, x, y)) {
        seq![HighlightType::TargetOfHovered]
    } else {
        Seq::empty()
    };
    let t3 = if b.protected_at(x, y) {
        seq![HighlightType::Protected]
    } else {
        Seq::empty()
    };
    base + t1 + t2 + t3
}

/// Recomputes every cell's highlight markers from the board, the
/// selected cell and the hovered cell.
pub struct TargetHighlightingSystem;

impl TargetHighlightingSystem {
    /// The marker lists of all cells, row-major as the board's grid.
    pub fn run(board: &Board, selected: Option<(u8, u8)>, hovered: Option<(u8, u8)>) -> (out: Vec<
        Vec<HighlightType>,
    >)
        requires
            board.wf(),
        ensures
            out@.len() == board.grid().len(),
            forall|x: int, y: int|
                board.on_board(x, y) ==> (#[trigger] out@[board.cell_index(x, y)])@
                    == spec_highlights_cell(*board, selected, hovered, x, y),
    {
        let s: Option<usize> = match selected {
            Some((sx, sy)) => board.get_piece(sx, sy),
            None => None,
        };
        let h: Option<usize> = match hovered {
            Some((hx, hy)) => board.get_piece(hx, hy),
            None => None,
        };
        proof {
            if s is Some {
                let c = selected->0;
                lemma_cell_index_bound(
                    board.spec_width(),
                    board.spec_height(),
                    c.0 as int,
                    c.1 as int,
                );
                assert(board.cell_ok(board.cell_index(c.0 as int, c.1 as int)));
            }
            if h is Some {
                let c = hovered->0;
                lemma_cell_index_bound(
                    board.spec_width(),
                    board.spec_height(),
                    c.0 as int,
                    c.1 as int,
                );
                assert(board.cell_ok(board.cell_index(c.0 as int, c.1 as int)));
            }
        }
        let width = board.board_width();
        let height = board.board_height();
        let mut out: Vec<Vec<HighlightType>> = Vec::new();
        let mut y: u8 = 0;
        while y < height
            invariant
                board.wf(),
                width as int == board.spec_width(),
                height as int == board.spec_height(),
                s == spec_marker_piece(*board, selected),
                h == spec_marker_piece(*board, hovered),
                s is Some ==> (s->0 as int) < board.piece_list().len(),
                h is Some ==> (h->0 as int) < board.piece_list().len(),
                y <= height,
                out@.len() == y as int * width as int,
                forall|xx: int, yy: int|
                    board.on_board(xx, yy) && yy < y as int ==> (#[trigger] out@[board.cell_index(
                        xx,
                        yy,
                    )])@ == spec_highlights_cell(*board, selected, hovered, xx, yy),
            decreases height as int - y as int,
        {
            proof {
                assert forall|xx: int, yy: int|
                    board.on_board(xx, yy) && board.cell_index(xx, yy)
                        < out@.len() implies (#[trigger] out@[board.cell_index(xx, yy)])@
                    == spec_highlights_cell(*board, selected, hovered, xx, yy) by {
                    assert(yy < y as int) by (nonlinear_arith)
                        requires
                            0 <= xx < board.spec_width(),
                            0 <= yy,
                            yy * board.spec_width() + xx < y as int * board.spec_width(),
                    ;
                }
            }
            let mut x: u8 = 0;
            while x < width
                invariant
                    board.wf(),
                    width as int == board.spec_width(),
                    height as int == board.spec_height(),
                    s == spec_marker_piece(*board, selected),
                    h == spec_marker_piece(*board, hovered),
                    s is Some ==> (s->0 as int) < board.piece_list().len(),
                    h is Some ==> (h->0 as int) < board.piece_list().len(),
                    y < height,
                    x <= width,
                    out@.len() == y as int * width as int + x as int,
                    forall|xx: int, yy: int|
                        board.on_board(xx, yy) && board.cell_index(xx, yy) < out@.len() ==> (
                        #[trigger] out@[board.cell_index(xx, yy)])@ == spec_highlights_cell(
                            *board,
                            selected,
                            hovered,
                            xx,
                            yy,
                        ),
                decreases width as int - x as int,
            {
                let mut marks: Vec<HighlightType> = Vec::new();
                let is_sel = match selected {
                    Some((sx, sy)) => sx == x && sy == y,
                    None => false,
                };
                let is_hov = match hovered {
                    Some((hx, hy)) => hx == x && hy == y,
                    None => false,
                };
                if is_sel {
                    marks.push(HighlightType::Selected);
                } else if is_hov {
                    marks.push(HighlightType::Hovered);
                }
                if let Some(sp) = s {
                    if is_possible_target_of(board, sp, x, y) || is_possible_special_target_of(
                        board,
                        sp,
                        x,
                        y,
                    ) {
                        marks.push(HighlightType::TargetOfSelected);
                    }
                }
                if let Some(hp) = h {
                    if is_possible_target_of(board, hp, x, y) || is_possible_special_target_of(
                        board,
                        hp,
                        x,
                        y,
                    ) {
                        marks.push(HighlightType::TargetOfHovered);
                    }
                }
                if board.is_protected(x, y) {
                    marks.push(HighlightType::Protected);
                }
                proof {
                    assert(marks@ =~= spec_highlights_cell(
                        *board,
                        selected,
                        hovered,
                        x as int,
                        y as int,
                    ));
                    lemma_cell_index_bound(
                        board.spec_width(),
                        board.spec_height(),
                        x as int,
                        y as int,
                    );
                }
                out.push(marks);
                proof {
                    assert forall|xx: int, yy: int|
                        board.on_board(xx, yy) && board.cell_index(xx, yy)
                            < out@.len() implies (#[trigger] out@[board.cell_index(xx, yy)])@
                        == spec_highlights_cell(*board, selected, hovered, xx, yy) by {
                        lemma_cell_index_bound(board.spec_width(), board.spec_height(), xx, yy);
                        if board.cell_index(xx, yy) == out@.len() - 1 {
                            lemma_cell_index_injective(
                                board.spec_width(),
                                xx,
                                yy,
                                x as int,
                                y as int,
                            );
                        }
                    }
                }
                x = x + 1;
            }
            y = y + 1;
            proof {
                assert(y as int * width as int == (y as int - 1) * width as int + width as int)
                    by (nonlinear_arith);
                assert forall|xx: int, yy: int|
                    board.on_board(xx, yy) && yy < y as int implies (#[trigger] out@[board.cell_index(
                    xx,
                    yy,
                )])@ == spec_highlights_cell(*board, selected, hovered, xx, yy) by {
                    lemma_cell_index_bound(board.spec_width(), board.spec_height(), xx, yy);
                    assert(board.cell_index(xx, yy) < out@.len()) by (nonlinear_arith)
                        requires
                            0 <= xx < board.spec_width(),
                            0 <= yy < y as int,
                            out@.len() == y as int * board.spec_width(),
                    ;
                }
            }
        }
        proof {
            assert(out@.len() == board.grid().len()) by (nonlinear_arith)
                requires
                    out@.len() == height as int * width as int,
                    board.grid().len() == board.spec_height() * board.spec_width(),
                    width as int == board.spec_width(),
                    height as int == board.spec_height(),
            ;
            assert forall|x: int, y: int| board.on_board(x, y) implies (#[trigger] out@[board.cell_index(
                x,
                y,
            )])@ == spec_highlights_cell(*board, selected, hovered, x, y) by {}
        }
        out
    }
}

} // verus!
