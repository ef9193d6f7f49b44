//! The turn/selection state machine: it drains board events and
//! drives moves, attacks, special powers and turn changes.
//!
//! One event is dequeued and fully resolved before the next is
//! considered.  Illegal input is a normal rejected transition back to
//! placement, never a fault.

use vstd::prelude::*;

use crate::board::Board;
use crate::board::BoardEvent;
use crate::board::handle_is;
use crate::board::lemma_cell_index_bound;
use crate::piece::ActivatablePower;
use crate::piece::Piece;
use crate::piece::Power;
use crate::piece::lemma_on_attack_idempotent;
use crate::rules::is_possible_target_of;
use crate::rules::coords_view;
use crate::rules::lemma_area_congruence;
use crate::rules::lemma_targets_congruence;
use crate::rules::lemma_walk_upto_on_board;
use crate::rules::spec_area;
use crate::rules::spec_possible_target;
use crate::geometry::range_reaches;
use crate::geometry::rays;

verus! {

/// A friendly piece is selected and the machine waits for its
/// destination, target, or power trigger.
#[derive(Debug, PartialEq, Eq, Copy, Clone, Structural)]
pub struct PieceMovementState {
    pub from_x: u8,
    pub from_y: u8,
    pub piece: usize,
}

/// A ranged special power is armed and the machine waits for its
/// target cell.
#[derive(Debug, PartialEq, Eq, Copy, Clone, Structural)]
pub struct TargetForPowerState {
    pub from_x: u8,
    pub from_y: u8,
    pub piece: usize,
}

/// No piece is selected; the machine waits for a cell that holds a
/// friendly piece.
#[derive(Debug, PartialEq, Eq, Copy, Clone, Structural)]
pub struct PiecePlacementState;

/// Where the machine goes after resolving one event.
#[derive(Debug, PartialEq, Eq, Copy, Clone, Structural)]
pub enum Transition {
    Stay,
    ToPlacement,
    ToMovement(PieceMovementState),
    ToPowerTargeting(TargetForPowerState),
    ToNextTurn,
}

/// Everything the rules read is unchanged between two boards; the
/// event queue is not constrained.
pub open spec fn unchanged_core(a: Board, b: Board) -> bool {
    &&& b.spec_width() == a.spec_width()
    &&& b.spec_height() == a.spec_height()
    &&& b.team_count() == a.team_count()
    &&& b.turn() == a.turn()
    &&& b.protected_list() == a.protected_list()
    &&& b.grid() == a.grid()
    &&& b.piece_list() == a.piece_list()
    &&& b.pos_list() == a.pos_list()
}

/// Two boards are indistinguishable to the rules and the queue.
pub open spec fn same_all(a: Board, b: Board) -> bool {
    unchanged_core(a, b) && b.event_list() == a.event_list()
}

/// The board after a legal move of the selected piece to `(x, y)`:
/// an enemy standing there is marked dying and loses its place, the
/// mover consumes its move action and relocates.
pub open spec fn spec_move_resolved(
    a: Board,
    b: Board,
    st: PieceMovementState,
    x: int,
    y: int,
) -> bool {
    let fi = a.cell_index(st.from_x as int, st.from_y as int);
    let ti = a.cell_index(x, y);
    &&& b.spec_width() == a.spec_width()
    &&& b.spec_height() == a.spec_height()
    &&& b.team_count() == a.team_count()
    &&& b.turn() == a.turn()
    &&& b.protected_list() == a.protected_list()
    &&& b.grid() == a.grid().update(fi, None).update(ti, Some(st.piece))
    &&& b.pos_list().len() == a.pos_list().len()
    &&& forall|q: int|
        0 <= q < a.pos_list().len() ==> #[trigger] b.pos_list()[q] == (if q == st.piece as int {
            Some((x as u8, y as u8))
        } else if handle_is(a.piece_at(x, y), q) {
            None::<(u8, u8)>
        } else {
            a.pos_list()[q]
        })
    &&& b.piece_list().len() == a.piece_list().len()
    &&& forall|q: int|
        0 <= q < a.piece_list().len() ==> #[trigger] b.piece_list()[q] == (if q
            == st.piece as int {
            Piece {
                exhaustion: a.piece_list()[q].exhaustion.spec_on_move(),
                ..a.piece_list()[q]
            }
        } else if handle_is(a.piece_at(x, y), q) {
            Piece { dying: true, ..a.piece_list()[q] }
        } else {
            a.piece_list()[q]
        })
}

/// Is the piece behind handle `q` hit by an area power resolving over
/// the cells `cs`?  It must stand on a resolved cell and belong to
/// another team than the acting one.
pub open spec fn blast_victim(a: Board, q: int, cs: Seq<(int, int)>) -> bool {
    &&& 0 <= q < a.piece_list().len()
    &&& q < a.pos_list().len()
    &&& match a.pos_list()[q] {
        Some(pos) => cs.contains((pos.0 as int, pos.1 as int)),
        None => false,
    }
    &&& a.piece_list()[q].team_id as int != a.turn()
}

/// Did the area power hit anyone at all?  Only then does the acting
/// piece consume its special action.
pub open spec fn any_blast_victim(a: Board, cs: Seq<(int, int)>) -> bool {
    exists|q: int| blast_victim(a, q, cs)
}

/// One piece record after an area power over the cells `cs`: victims
/// are marked dying, and the acting piece consumes its special action
/// when anyone was hit.
pub open spec fn blast_result_piece(
    a: Board,
    st: PieceMovementState,
    cs: Seq<(int, int)>,
    any: bool,
    q: int,
) -> Piece {
    let p0 = a.piece_list()[q];
    let p1 = if blast_victim(a, q, cs) {
        Piece { dying: true, ..p0 }
    } else {
        p0
    };
    if q == st.piece as int && any {
        Piece { exhaustion: p1.exhaustion.spec_on_attack(), ..p1 }
    } else {
        p1
    }
}

/// The board after a blast from `(x, y)`: every enemy on a resolved
/// cell of the power's area walk is marked dying; occupancy,
/// positions and protection are untouched.
pub open spec fn spec_blast_applied(
    a: Board,
    b: Board,
    st: PieceMovementState,
    x: int,
    y: int,
    power: ActivatablePower,
) -> bool {
    let cs = spec_area(a, power.range, x, y);
    let any = any_blast_victim(a, cs);
    &&& b.spec_width() == a.spec_width()
    &&& b.spec_height() == a.spec_height()
    &&& b.team_count() == a.team_count()
    &&& b.turn() == a.turn()
    &&& b.protected_list() == a.protected_list()
    &&& b.grid() == a.grid()
    &&& b.pos_list() == a.pos_list()
    &&& b.piece_list().len() == a.piece_list().len()
    &&& forall|q: int|
        0 <= q < a.piece_list().len() ==> #[trigger] b.piece_list()[q] == blast_result_piece(
            a,
            st,
            cs,
            any,
            q,
        )
}

/// The outcome of activating a cell that holds a friendly piece: the
/// selected piece itself triggers its power (a blast resolves at
/// once, a targeted shot arms power targeting, no power does
/// nothing), any other friendly piece is re-selected at no cost.
pub open spec fn spec_own_piece_outcome(
    a: Board,
    b: Board,
    st: PieceMovementState,
    x: int,
    y: int,
    q: usize,
    t: Transition,
) -> bool {
    if q == st.piece {
        match a.piece_list()[q as int].activatable {
            Some(power) => match power.kind {
                Power::Blast => spec_blast_applied(a, b, st, x, y, power) && t
                    == Transition::ToPlacement,
                Power::TargetedShoot => unchanged_core(a, b) && t == Transition::ToPowerTargeting(
                    TargetForPowerState {
                        from_x: st.from_x,
                        from_y: st.from_y,
                        piece: st.piece,
                    },
                ),
            },
            None => unchanged_core(a, b) && t == Transition::Stay,
        }
    } else {
        unchanged_core(a, b) && t == Transition::ToMovement(
            PieceMovementState { from_x: x as u8, from_y: y as u8, piece: q },
        )
    }
}

/// The outcome of a cell activation while a piece is selected: a
/// friendly occupant is handled by `spec_own_piece_outcome`; an
/// illegal destination (enemy occupant without the attack capability,
/// or a cell the movement walk does not reach) rejects back to
/// placement with no mutation; otherwise the move resolves.
pub open spec fn spec_cell_outcome(
    a: Board,
    b: Board,
    st: PieceMovementState,
    x: int,
    y: int,
    t: Transition,
) -> bool {
    let target = a.piece_at(x, y);
    if target is Some && a.piece_list()[target->0 as int].team_id as int == a.turn() {
        spec_own_piece_outcome(a, b, st, x, y, target->0, t)
    } else if (target is Some && !a.piece_list()[st.piece as int].attack)
        || !spec_possible_target(a, st.piece as int, x, y) {
        unchanged_core(a, b) && t == Transition::ToPlacement
    } else {
        spec_move_resolved(a, b, st, x, y) && t == Transition::ToPlacement
    }
}

/// One update of the movement state: nothing happens without an
/// event; `Next` hands over to the turn change; a cell event is
/// resolved by `spec_cell_outcome`.
pub open spec fn spec_movement_step(
    a: Board,
    b: Board,
    st: PieceMovementState,
    t: Transition,
) -> bool {
    if a.event_list().len() == 0 {
        same_all(a, b) && t == Transition::Stay
    } else {
        b.event_list() == a.event_list().drop_first() && match a.event_list()[0] {
            BoardEvent::Next => unchanged_core(a, b) && t == Transition::ToNextTurn,
            BoardEvent::Cell { x, y } => spec_cell_outcome(a, b, st, x as int, y as int, t),
        }
    }
}

/// The outcome of a targeted shot at `(x, y)`: the victim is marked
/// dying and the shooter consumes its special action; nothing else
/// changes.
pub open spec fn spec_shot_applied(
    a: Board,
    b: Board,
    st: TargetForPowerState,
    victim: int,
) -> bool {
    &&& b.spec_width() == a.spec_width()
    &&& b.spec_height() == a.spec_height()
    &&& b.team_count() == a.team_count()
    &&& b.turn() == a.turn()
    &&& b.protected_list() == a.protected_list()
    &&& b.grid() == a.grid()
    &&& b.pos_list() == a.pos_list()
    &&& b.piece_list().len() == a.piece_list().len()
    &&& forall|q: int|
        0 <= q < a.piece_list().len() ==> #[trigger] b.piece_list()[q] == (if q == victim {
            Piece { dying: true, ..a.piece_list()[q] }
        } else if q == st.piece as int {
            Piece {
                exhaustion: a.piece_list()[q].exhaustion.spec_on_attack(),
                ..a.piece_list()[q]
            }
        } else {
            a.piece_list()[q]
        })
}

/// One update of the power-targeting state: `Next` still changes the
/// turn; a cell holding an enemy within the armed power's reach is
/// shot; anything else rejects back to placement with no mutation.
pub open spec fn spec_power_target_step(
    a: Board,
    b: Board,
    st: TargetForPowerState,
    t: Transition,
) -> bool {
    if a.event_list().len() == 0 {
        same_all(a, b) && t == Transition::Stay
    } else {
        b.event_list() == a.event_list().drop_first() && match a.event_list()[0] {
            BoardEvent::Next => unchanged_core(a, b) && t == Transition::ToNextTurn,
            BoardEvent::Cell { x, y } => {
                let target = a.piece_at(x as int, y as int);
                let legal = match (a.piece_list()[st.piece as int].activatable, target) {
                    (Some(power), Some(v)) => range_reaches(
                        power.range,
                        st.from_x as int,
                        st.from_y as int,
                        x as int,
                        y as int,
                    ) && a.piece_list()[v as int].team_id as int != a.turn(),
                    _ => false,
                };
                if legal {
                    spec_shot_applied(a, b, st, target->0 as int) && t == Transition::ToPlacement
                } else {
                    unchanged_core(a, b) && t == Transition::ToPlacement
                }
            },
        }
    }
}

/// One update of the placement state: a cell holding a piece of the
/// active team selects it for movement; anything else is ignored.
pub open spec fn spec_placement_step(a: Board, b: Board, t: Transition) -> bool {
    if a.event_list().len() == 0 {
        same_all(a, b) && t == Transition::Stay
    } else {
        b.event_list() == a.event_list().drop_first() && unchanged_core(a, b) && match a
            .event_list()[0] {
            BoardEvent::Next => t == Transition::ToNextTurn,
            BoardEvent::Cell { x, y } => {
                let target = a.piece_at(x as int, y as int);
                if target is Some && a.piece_list()[target->0 as int].team_id as int == a.turn() {
                    t == Transition::ToMovement(
                        PieceMovementState { from_x: x, from_y: y, piece: target->0 },
                    )
                } else {
                    t == Transition::Stay
                }
            },
        }
    }
}

impl TargetForPowerState {
    /// The armed piece is a live handle of the active team.
    pub open spec fn valid_for(&self, b: Board) -> bool {
        &&& (self.piece as int) < b.piece_list().len()
        &&& b.piece_list()[self.piece as int].team_id as int == b.turn()
    }

    /// Drain one event and resolve it; see `spec_power_target_step`.
    pub fn update(&self, board: &mut Board) -> (t: Transition)
        requires
            old(board).wf(),
            self.valid_for(*old(board)),
        ensures
            final(board).wf(),
            spec_power_target_step(*old(board), *final(board), *self, t),
            t == Transition::Stay ==> unchanged_core(*old(board), *final(board)),
    {
        match board.poll_event() {
            None => Transition::Stay,
            Some(BoardEvent::Next) => Transition::ToNextTurn,
            Some(BoardEvent::Cell { x, y }) => {
                let target = board.get_piece(x, y);
                let p = board.piece(self.piece);
                if let (Some(power), Some(v)) = (p.activatable, target) {
                    proof {
                        lemma_cell_index_bound(
                            board.spec_width(),
                            board.spec_height(),
                            x as int,
                            y as int,
                        );
                        assert(board.cell_ok(board.cell_index(x as int, y as int)));
                    }
                    if power.range.reaches(self.from_x, self.from_y, x, y) && board.piece(
                        v,
                    ).team_id != board.current_team().id {
                        board.mark_dying(v);
                        board.exhaust_attack(self.piece);
                    }
                }
                Transition::ToPlacement
            },
        }
    }
}

impl PiecePlacementState {
    /// Drain one event and resolve it; see `spec_placement_step`.
    pub fn update(&self, board: &mut Board) -> (t: Transition)
        requires
            old(board).wf(),
        ensures
            final(board).wf(),
            spec_placement_step(*old(board), *final(board), t),
            t matches Transition::ToMovement(st2) ==> st2.valid_for(*final(board)),
    {
        match board.poll_event() {
            None => Transition::Stay,
            Some(BoardEvent::Next) => Transition::ToNextTurn,
            Some(BoardEvent::Cell { x, y }) => {
                if let Some(q) = board.get_piece(x, y) {
                    proof {
                        lemma_cell_index_bound(
                            board.spec_width(),
                            board.spec_height(),
                            x as int,
                            y as int,
                        );
                        assert(board.cell_ok(board.cell_index(x as int, y as int)));
                    }
                    if board.piece(q).team_id == board.current_team().id {
                        return Transition::ToMovement(
                            PieceMovementState { from_x: x, from_y: y, piece: q },
                        );
                    }
                }
                Transition::Stay
            },
        }
    }
}

impl PieceMovementState {
    /// The selected piece is a live handle of the active team that
    /// stands where the state says it does.
    pub open spec fn valid_for(&self, b: Board) -> bool {
        &&& (self.piece as int) < b.piece_list().len()
        &&& b.piece_at(self.from_x as int, self.from_y as int) == Some(self.piece)
        &&& b.piece_list()[self.piece as int].team_id as int == b.turn()
    }

    /// Drain one event and resolve it; see `spec_movement_step`.
    pub fn update(&self, board: &mut Board) -> (t: Transition)
        requires
            old(board).wf(),
            self.valid_for(*old(board)),
        ensures
            final(board).wf(),
            spec_movement_step(*old(board), *final(board), *self, t),
            t == Transition::Stay ==> unchanged_core(*old(board), *final(board)),
            t matches Transition::ToMovement(st2) ==> st2.valid_for(*final(board)),
            t matches Transition::ToPowerTargeting(st2) ==> st2.valid_for(*final(board)),
    {
        match board.poll_event() {
            None => Transition::Stay,
            Some(BoardEvent::Next) => Transition::ToNextTurn,
            Some(BoardEvent::Cell { x, y }) => {
                let ghost m = *board;
                let t = self.handle_cell(x, y, board);
                proof {
                    let a = *old(board);
                    let b = *board;
                    lemma_targets_congruence(m, a, self.piece as int, x as int, y as int);
                    if m.piece_at(x as int, y as int) == Some(self.piece) {
                        match a.piece_list()[self.piece as int].activatable {
                            Some(power) => {
                                lemma_area_congruence(m, a, power.range, x as int, y as int);
                                let cs = spec_area(a, power.range, x as int, y as int);
                                assert(any_blast_victim(m, cs) == any_blast_victim(a, cs)) by {
                                    if any_blast_victim(m, cs) {
                                        let q = choose|q: int| blast_victim(m, q, cs);
                                        assert(blast_victim(a, q, cs));
                                    }
                                    if any_blast_victim(a, cs) {
                                        let q = choose|q: int| blast_victim(a, q, cs);
                                        assert(blast_victim(m, q, cs));
                                    }
                                }
                            },
                            None => {},
                        }
                    }
                    assert(spec_cell_outcome(a, b, *self, x as int, y as int, t));
                }
                t
            },
        }
    }

    /// Resolve one cell activation; see `spec_cell_outcome`.
    fn handle_cell(&self, x: u8, y: u8, board: &mut Board) -> (t: Transition)
        requires
            old(board).wf(),
            self.valid_for(*old(board)),
        ensures
            final(board).wf(),
            final(board).event_list() == old(board).event_list(),
            spec_cell_outcome(*old(board), *final(board), *self, x as int, y as int, t),
            t matches Transition::ToMovement(st2) ==> st2.valid_for(*final(board)),
            t matches Transition::ToPowerTargeting(st2) ==> st2.valid_for(*final(board)),
    {
        let target = board.get_piece(x, y);
        if let Some(q) = target {
            proof {
                lemma_cell_index_bound(
                    old(board).spec_width(),
                    old(board).spec_height(),
                    x as int,
                    y as int,
                );
                assert(old(board).cell_ok(old(board).cell_index(x as int, y as int)));
            }
            let qp = board.piece(q);
            if qp.team_id == board.current_team().id {
                return self.handle_own_piece_at_target(x, y, q, board);
            }
        }
        let invalid_attack = target.is_some() && !board.piece(self.piece).attack;
        let invalid_target_cell = !is_possible_target_of(board, self.piece, x, y);
        if invalid_attack || invalid_target_cell {
            return Transition::ToPlacement;
        }
        proof {
            let a = *old(board);
            let ppos = a.pos_list()[self.piece as int];
            lemma_cell_index_bound(
                a.spec_width(),
                a.spec_height(),
                self.from_x as int,
                self.from_y as int,
            );
            assert(a.cell_ok(a.cell_index(self.from_x as int, self.from_y as int)));
            assert(a.pos_ok(self.piece as int));
            let m = a.piece_list()[self.piece as int].movement->0;
            let pos = ppos->0;
            let cells = crate::rules::spec_visited(a, m.range, pos.0 as int, pos.1 as int);
            lemma_walk_upto_on_board(
                a,
                rays(m.range, pos.0 as int, pos.1 as int),
                m.range.jumps,
                false,
                rays(m.range, pos.0 as int, pos.1 as int).len() as int,
            );
            let j = choose|j: int| 0 <= j < cells.len() && cells[j] == (x as int, y as int);
            assert(a.on_board(x as int, y as int));
        }
        if let Some(victim) = target {
            board.mark_dying(victim);
        }
        board.exhaust_move(self.piece);
        board.move_piece(self.piece, self.from_x, self.from_y, x, y);
        Transition::ToPlacement
    }

    /// Resolve a cell activation on a friendly occupant; see
    /// `spec_own_piece_outcome`.
    fn handle_own_piece_at_target(
        &self,
        x: u8,
        y: u8,
        piece_at_target: usize,
        board: &mut Board,
    ) -> (t: Transition)
        requires
            old(board).wf(),
            self.valid_for(*old(board)),
            old(board).piece_at(x as int, y as int) == Some(piece_at_target),
            (piece_at_target as int) < old(board).piece_list().len(),
            old(board).piece_list()[piece_at_target as int].team_id as int == old(board).turn(),
        ensures
            final(board).wf(),
            final(board).event_list() == old(board).event_list(),
            spec_own_piece_outcome(
                *old(board),
                *final(board),
                *self,
                x as int,
                y as int,
                piece_at_target,
                t,
            ),
            t matches Transition::ToMovement(st2) ==> st2.valid_for(*final(board)),
            t matches Transition::ToPowerTargeting(st2) ==> st2.valid_for(*final(board)),
    {
        if self.piece == piece_at_target {
            let p = board.piece(self.piece);
            if let Some(power) = p.activatable {
                match power.kind {
                    Power::Blast => {
                        self.activate_blast(x, y, &power, board);
                        Transition::ToPlacement
                    },
                    Power::TargetedShoot => Transition::ToPowerTargeting(
                        TargetForPowerState {
                            from_x: self.from_x,
                            from_y: self.from_y,
                            piece: self.piece,
                        },
                    ),
                }
            } else {
                Transition::Stay
            }
        } else {
            Transition::ToMovement(
                PieceMovementState { from_x: x, from_y: y, piece: piece_at_target },
            )
        }
    }

    /// Resolve a blast centred on `(x, y)`: scan every cell of the
    /// power's area walk and mark each enemy found dying, consuming
    /// the acting piece's special action on the first hit.  A blast
    /// hits every unprotected enemy in range, it does not stop at the
    /// first.
    fn activate_blast(&self, x: u8, y: u8, power: &ActivatablePower, board: &mut Board)
        requires
            old(board).wf(),
            (self.piece as int) < old(board).piece_list().len(),
        ensures
            final(board).wf(),
            final(board).event_list() == old(board).event_list(),
            spec_blast_applied(*old(board), *final(board), *self, x as int, y as int, *power),
    {
        let ghost a = *old(board);
        let ghost cs = spec_area(a, power.range, x as int, y as int);
        proof {
            lemma_walk_upto_on_board(
                a,
                rays(power.range, x as int, y as int),
                power.range.jumps,
                true,
                rays(power.range, x as int, y as int).len() as int,
            );
            assert(forall|i: int|
                0 <= i < cs.len() ==> a.on_board((#[trigger] cs[i]).0, cs[i].1));
        }
        let cells = power.range.area_cells(x, y, board);
        let mut idx: usize = 0;
        proof {
            assert(cs.take(0) =~= Seq::<(int, int)>::empty());
            assert forall|q: int|
                0 <= q < a.piece_list().len() implies #[trigger] board.piece_list()[q]
                == blast_result_piece(a, *self, cs.take(0), any_blast_victim(a, cs.take(0)), q) by {
                assert(!blast_victim(a, q, cs.take(0)));
                assert(!any_blast_victim(a, cs.take(0)));
            }
        }
        while idx < cells.len()
            invariant
                board.wf(),
                a.wf(),
                idx as int <= cells@.len(),
                coords_view(cells@) == cs,
                forall|i: int| 0 <= i < cs.len() ==> a.on_board((#[trigger] cs[i]).0, cs[i].1),
                (self.piece as int) < a.piece_list().len(),
                board.spec_width() == a.spec_width(),
                board.spec_height() == a.spec_height(),
                board.team_count() == a.team_count(),
                board.turn() == a.turn(),
                board.protected_list() == a.protected_list(),
                board.grid() == a.grid(),
                board.pos_list() == a.pos_list(),
                board.event_list() == a.event_list(),
                board.piece_list().len() == a.piece_list().len(),
                forall|q: int|
                    0 <= q < a.piece_list().len() ==> #[trigger] board.piece_list()[q]
                        == blast_result_piece(
                        a,
                        *self,
                        cs.take(idx as int),
                        any_blast_victim(a, cs.take(idx as int)),
                        q,
                    ),
            decreases cells@.len() - idx as int,
        {
            let (cx, cy) = cells[idx];
            let ghost prev = cs.take(idx as int);
            let ghost cur = cs.take(idx as int + 1);
            proof {
                assert(cur =~= prev.push(cs[idx as int]));
                assert(cs[idx as int] == (cx as int, cy as int));
                assert forall|z: (int, int)| #[trigger] cur.contains(z) implies prev.contains(z)
                    || z == (cx as int, cy as int) by {
                    let j = choose|j: int| 0 <= j < cur.len() && cur[j] == z;
                    if j < prev.len() {
                        assert(prev[j] == z);
                    }
                }
                assert forall|z: (int, int)| prev.contains(z) implies cur.contains(z) by {
                    let j = choose|j: int| 0 <= j < prev.len() && prev[j] == z;
                    assert(cur[j] == z);
                }
                assert(cur.contains((cx as int, cy as int))) by {
                    assert(cur[prev.len() as int] == (cx as int, cy as int));
                }
            }
            let occupant = board.get_piece(cx, cy);
            let mut hit = false;
            if let Some(v) = occupant {
                proof {
                    lemma_cell_index_bound(a.spec_width(), a.spec_height(), cx as int, cy as int);
                    assert(a.cell_ok(a.cell_index(cx as int, cy as int)));
                }
                if board.piece(v).team_id != board.current_team().id {
                    board.mark_dying(v);
                    board.exhaust_attack(self.piece);
                    hit = true;
                    proof {
                        assert(a.pos_ok(v as int));
                        let pxy = a.pos_list()[v as int]->0;
                        crate::board::lemma_cell_index_injective(
                            a.spec_width(),
                            pxy.0 as int,
                            pxy.1 as int,
                            cx as int,
                            cy as int,
                        );
                    }
                }
            }
            proof {
                let anyp = any_blast_victim(a, prev);
                let anyc = any_blast_victim(a, cur);
                if hit {
                    let v = occupant->0;
                    assert(blast_victim(a, v as int, cur));
                    assert(anyc);
                    if anyp {
                        let q = choose|q: int| blast_victim(a, q, prev);
                        let pos = a.pos_list()[q]->0;
                        assert(prev.contains((pos.0 as int, pos.1 as int)));
                        assert(cur.contains((pos.0 as int, pos.1 as int)));
                        assert(blast_victim(a, q, cur));
                    }
                } else {
                    assert forall|q: int| blast_victim(a, q, cur) implies blast_victim(
                        a,
                        q,
                        prev,
                    ) by {
                        if 0 <= q < a.pos_list().len() && a.pos_list()[q] is Some {
                            let pos = a.pos_list()[q]->0;
                            if (pos.0 as int, pos.1 as int) == (cx as int, cy as int) {
                                assert(cs[idx as int] == (cx as int, cy as int));
                                assert(a.on_board(cx as int, cy as int));
                                lemma_cell_index_bound(
                                    a.spec_width(),
                                    a.spec_height(),
                                    cx as int,
                                    cy as int,
                                );
                                assert(a.pos_ok(q));
                                assert(handle_is(
                                    a.grid()[a.cell_index(cx as int, cy as int)],
                                    q,
                                ));
                            }
                        }
                    }
                    assert(anyc == anyp) by {
                        if anyp {
                            let q = choose|q: int| blast_victim(a, q, prev);
                            let pos = a.pos_list()[q]->0;
                            assert(prev.contains((pos.0 as int, pos.1 as int)));
                            assert(cur.contains((pos.0 as int, pos.1 as int)));
                            assert(blast_victim(a, q, cur));
                        }
                        if anyc {
                            let q = choose|q: int| blast_victim(a, q, cur);
                            assert(blast_victim(a, q, prev));
                        }
                    }
                }
                assert forall|q: int|
                    0 <= q < a.piece_list().len() implies #[trigger] board.piece_list()[q]
                    == blast_result_piece(a, *self, cur, any_blast_victim(a, cur), q) by {
                    lemma_on_attack_idempotent(a.piece_list()[q].exhaustion);
                    lemma_on_attack_idempotent(
                        Piece { dying: true, ..a.piece_list()[q] }.exhaustion,
                    );
                    if hit {
                        let v = occupant->0;
                        if q != v as int && blast_victim(a, q, cur) && !blast_victim(a, q, prev) {
                            let pos = a.pos_list()[q]->0;
                            lemma_cell_index_bound(
                                a.spec_width(),
                                a.spec_height(),
                                cx as int,
                                cy as int,
                            );
                            assert(a.pos_ok(q));
                            assert(handle_is(a.grid()[a.cell_index(cx as int, cy as int)], q));
                        }
                    }
                }
            }
            idx = idx + 1;
        }
        proof {
            assert(cs.take(cs.len() as int) =~= cs);
        }
    }
}

/// The whole machine's state between events.
#[derive(Debug, PartialEq, Eq, Copy, Clone, Structural)]
pub enum GameState {
    Placement,
    Movement(PieceMovementState),
    PowerTargeting(TargetForPowerState),
}

/// What a state demands of the board it runs over.
pub open spec fn state_valid(s: GameState, b: Board) -> bool {
    match s {
        GameState::Placement => true,
        GameState::Movement(st) => st.valid_for(b),
        GameState::PowerTargeting(st) => st.valid_for(b),
    }
}

/// The board relation of a turn change: the next team in cyclic
/// order becomes active and every one of its pieces gets a rested
/// action budget; nothing else changes.
pub open spec fn spec_next_turn(a: Board, b: Board) -> bool {
    &&& b.spec_width() == a.spec_width()
    &&& b.spec_height() == a.spec_height()
    &&& b.team_count() == a.team_count()
    &&& b.turn() == (a.turn() + 1) % a.team_count()
    &&& b.protected_list() == a.protected_list()
    &&& b.grid() == a.grid()
    &&& b.pos_list() == a.pos_list()
    &&& b.event_list() == a.event_list()
    &&& b.piece_list().len() == a.piece_list().len()
    &&& forall|q: int|
        0 <= q < a.piece_list().len() ==> #[trigger] b.piece_list()[q] == (if a.piece_list()[q].team_id as int == b.turn() {
            Piece { exhaustion: a.piece_list()[q].exhaustion.spec_reset(), ..a.piece_list()[q] }
        } else {
            a.piece_list()[q]
        })
}

/// How a transition turns the board `m` the event handler left into
/// the final board and the next state.
pub open spec fn spec_transition_applied(
    s: GameState,
    m: Board,
    b: Board,
    t: Transition,
    n: GameState,
) -> bool {
    match t {
        Transition::Stay => same_all(m, b) && n == s,
        Transition::ToPlacement => same_all(m, b) && n == GameState::Placement,
        Transition::ToMovement(st) => same_all(m, b) && n == GameState::Movement(st),
        Transition::ToPowerTargeting(st) => same_all(m, b) && n == GameState::PowerTargeting(st),
        Transition::ToNextTurn => spec_next_turn(m, b) && n == GameState::Placement,
    }
}

/// One full step of the machine: the current state's handler drains
/// and resolves one event, and the resulting transition is applied —
/// a turn change resets the new team's budgets on the spot.
pub open spec fn spec_step(s: GameState, a: Board, b: Board, n: GameState) -> bool {
    exists|m: Board, t: Transition|
        #![auto]
        {
            &&& match s {
                GameState::Placement => spec_placement_step(a, m, t),
                GameState::Movement(st) => spec_movement_step(a, m, st, t),
                GameState::PowerTargeting(st) => spec_power_target_step(a, m, st, t),
            }
            &&& spec_transition_applied(s, m, b, t, n)
        }
}

/// Dequeue and fully resolve at most one event, returning the next
/// state; see `spec_step`.
pub fn step(state: GameState, board: &mut Board) -> (next: GameState)
    requires
        old(board).wf(),
        state_valid(state, *old(board)),
    ensures
        final(board).wf(),
        spec_step(state, *old(board), *final(board), next),
        state_valid(next, *final(board)),
{
    let t = match &state {
        GameState::Placement => {
            let st = PiecePlacementState;
            st.update(board)
        },
        GameState::Movement(st) => st.update(board),
        GameState::PowerTargeting(st) => st.update(board),
    };
    let ghost m = *board;
    let next = match t {
        Transition::Stay => state,
        Transition::ToPlacement => GameState::Placement,
        Transition::ToMovement(st2) => GameState::Movement(st2),
        Transition::ToPowerTargeting(st2) => GameState::PowerTargeting(st2),
        Transition::ToNextTurn => {
            board.next_turn();
            GameState::Placement
        },
    };
    proof {
        let a = *old(board);
        let b = *board;
        assert(spec_transition_applied(state, m, b, t, next));
        assert(spec_step(state, a, b, next)) by {
            assert({
                &&& match state {
                    GameState::Placement => spec_placement_step(a, m, t),
                    GameState::Movement(st) => spec_movement_step(a, m, st, t),
                    GameState::PowerTargeting(st) => spec_power_target_step(a, m, st, t),
                }
                &&& spec_transition_applied(state, m, b, t, next)
            });
        }
        if t == Transition::Stay {
            assert(state_valid(next, b));
        }
    }
    next
}

} // verus!
