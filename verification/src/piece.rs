//! The piece data model: static capabilities, special powers, and the
//! per-turn action budget (`Exhaustion`).

use vstd::prelude::*;

use crate::geometry::Direction;
use crate::geometry::Range;

verus! {

/// Kinds of board-wide effects a piece can carry.
#[derive(Debug, PartialEq, Eq, Copy, Clone, Structural)]
pub enum EffectKind {
    Protection,
}

/// An effect a piece projects over the cells its range covers.
#[derive(Debug, Copy, Clone)]
pub struct Effect {
    pub kind: EffectKind,
    pub range: Range,
}

/// Special powers a piece may activate.
#[derive(Debug, PartialEq, Eq, Copy, Clone, Structural)]
pub enum Power {
    Blast,
    TargetedShoot,
}

/// A special power together with the range it acts over.
#[derive(Debug, Copy, Clone)]
pub struct ActivatablePower {
    pub kind: Power,
    pub range: Range,
}

/// A movement capability: the range ordinary moves are drawn from.
#[derive(Debug, Copy, Clone)]
pub struct Move {
    pub range: Range,
}

impl Move {
    /// A non-jumping movement pattern bounded by `steps`.
    pub fn new(direction: Direction, steps: u8) -> (m: Move)
        ensures
            m.range == (Range { direction, steps, jumps: false, include_self: false }),
    {
        Move { range: Range::new(direction, steps) }
    }
}

/// The static piece archetypes a game setup can place.
#[derive(Debug, PartialEq, Eq, Copy, Clone, Structural)]
pub enum PieceKind {
    Simple,
    HorizontalBar,
    VerticalBar,
    Cross,
    Queen,
    Castle,
    Sniper,
}

/// A request to re-type a piece into another archetype at setup.
#[derive(Debug, Copy, Clone)]
pub struct TurnInto {
    pub kind: PieceKind,
}

/// Which of the two per-turn action flags gate which action.
#[derive(Debug, PartialEq, Eq, Copy, Clone, Structural)]
pub enum ExhaustionStrategy {
    /// Either action exhausts both: each requires neither flag set.
    Either,
    /// The two actions are independent, one flag each.
    Both,
    /// Only movement is ever allowed, gated by the moved flag.
    Move,
    /// Only the special action is ever allowed, gated by its flag.
    Special,
}

/// A piece's per-turn action budget: two flags plus the strategy that
/// reads them.
#[derive(Debug, Copy, Clone)]
pub struct Exhaustion {
    moved: bool,
    used_special: bool,
    strategy: ExhaustionStrategy,
}

impl Exhaustion {
    /// Whether the moved flag is set.
    pub closed spec fn spec_moved(&self) -> bool {
        self.moved
    }

    /// Whether the used-special flag is set.
    pub closed spec fn spec_used_special(&self) -> bool {
        self.used_special
    }

    /// The strategy this budget is read under.
    pub closed spec fn spec_strategy(&self) -> ExhaustionStrategy {
        self.strategy
    }

    /// The strategy table for movement: `Special` never moves,
    /// `Move`/`Both` move while not yet moved, `Either` moves while
    /// neither flag is set.
    pub open spec fn spec_can_move(&self) -> bool {
        match self.spec_strategy() {
            ExhaustionStrategy::Special => false,
            ExhaustionStrategy::Move => !self.spec_moved(),
            ExhaustionStrategy::Both => !self.spec_moved(),
            ExhaustionStrategy::Either => !self.spec_moved() && !self.spec_used_special(),
        }
    }

    /// The strategy table for the special action, mirror of
    /// `spec_can_move`.
    pub open spec fn spec_can_attack(&self) -> bool {
        match self.spec_strategy() {
            ExhaustionStrategy::Move => false,
            ExhaustionStrategy::Special => !self.spec_used_special(),
            ExhaustionStrategy::Both => !self.spec_used_special(),
            ExhaustionStrategy::Either => !self.spec_moved() && !self.spec_used_special(),
        }
    }

    /// The budget after consuming a move.
    pub closed spec fn spec_on_move(&self) -> Exhaustion {
        Exhaustion { moved: true, ..*self }
    }

    /// The budget after retracting a move.
    pub closed spec fn spec_undo_move(&self) -> Exhaustion {
        Exhaustion { moved: false, ..*self }
    }

    /// The budget after consuming the special action.
    pub closed spec fn spec_on_attack(&self) -> Exhaustion {
        Exhaustion { used_special: true, ..*self }
    }

    /// The budget after retracting the special action.
    pub closed spec fn spec_undo_attack(&self) -> Exhaustion {
        Exhaustion { used_special: false, ..*self }
    }

    /// The budget at the start of the owning team's turn.
    pub closed spec fn spec_reset(&self) -> Exhaustion {
        Exhaustion { moved: false, used_special: false, ..*self }
    }

    /// A budget with both actions already spent.
    pub fn new_exhausted(strategy: ExhaustionStrategy) -> (e: Exhaustion)
        ensures
            e.spec_moved(),
            e.spec_used_special(),
            e.spec_strategy() == strategy,
    {
        Exhaustion { moved: true, used_special: true, strategy }
    }

    /// A budget with both actions still available.
    pub fn new_rested(strategy: ExhaustionStrategy) -> (e: Exhaustion)
        ensures
            !e.spec_moved(),
            !e.spec_used_special(),
            e.spec_strategy() == strategy,
    {
        Exhaustion { moved: false, used_special: false, strategy }
    }

    /// May this piece still make an ordinary move this turn?
    pub fn can_move(&self) -> (r: bool)
        ensures
            r == self.spec_can_move(),
    {
        match &self.strategy {
            ExhaustionStrategy::Special => false,
            ExhaustionStrategy::Move | ExhaustionStrategy::Both => !self.moved,
            ExhaustionStrategy::Either => !self.moved && !self.used_special,
        }
    }

    /// May this piece still attack or act this turn?
    pub fn can_attack(&self) -> (r: bool)
        ensures
            r == self.spec_can_attack(),
    {
        match &self.strategy {
            ExhaustionStrategy::Move => false,
            ExhaustionStrategy::Special | ExhaustionStrategy::Both => !self.used_special,
            ExhaustionStrategy::Either => !self.moved && !self.used_special,
        }
    }

    /// A budget is done exactly when neither action is available.
    pub fn is_done(&self) -> (r: bool)
        ensures
            r == (!self.spec_can_move() && !self.spec_can_attack()),
    {
        !self.can_move() && !self.can_attack()
    }

    /// Consume the move action.
    pub fn on_move(&mut self)
        ensures
            *final(self) == old(self).spec_on_move(),
    {
        self.moved = true;
    }

    /// Retract a tentatively consumed move.
    pub fn undo_move(&mut self)
        ensures
            *final(self) == old(self).spec_undo_move(),
    {
        self.moved = false;
    }

    /// Consume the special action.
    pub fn on_attack(&mut self)
        ensures
            *final(self) == old(self).spec_on_attack(),
    {
        self.used_special = true;
    }

    /// Retract a tentatively consumed special action.
    pub fn undo_attack(&mut self)
        ensures
            *final(self) == old(self).spec_undo_attack(),
    {
        self.used_special = false;
    }

    /// Clear both flags, whatever the strategy.
    pub fn reset(&mut self)
        ensures
            *final(self) == old(self).spec_reset(),
            !final(self).spec_moved(),
            !final(self).spec_used_special(),
            final(self).spec_strategy() == old(self).spec_strategy(),
    {
        self.moved = false;
        self.used_special = false;
    }
}

/// Consuming and then retracting a move restores the budget — and so
/// `can_move` — exactly, provided the moved flag was not already set.
/// (With the flag already set, retracting clears it, which can grant a
/// move the piece did not have before.)
pub proof fn lemma_move_round_trip(e: Exhaustion)
    requires
        !e.spec_moved(),
    ensures
        e.spec_on_move().spec_undo_move() == e,
        e.spec_on_move().spec_undo_move().spec_can_move() == e.spec_can_move(),
{
}

/// Consuming and then retracting the special action restores the
/// budget — and so `can_attack` — exactly, provided its flag was not
/// already set.
pub proof fn lemma_attack_round_trip(e: Exhaustion)
    requires
        !e.spec_used_special(),
    ensures
        e.spec_on_attack().spec_undo_attack() == e,
        e.spec_on_attack().spec_undo_attack().spec_can_attack() == e.spec_can_attack(),
{
}

/// Consuming the special action twice is the same as consuming it
/// once: blast resolution may flag the acting piece per hit.
pub proof fn lemma_on_attack_idempotent(e: Exhaustion)
    ensures
        e.spec_on_attack().spec_on_attack() == e.spec_on_attack(),
{
}

/// A piece on the board: static capabilities, optional movement and
/// power, and mutable per-turn state.  Retired pieces keep their
/// record (`exists` false) so handles stay valid for history.
#[derive(Debug, Copy, Clone)]
pub struct Piece {
    pub attack: bool,
    pub pierce: bool,
    pub shield: bool,
    pub movement: Option<Move>,
    pub activatable: Option<ActivatablePower>,
    pub dying: bool,
    pub exhaustion: Exhaustion,
    pub team_id: usize,
    pub exists: bool,
}

impl Piece {
    /// A fresh piece for `team_id`: attacking, pierce set, no
    /// movement or power yet, fully exhausted under `Either`.
    pub fn new(team_id: usize) -> (p: Piece)
        ensures
            p.attack,
            p.pierce,
            !p.shield,
            p.movement is None,
            p.activatable is None,
            !p.dying,
            p.exhaustion.spec_moved(),
            p.exhaustion.spec_used_special(),
            p.exhaustion.spec_strategy() == ExhaustionStrategy::Either,
            p.team_id == team_id,
            p.exists,
    {
        Piece {
            attack: true,
            pierce: true,
            shield: false,
            movement: None,
            activatable: None,
            dying: false,
            exhaustion: Exhaustion::new_exhausted(ExhaustionStrategy::Either),
            team_id,
            exists: true,
        }
    }
}

} // verus!
