//! The board: a rectangular grid with an exclusive occupancy index, a
//! piece arena addressed by stable handles, per-cell protection
//! markers, the team whose turn it is, and the FIFO queue of inbound
//! events.
//!
//! The occupancy index and the per-piece positions are kept mutually
//! consistent: a handle appears in at most one cell, and a piece with
//! a position stands in exactly that cell.  Retiring a piece only
//! clears the index, never the arena slot, so handles stay valid for
//! history.

use vstd::prelude::*;

use crate::geometry::range_reaches;
use crate::piece::Effect;
use crate::piece::EffectKind;
use crate::piece::Piece;

verus! {

/// An inbound event from the input layer: advance the turn, or a cell
/// was activated.
#[derive(Debug, PartialEq, Eq, Copy, Clone, Structural)]
pub enum BoardEvent {
    Next,
    Cell { x: u8, y: u8 },
}

/// A team, identified by its index in turn order.
#[derive(Debug, PartialEq, Eq, Copy, Clone, Structural)]
pub struct Team {
    pub id: usize,
}

/// The shared game state the rules operate on.
pub struct Board {
    width: u8,
    height: u8,
    /// Occupancy, row-major: cell `(x, y)` is entry `y * width + x`.
    cells: Vec<Option<usize>>,
    /// The piece arena; a handle is an index into it.
    pieces: Vec<Piece>,
    /// Where each piece stands, `None` once off the board.
    positions: Vec<Option<(u8, u8)>>,
    /// Per-cell protection marker, same addressing as `cells`.
    protected: Vec<bool>,
    /// Pending events, oldest first.
    events: Vec<BoardEvent>,
    current_team_idx: usize,
    num_teams: usize,
}

/// Row-major cell index arithmetic stays in bounds.
pub proof fn lemma_cell_index_bound(w: int, h: int, x: int, y: int)
    requires
        0 <= x < w,
        0 <= y < h,
    ensures
        0 <= y * w + x < h * w,
{
    assert(0 <= y * w + x < h * w) by (nonlinear_arith)
        requires
            0 <= x < w,
            0 <= y < h,
    ;
}

/// Row-major cell indices are distinct for distinct cells.
pub proof fn lemma_cell_index_injective(w: int, x1: int, y1: int, x2: int, y2: int)
    requires
        0 <= x1 < w,
        0 <= x2 < w,
        0 <= y1,
        0 <= y2,
        y1 * w + x1 == y2 * w + x2,
    ensures
        x1 == x2 && y1 == y2,
{
    assert(x1 == x2 && y1 == y2) by (nonlinear_arith)
        requires
            0 <= x1 < w,
            0 <= x2 < w,
            0 <= y1,
            0 <= y2,
            y1 * w + x1 == y2 * w + x2,
    ;
}

/// Whether an occupancy entry holds exactly the handle `q`.
pub open spec fn handle_is(o: Option<usize>, q: int) -> bool {
    match o {
        Some(h) => h as int == q,
        None => false,
    }
}

impl Board {
    /// The occupancy index as a sequence, row-major.
    pub closed spec fn grid(&self) -> Seq<Option<usize>> {
        self.cells@
    }

    /// The piece arena.
    pub closed spec fn piece_list(&self) -> Seq<Piece> {
        self.pieces@
    }

    /// Where each piece stands.
    pub closed spec fn pos_list(&self) -> Seq<Option<(u8, u8)>> {
        self.positions@
    }

    /// The per-cell protection markers.
    pub closed spec fn protected_list(&self) -> Seq<bool> {
        self.protected@
    }

    /// The pending events, oldest first.
    pub closed spec fn event_list(&self) -> Seq<BoardEvent> {
        self.events@
    }

    pub closed spec fn spec_width(&self) -> int {
        self.width as int
    }

    pub closed spec fn spec_height(&self) -> int {
        self.height as int
    }

    /// The index of the team whose turn it is.
    pub closed spec fn turn(&self) -> int {
        self.current_team_idx as int
    }

    pub closed spec fn team_count(&self) -> int {
        self.num_teams as int
    }

    pub open spec fn on_board(&self, x: int, y: int) -> bool {
        0 <= x < self.spec_width() && 0 <= y < self.spec_height()
    }

    pub open spec fn cell_index(&self, x: int, y: int) -> int {
        y * self.spec_width() + x
    }

    /// The occupant of a cell, `None` off the board.
    pub open spec fn piece_at(&self, x: int, y: int) -> Option<usize> {
        if self.on_board(x, y) {
            self.grid()[self.cell_index(x, y)]
        } else {
            None
        }
    }

    pub open spec fn occupied(&self, x: int, y: int) -> bool {
        self.piece_at(x, y) is Some
    }

    /// Whether a cell carries the protection marker; off-board cells
    /// never do.
    pub open spec fn protected_at(&self, x: int, y: int) -> bool {
        self.on_board(x, y) && self.protected_list()[self.cell_index(x, y)]
    }

    /// A piece's position entry points back at it through the grid.
    pub open spec fn pos_ok(&self, p: int) -> bool {
        match self.pos_list()[p] {
            Some(xy) => self.on_board(xy.0 as int, xy.1 as int) && handle_is(
                self.grid()[self.cell_index(xy.0 as int, xy.1 as int)],
                p,
            ),
            None => true,
        }
    }

    /// A cell's occupant is a live handle whose position entry points
    /// back at this cell.
    pub open spec fn cell_ok(&self, c: int) -> bool {
        match self.grid()[c] {
            Some(p) => (p as int) < self.piece_list().len() && (p as int) < self.pos_list().len()
                && match self.pos_list()[p as int] {
                Some(xy) => self.cell_index(xy.0 as int, xy.1 as int) == c,
                None => false,
            },
            None => true,
        }
    }

    /// Well-formedness: sizes agree and occupancy and positions are
    /// mutually consistent.
    pub open spec fn wf(&self) -> bool {
        &&& 1 <= self.spec_width() <= 255
        &&& 1 <= self.spec_height() <= 255
        &&& self.grid().len() == self.spec_height() * self.spec_width()
        &&& self.protected_list().len() == self.grid().len()
        &&& self.pos_list().len() == self.piece_list().len()
        &&& self.team_count() >= 1
        &&& 0 <= self.turn() < self.team_count()
        &&& forall|p: int| 0 <= p < self.pos_list().len() ==> #[trigger] self.pos_ok(p)
        &&& forall|c: int| 0 <= c < self.grid().len() ==> #[trigger] self.cell_ok(c)
    }

    /// The row-major index of an on-board cell, as executable
    /// arithmetic.
    fn idx_of(&self, x: u8, y: u8) -> (i: usize)
        requires
            1 <= self.spec_width() <= 255,
            1 <= self.spec_height() <= 255,
            self.grid().len() == self.spec_height() * self.spec_width(),
            self.on_board(x as int, y as int),
        ensures
            i as int == self.cell_index(x as int, y as int),
            i < self.grid().len(),
    {
        proof {
            lemma_cell_index_bound(self.spec_width(), self.spec_height(), x as int, y as int);
            assert(y as int * self.spec_width() <= 255 * 255) by (nonlinear_arith)
                requires
                    0 <= y as int <= 255,
                    0 <= self.spec_width() <= 255,
            ;
        }
        y as usize * self.width as usize + x as usize
    }

    /// An empty board of the given size for `num_teams` teams, team 0
    /// to act first.
    pub fn new(width: u8, height: u8, num_teams: usize) -> (b: Board)
        requires
            width >= 1,
            height >= 1,
            num_teams >= 1,
        ensures
            b.wf(),
            b.spec_width() == width as int,
            b.spec_height() == height as int,
            b.team_count() == num_teams as int,
            b.turn() == 0,
            b.piece_list() =~= Seq::<Piece>::empty(),
            b.pos_list() =~= Seq::<Option<(u8, u8)>>::empty(),
            b.event_list() =~= Seq::<BoardEvent>::empty(),
            forall|x: int, y: int| b.on_board(x, y) ==> b.piece_at(x, y) is None,
            forall|x: int, y: int| !b.protected_at(x, y),
    {
        proof {
            assert(height as int * width as int <= 255 * 255 && width as int * height as int
                == height as int * width as int) by (nonlinear_arith)
                requires
                    0 <= width as int <= 255,
                    0 <= height as int <= 255,
            ;
        }
        let total: usize = width as usize * height as usize;
        let mut cells: Vec<Option<usize>> = Vec::new();
        let mut protected: Vec<bool> = Vec::new();
        let mut i: usize = 0;
        while i < total
            invariant
                i <= total,
                cells@.len() == i as int,
                protected@.len() == i as int,
                forall|c: int| 0 <= c < i as int ==> #[trigger] cells@[c] is None,
                forall|c: int| 0 <= c < i as int ==> !(#[trigger] protected@[c]),
            decreases total - i,
        {
            cells.push(None);
            protected.push(false);
            i = i + 1;
        }
        let b = Board {
            width,
            height,
            cells,
            pieces: Vec::new(),
            positions: Vec::new(),
            protected,
            events: Vec::new(),
            current_team_idx: 0,
            num_teams,
        };
        proof {
            assert forall|x: int, y: int| b.on_board(x, y) implies b.piece_at(x, y) is None by {
                lemma_cell_index_bound(b.spec_width(), b.spec_height(), x, y);
            }
            assert forall|x: int, y: int| !b.protected_at(x, y) by {
                if b.on_board(x, y) {
                    lemma_cell_index_bound(b.spec_width(), b.spec_height(), x, y);
                }
            }
            assert forall|c: int| 0 <= c < b.grid().len() implies #[trigger] b.cell_ok(c) by {}
        }
        b
    }

    /// The occupant of a cell, `None` when empty or off the board.
    pub fn get_piece(&self, x: u8, y: u8) -> (r: Option<usize>)
        requires
            self.wf(),
        ensures
            r == self.piece_at(x as int, y as int),
    {
        if x < self.width && y < self.height {
            let i = self.idx_of(x, y);
            self.cells[i]
        } else {
            None
        }
    }

    /// The validated coordinates of a cell, `None` off the board.
    /// Signed inputs let callers probe without a separate bounds
    /// check.
    pub open spec fn spec_cell_at(&self, x: int, y: int) -> Option<(u8, u8)> {
        if self.on_board(x, y) {
            Some((x as u8, y as u8))
        } else {
            None
        }
    }

    /// Bounds-checked cell lookup over signed coordinates.
    pub fn get_cell_safely(&self, x: i16, y: i16) -> (r: Option<(u8, u8)>)
        requires
            self.wf(),
        ensures
            r == self.spec_cell_at(x as int, y as int),
    {
        if 0 <= x && x < self.width as i16 && 0 <= y && y < self.height as i16 {
            Some((x as u8, y as u8))
        } else {
            None
        }
    }

    /// Whether a cell carries the protection marker.
    pub fn is_protected(&self, x: u8, y: u8) -> (r: bool)
        requires
            self.wf(),
        ensures
            r == self.protected_at(x as int, y as int),
    {
        if x < self.width && y < self.height {
            let i = self.idx_of(x, y);
            self.protected[i]
        } else {
            false
        }
    }

    /// Set or clear the protection marker of one cell.
    pub fn set_protected(&mut self, x: u8, y: u8, value: bool)
        requires
            old(self).wf(),
            old(self).on_board(x as int, y as int),
        ensures
            final(self).wf(),
            final(self).protected_list() == old(self).protected_list().update(
                old(self).cell_index(x as int, y as int),
                value,
            ),
            final(self).grid() == old(self).grid(),
            final(self).piece_list() == old(self).piece_list(),
            final(self).pos_list() == old(self).pos_list(),
            final(self).event_list() == old(self).event_list(),
            final(self).spec_width() == old(self).spec_width(),
            final(self).spec_height() == old(self).spec_height(),
            final(self).turn() == old(self).turn(),
            final(self).team_count() == old(self).team_count(),
    {
        let i = self.idx_of(x, y);
        self.protected[i] = value;
        proof {
            assert forall|p: int| 0 <= p < self.pos_list().len() implies #[trigger] self.pos_ok(
                p,
            ) by {
                assert(old(self).pos_ok(p));
            }
            assert forall|c: int| 0 <= c < self.grid().len() implies #[trigger] self.cell_ok(
                c,
            ) by {
                assert(old(self).cell_ok(c));
            }
        }
    }

    /// The piece record behind a handle.
    pub fn piece(&self, id: usize) -> (p: Piece)
        requires
            id < self.piece_list().len(),
        ensures
            p == self.piece_list()[id as int],
    {
        self.pieces[id]
    }

    /// How many piece records the arena holds.
    pub fn piece_count(&self) -> (n: usize)
        ensures
            n as int == self.piece_list().len(),
    {
        self.pieces.len()
    }

    /// Where a piece stands, `None` once off the board.
    pub fn piece_position(&self, id: usize) -> (r: Option<(u8, u8)>)
        requires
            id < self.pos_list().len(),
        ensures
            r == self.pos_list()[id as int],
    {
        self.positions[id]
    }

    /// The board's width in cells.
    pub fn board_width(&self) -> (w: u8)
        ensures
            w as int == self.spec_width(),
    {
        self.width
    }

    /// The board's height in cells.
    pub fn board_height(&self) -> (h: u8)
        ensures
            h as int == self.spec_height(),
    {
        self.height
    }

    /// The team whose turn is active.
    pub fn current_team(&self) -> (t: Team)
        ensures
            t.id as int == self.turn(),
    {
        Team { id: self.current_team_idx }
    }

    /// Append an inbound event; the input layer's side of the queue.
    pub fn push_event(&mut self, e: BoardEvent)
        ensures
            final(self).event_list() == old(self).event_list().push(e),
            final(self).grid() == old(self).grid(),
            final(self).piece_list() == old(self).piece_list(),
            final(self).pos_list() == old(self).pos_list(),
            final(self).protected_list() == old(self).protected_list(),
            final(self).spec_width() == old(self).spec_width(),
            final(self).spec_height() == old(self).spec_height(),
            final(self).turn() == old(self).turn(),
            final(self).team_count() == old(self).team_count(),
            old(self).wf() ==> final(self).wf(),
    {
        self.events.push(e);
        proof {
            if old(self).wf() {
                assert forall|p: int| 0 <= p < self.pos_list().len() implies #[trigger] self.pos_ok(
                    p,
                ) by {
                    assert(old(self).pos_ok(p));
                }
                assert forall|c: int| 0 <= c < self.grid().len() implies #[trigger] self.cell_ok(
                    c,
                ) by {
                    assert(old(self).cell_ok(c));
                }
            }
        }
    }

    /// Does some protection effect, anchored at its own cell, cover
    /// `(x, y)`?
    pub open spec fn spec_protection_covers(effects: Seq<(u8, u8, Effect)>, x: int, y: int) -> bool {
        exists|i: int|
            0 <= i < effects.len() && (#[trigger] effects[i]).2.kind is Protection
                && range_reaches(effects[i].2.range, effects[i].0 as int, effects[i].1 as int, x, y)
    }

    /// Recompute every cell's protection marker from the effect
    /// sources currently on the board: a cell is protected exactly
    /// when a protection effect's range reaches it from the effect's
    /// anchor cell.
    pub fn update_protection(&mut self, effects: &Vec<(u8, u8, Effect)>)
        requires
            old(self).wf(),
        ensures
            final(self).wf(),
            final(self).grid() == old(self).grid(),
            final(self).piece_list() == old(self).piece_list(),
            final(self).pos_list() == old(self).pos_list(),
            final(self).event_list() == old(self).event_list(),
            final(self).spec_width() == old(self).spec_width(),
            final(self).spec_height() == old(self).spec_height(),
            final(self).turn() == old(self).turn(),
            final(self).team_count() == old(self).team_count(),
            forall|x: int, y: int|
                final(self).on_board(x, y) ==> #[trigger] final(self).protected_at(x, y)
                    == Self::spec_protection_covers(effects@, x, y),
    {
        let width = self.board_width();
        let height = self.board_height();
        let mut y: u8 = 0;
        while y < height
            invariant
                self.wf(),
                width as int == self.spec_width(),
                height as int == self.spec_height(),
                y <= height,
                self.grid() == old(self).grid(),
                self.piece_list() == old(self).piece_list(),
                self.pos_list() == old(self).pos_list(),
                self.event_list() == old(self).event_list(),
                self.spec_width() == old(self).spec_width(),
                self.spec_height() == old(self).spec_height(),
                self.turn() == old(self).turn(),
                self.team_count() == old(self).team_count(),
                forall|xx: int, yy: int|
                    self.on_board(xx, yy) && yy < y as int ==> #[trigger] self.protected_at(xx, yy)
                        == Self::spec_protection_covers(effects@, xx, yy),
                forall|xx: int, yy: int|
                    self.on_board(xx, yy) && yy >= y as int ==> #[trigger] self.protected_at(
                        xx,
                        yy,
                    ) == old(self).protected_at(xx, yy),
            decreases height as int - y as int,
        {
            let mut x: u8 = 0;
            while x < width
                invariant
                    self.wf(),
                    width as int == self.spec_width(),
                    height as int == self.spec_height(),
                    y < height,
                    x <= width,
                    self.grid() == old(self).grid(),
                    self.piece_list() == old(self).piece_list(),
                    self.pos_list() == old(self).pos_list(),
                    self.event_list() == old(self).event_list(),
                    self.spec_width() == old(self).spec_width(),
                    self.spec_height() == old(self).spec_height(),
                    self.turn() == old(self).turn(),
                    self.team_count() == old(self).team_count(),
                    forall|xx: int, yy: int|
                        self.on_board(xx, yy) && (yy < y as int || (yy == y as int && xx
                            < x as int)) ==> #[trigger] self.protected_at(xx, yy)
                            == Self::spec_protection_covers(effects@, xx, yy),
                    forall|xx: int, yy: int|
                        self.on_board(xx, yy) && (yy > y as int || (yy == y as int && xx
                            >= x as int)) ==> #[trigger] self.protected_at(xx, yy) == old(
                            self,
                        ).protected_at(xx, yy),
                decreases width as int - x as int,
            {
                let mut covered = false;
                let mut i: usize = 0;
                while i < effects.len()
                    invariant
                        i as int <= effects@.len(),
                        covered == exists|j: int|
                            0 <= j < i as int && (#[trigger] effects@[j]).2.kind is Protection
                                && range_reaches(
                                effects@[j].2.range,
                                effects@[j].0 as int,
                                effects@[j].1 as int,
                                x as int,
                                y as int,
                            ),
                    decreases effects@.len() - i as int,
                {
                    let (ex, ey, eff) = effects[i];
                    if matches!(eff.kind, EffectKind::Protection) && eff.range.reaches(
                        ex,
                        ey,
                        x,
                        y,
                    ) {
                        covered = true;
                    }
                    i = i + 1;
                }
                let ghost before = *self;
                self.set_protected(x, y, covered);
                proof {
                    assert(covered == Self::spec_protection_covers(effects@, x as int, y as int))
                        by {
                        if covered {
                            let j = choose|j: int|
                                0 <= j < effects@.len() && (
                                #[trigger] effects@[j]).2.kind is Protection && range_reaches(
                                    effects@[j].2.range,
                                    effects@[j].0 as int,
                                    effects@[j].1 as int,
                                    x as int,
                                    y as int,
                                );
                            assert(Self::spec_protection_covers(effects@, x as int, y as int));
                        }
                        if Self::spec_protection_covers(effects@, x as int, y as int) {
                            let j = choose|j: int|
                                0 <= j < effects@.len() && (
                                #[trigger] effects@[j]).2.kind is Protection && range_reaches(
                                    effects@[j].2.range,
                                    effects@[j].0 as int,
                                    effects@[j].1 as int,
                                    x as int,
                                    y as int,
                                );
                            assert(covered);
                        }
                    }
                    assert(before.wf());
                    lemma_cell_index_bound(
                        before.spec_width(),
                        before.spec_height(),
                        x as int,
                        y as int,
                    );
                    assert(self.protected_at(x as int, y as int) == covered);
                    assert forall|xx: int, yy: int|
                        self.on_board(xx, yy) implies #[trigger] self.protected_at(xx, yy) == (
                        if (xx, yy) == (x as int, y as int) {
                            covered
                        } else {
                            before.protected_at(xx, yy)
                        }) by {
                        lemma_cell_index_bound(self.spec_width(), self.spec_height(), xx, yy);
                        if (xx, yy) != (x as int, y as int) && self.cell_index(xx, yy)
                            == self.cell_index(x as int, y as int) {
                            lemma_cell_index_injective(
                                self.spec_width(),
                                xx,
                                yy,
                                x as int,
                                y as int,
                            );
                        }
                    }
                }
                x = x + 1;
            }
            y = y + 1;
        }
    }

    /// Add a piece record to the arena and place it on an empty cell;
    /// the configuration surface used at game setup.
    pub fn place_piece(&mut self, p: Piece, x: u8, y: u8) -> (id: usize)
        requires
            old(self).wf(),
            old(self).on_board(x as int, y as int),
            old(self).piece_at(x as int, y as int) is None,
        ensures
            final(self).wf(),
            id as int == old(self).piece_list().len(),
            final(self).piece_list() == old(self).piece_list().push(p),
            final(self).pos_list() == old(self).pos_list().push(Some((x, y))),
            final(self).grid() == old(self).grid().update(
                old(self).cell_index(x as int, y as int),
                Some(id),
            ),
            final(self).piece_at(x as int, y as int) == Some(id),
            final(self).protected_list() == old(self).protected_list(),
            final(self).event_list() == old(self).event_list(),
            final(self).spec_width() == old(self).spec_width(),
            final(self).spec_height() == old(self).spec_height(),
            final(self).turn() == old(self).turn(),
            final(self).team_count() == old(self).team_count(),
    {
        let id = self.pieces.len();
        let i = self.idx_of(x, y);
        self.pieces.push(p);
        self.positions.push(Some((x, y)));
        self.cells[i] = Some(id);
        proof {
            let g = *self;
            let o = *old(self);
            assert forall|q: int| 0 <= q < g.pos_list().len() implies #[trigger] g.pos_ok(q) by {
                if q < o.pos_list().len() {
                    assert(o.pos_ok(q));
                    if o.pos_list()[q] is Some {
                        let xy = o.pos_list()[q]->0;
                        lemma_cell_index_bound(
                            o.spec_width(),
                            o.spec_height(),
                            xy.0 as int,
                            xy.1 as int,
                        );
                        if g.cell_index(xy.0 as int, xy.1 as int) == i as int {
                            lemma_cell_index_injective(
                                o.spec_width(),
                                xy.0 as int,
                                xy.1 as int,
                                x as int,
                                y as int,
                            );
                        }
                    }
                } else {
                    assert(q == id as int);
                    assert(g.pos_list()[q] == Some((x, y)));
                    assert(g.grid()[i as int] == Some(id));
                }
            }
            assert forall|c: int| 0 <= c < g.grid().len() implies #[trigger] g.cell_ok(c) by {
                assert(o.cell_ok(c));
            }
        }
        id
    }

    /// Relocate a piece's occupancy from one cell to another.  The
    /// caller has already validated legality; a piece standing on the
    /// destination loses its place on the board.
    pub fn move_piece(&mut self, piece: usize, from_x: u8, from_y: u8, to_x: u8, to_y: u8)
        requires
            old(self).wf(),
            old(self).on_board(from_x as int, from_y as int),
            old(self).on_board(to_x as int, to_y as int),
            old(self).piece_at(from_x as int, from_y as int) == Some(piece),
        ensures
            final(self).wf(),
            final(self).grid() == old(self).grid().update(
                old(self).cell_index(from_x as int, from_y as int),
                None,
            ).update(old(self).cell_index(to_x as int, to_y as int), Some(piece)),
            final(self).pos_list().len() == old(self).pos_list().len(),
            forall|q: int|
                0 <= q < final(self).pos_list().len() ==> #[trigger] final(self).pos_list()[q] == (
                if q == piece as int {
                    Some((to_x, to_y))
                } else if handle_is(old(self).piece_at(to_x as int, to_y as int), q) {
                    None::<(u8, u8)>
                } else {
                    old(self).pos_list()[q]
                }),
            final(self).piece_list() == old(self).piece_list(),
            final(self).protected_list() == old(self).protected_list(),
            final(self).event_list() == old(self).event_list(),
            final(self).spec_width() == old(self).spec_width(),
            final(self).spec_height() == old(self).spec_height(),
            final(self).turn() == old(self).turn(),
            final(self).team_count() == old(self).team_count(),
    {
        proof {
            lemma_cell_index_bound(
                old(self).spec_width(),
                old(self).spec_height(),
                from_x as int,
                from_y as int,
            );
            assert(old(self).cell_ok(old(self).cell_index(from_x as int, from_y as int)));
        }
        let fi = self.idx_of(from_x, from_y);
        let ti = self.idx_of(to_x, to_y);
        let prev = self.cells[ti];
        proof {
            assert(old(self).cell_ok(ti as int));
        }
        self.cells[fi] = None;
        self.cells[ti] = Some(piece);
        if let Some(q) = prev {
            if q != piece {
                self.positions[q] = None;
            }
        }
        self.positions[piece] = Some((to_x, to_y));
        proof {
            let g = *self;
            let o = *old(self);
            let fi = o.cell_index(from_x as int, from_y as int);
            let ti = o.cell_index(to_x as int, to_y as int);
            assert forall|q: int| 0 <= q < g.pos_list().len() implies #[trigger] g.pos_ok(q) by {
                assert(o.pos_ok(q));
                if q == piece as int {
                } else if handle_is(o.piece_at(to_x as int, to_y as int), q) {
                } else {
                    if o.pos_list()[q] is Some {
                        let xy = o.pos_list()[q]->0;
                        lemma_cell_index_bound(
                            o.spec_width(),
                            o.spec_height(),
                            xy.0 as int,
                            xy.1 as int,
                        );
                        let cq = o.cell_index(xy.0 as int, xy.1 as int);
                        assert(handle_is(o.grid()[cq], q));
                        if cq == fi {
                            assert(o.grid()[fi] == Some(piece));
                            assert(false);
                        }
                        if cq == ti {
                            assert(handle_is(o.piece_at(to_x as int, to_y as int), q));
                            assert(false);
                        }
                        assert(g.grid()[cq] == o.grid()[cq]);
                    }
                }
            }
            assert forall|c: int| 0 <= c < g.grid().len() implies #[trigger] g.cell_ok(c) by {
                assert(o.cell_ok(c));
                if c != fi && c != ti {
                    if o.grid()[c] is Some {
                        let q = o.grid()[c]->0;
                        if q as int == piece as int {
                            assert(o.pos_ok(piece as int));
                            assert(o.cell_ok(fi));
                            let pxy = o.pos_list()[piece as int]->0;
                            lemma_cell_index_injective(
                                o.spec_width(),
                                pxy.0 as int,
                                pxy.1 as int,
                                from_x as int,
                                from_y as int,
                            );
                        }
                        if o.piece_at(to_x as int, to_y as int) == Some(q) {
                            assert(o.cell_ok(ti));
                        }
                    }
                }
            }
        }
    }

    /// Mark the piece behind a handle as dying; it is retired from
    /// the board at the end of the resolution step.
    pub fn mark_dying(&mut self, id: usize)
        requires
            old(self).wf(),
            id < old(self).piece_list().len(),
        ensures
            final(self).wf(),
            final(self).piece_list() == old(self).piece_list().update(
                id as int,
                Piece { dying: true, ..old(self).piece_list()[id as int] },
            ),
            final(self).grid() == old(self).grid(),
            final(self).pos_list() == old(self).pos_list(),
            final(self).protected_list() == old(self).protected_list(),
            final(self).event_list() == old(self).event_list(),
            final(self).spec_width() == old(self).spec_width(),
            final(self).spec_height() == old(self).spec_height(),
            final(self).turn() == old(self).turn(),
            final(self).team_count() == old(self).team_count(),
    {
        let mut p = self.pieces[id];
        p.dying = true;
        self.pieces[id] = p;
        proof {
            self.lemma_wf_after_piece_update(*old(self));
        }
    }

    /// Consume the move action of the piece behind a handle.
    pub fn exhaust_move(&mut self, id: usize)
        requires
            old(self).wf(),
            id < old(self).piece_list().len(),
        ensures
            final(self).wf(),
            final(self).piece_list() == old(self).piece_list().update(
                id as int,
                Piece {
                    exhaustion: old(self).piece_list()[id as int].exhaustion.spec_on_move(),
                    ..old(self).piece_list()[id as int]
                },
            ),
            final(self).grid() == old(self).grid(),
            final(self).pos_list() == old(self).pos_list(),
            final(self).protected_list() == old(self).protected_list(),
            final(self).event_list() == old(self).event_list(),
            final(self).spec_width() == old(self).spec_width(),
            final(self).spec_height() == old(self).spec_height(),
            final(self).turn() == old(self).turn(),
            final(self).team_count() == old(self).team_count(),
    {
        let mut p = self.pieces[id];
        p.exhaustion.on_move();
        self.pieces[id] = p;
        proof {
            self.lemma_wf_after_piece_update(*old(self));
        }
    }

    /// Consume the special action of the piece behind a handle.
    pub fn exhaust_attack(&mut self, id: usize)
        requires
            old(self).wf(),
            id < old(self).piece_list().len(),
        ensures
            final(self).wf(),
            final(self).piece_list() == old(self).piece_list().update(
                id as int,
                Piece {
                    exhaustion: old(self).piece_list()[id as int].exhaustion.spec_on_attack(),
                    ..old(self).piece_list()[id as int]
                },
            ),
            final(self).grid() == old(self).grid(),
            final(self).pos_list() == old(self).pos_list(),
            final(self).protected_list() == old(self).protected_list(),
            final(self).event_list() == old(self).event_list(),
            final(self).spec_width() == old(self).spec_width(),
            final(self).spec_height() == old(self).spec_height(),
            final(self).turn() == old(self).turn(),
            final(self).team_count() == old(self).team_count(),
    {
        let mut p = self.pieces[id];
        p.exhaustion.on_attack();
        self.pieces[id] = p;
        proof {
            self.lemma_wf_after_piece_update(*old(self));
        }
    }

    /// Well-formedness only reads sizes, occupancy and positions, so
    /// it survives any update that keeps the arena length.
    proof fn lemma_wf_after_piece_update(&self, o: Board)
        requires
            o.wf(),
            self.piece_list().len() == o.piece_list().len(),
            self.grid() == o.grid(),
            self.pos_list() == o.pos_list(),
            self.protected_list() == o.protected_list(),
            self.spec_width() == o.spec_width(),
            self.spec_height() == o.spec_height(),
            self.turn() == o.turn(),
            self.team_count() == o.team_count(),
        ensures
            self.wf(),
    {
        assert forall|p: int| 0 <= p < self.pos_list().len() implies #[trigger] self.pos_ok(p) by {
            assert(o.pos_ok(p));
        }
        assert forall|c: int| 0 <= c < self.grid().len() implies #[trigger] self.cell_ok(c) by {
            assert(o.cell_ok(c));
        }
    }

    /// Advance to the next team and reset the action budget of every
    /// piece of that team.
    pub fn next_turn(&mut self)
        requires
            old(self).wf(),
        ensures
            final(self).wf(),
            final(self).turn() == (old(self).turn() + 1) % old(self).team_count(),
            final(self).piece_list().len() == old(self).piece_list().len(),
            forall|q: int|
                0 <= q < final(self).piece_list().len() ==> #[trigger] final(self).piece_list()[q]
                    == (if old(self).piece_list()[q].team_id as int == final(self).turn() {
                    Piece {
                        exhaustion: old(self).piece_list()[q].exhaustion.spec_reset(),
                        ..old(self).piece_list()[q]
                    }
                } else {
                    old(self).piece_list()[q]
                }),
            final(self).grid() == old(self).grid(),
            final(self).pos_list() == old(self).pos_list(),
            final(self).protected_list() == old(self).protected_list(),
            final(self).event_list() == old(self).event_list(),
            final(self).spec_width() == old(self).spec_width(),
            final(self).spec_height() == old(self).spec_height(),
            final(self).team_count() == old(self).team_count(),
    {
        self.current_team_idx = (self.current_team_idx + 1) % self.num_teams;
        let n = self.pieces.len();
        let mut q: usize = 0;
        while q < n
            invariant
                q <= n,
                n as int == self.piece_list().len(),
                self.piece_list().len() == old(self).piece_list().len(),
                self.turn() == (old(self).turn() + 1) % old(self).team_count(),
                forall|j: int|
                    0 <= j < q as int ==> #[trigger] self.piece_list()[j] == (if old(
                        self,
                    ).piece_list()[j].team_id as int == self.turn() {
                        Piece {
                            exhaustion: old(self).piece_list()[j].exhaustion.spec_reset(),
                            ..old(self).piece_list()[j]
                        }
                    } else {
                        old(self).piece_list()[j]
                    }),
                forall|j: int|
                    q as int <= j < self.piece_list().len() ==> #[trigger] self.piece_list()[j]
                        == old(self).piece_list()[j],
                self.grid() == old(self).grid(),
                self.pos_list() == old(self).pos_list(),
                self.protected_list() == old(self).protected_list(),
                self.event_list() == old(self).event_list(),
                self.spec_width() == old(self).spec_width(),
                self.spec_height() == old(self).spec_height(),
                self.team_count() == old(self).team_count(),
                old(self).wf(),
            decreases n - q,
        {
            if self.pieces[q].team_id == self.current_team_idx {
                let mut p = self.pieces[q];
                p.exhaustion.reset();
                self.pieces[q] = p;
            }
            q = q + 1;
        }
        proof {
            let o = *old(self);
            let g = Board {
                current_team_idx: o.current_team_idx,
                pieces: o.pieces,
                ..*self
            };
            assert forall|p: int| 0 <= p < self.pos_list().len() implies #[trigger] self.pos_ok(
                p,
            ) by {
                assert(o.pos_ok(p));
            }
            assert forall|c: int| 0 <= c < self.grid().len() implies #[trigger] self.cell_ok(c) by {
                assert(o.cell_ok(c));
            }
        }
    }

    /// Retire every dying piece: clear its occupancy and mark its
    /// record as no longer in the game, keeping it for history.
    pub fn remove_dying(&mut self)
        requires
            old(self).wf(),
        ensures
            final(self).wf(),
            final(self).piece_list().len() == old(self).piece_list().len(),
            forall|q: int|
                0 <= q < final(self).piece_list().len() ==> #[trigger] final(self).piece_list()[q]
                    == (if old(self).piece_list()[q].dying {
                    Piece { exists: false, ..old(self).piece_list()[q] }
                } else {
                    old(self).piece_list()[q]
                }),
            forall|q: int|
                0 <= q < final(self).pos_list().len() ==> #[trigger] final(self).pos_list()[q] == (
                if old(self).piece_list()[q].dying {
                    None::<(u8, u8)>
                } else {
                    old(self).pos_list()[q]
                }),
            forall|c: int|
                0 <= c < final(self).grid().len() ==> #[trigger] final(self).grid()[c] == (
                match old(self).grid()[c] {
                    Some(q) => if old(self).piece_list()[q as int].dying {
                        None::<usize>
                    } else {
                        Some(q)
                    },
                    None => None::<usize>,
                }),
            final(self).grid().len() == old(self).grid().len(),
            final(self).pos_list().len() == old(self).pos_list().len(),
            final(self).protected_list() == old(self).protected_list(),
            final(self).event_list() == old(self).event_list(),
            final(self).spec_width() == old(self).spec_width(),
            final(self).spec_height() == old(self).spec_height(),
            final(self).turn() == old(self).turn(),
            final(self).team_count() == old(self).team_count(),
    {
        let n = self.pieces.len();
        let mut q: usize = 0;
        while q < n
            invariant
                q <= n,
                n as int == self.piece_list().len(),
                self.piece_list().len() == old(self).piece_list().len(),
                self.pos_list().len() == old(self).pos_list().len(),
                old(self).wf(),
                forall|j: int|
                    0 <= j < q as int ==> #[trigger] self.piece_list()[j] == (if old(
                        self,
                    ).piece_list()[j].dying {
                        Piece { exists: false, ..old(self).piece_list()[j] }
                    } else {
                        old(self).piece_list()[j]
                    }),
                forall|j: int|
                    q as int <= j < self.piece_list().len() ==> #[trigger] self.piece_list()[j]
                        == old(self).piece_list()[j],
                forall|j: int|
                    0 <= j < q as int ==> #[trigger] self.pos_list()[j] == (if old(
                        self,
                    ).piece_list()[j].dying {
                        None::<(u8, u8)>
                    } else {
                        old(self).pos_list()[j]
                    }),
                forall|j: int|
                    q as int <= j < self.pos_list().len() ==> #[trigger] self.pos_list()[j] == old(
                        self,
                    ).pos_list()[j],
                self.grid().len() == old(self).grid().len(),
                forall|c: int|
                    0 <= c < self.grid().len() ==> #[trigger] self.grid()[c] == (match old(
                        self,
                    ).grid()[c] {
                        Some(j) => if j < q && old(self).piece_list()[j as int].dying {
                            None::<usize>
                        } else {
                            Some(j)
                        },
                        None => None::<usize>,
                    }),
                self.protected_list() == old(self).protected_list(),
                self.event_list() == old(self).event_list(),
                self.spec_width() == old(self).spec_width(),
                self.spec_height() == old(self).spec_height(),
                self.turn() == old(self).turn(),
                self.team_count() == old(self).team_count(),
            decreases n - q,
        {
            if self.pieces[q].dying {
                if let Some(xy) = self.positions[q] {
                    proof {
                        assert(old(self).pos_ok(q as int));
                    }
                    let i = self.idx_of(xy.0, xy.1);
                    proof {
                        assert(old(self).grid()[i as int] == Some(q));
                    }
                    self.cells[i] = None;
                }
                self.positions[q] = None;
                let mut p = self.pieces[q];
                p.exists = false;
                self.pieces[q] = p;
            }
            q = q + 1;
            proof {
                let o = *old(self);
                assert forall|c: int| 0 <= c < self.grid().len() implies #[trigger] self.grid()[c]
                    == (match o.grid()[c] {
                    Some(j) => if j < q && o.piece_list()[j as int].dying {
                        None::<usize>
                    } else {
                        Some(j)
                    },
                    None => None::<usize>,
                }) by {
                    assert(o.cell_ok(c));
                }
            }
        }
        proof {
            let g = *self;
            let o = *old(self);
            assert forall|c: int| 0 <= c < g.grid().len() implies #[trigger] g.grid()[c] == (
            match o.grid()[c] {
                Some(j) => if o.piece_list()[j as int].dying {
                    None::<usize>
                } else {
                    Some(j)
                },
                None => None::<usize>,
            }) by {
                assert(o.cell_ok(c));
            }
            assert forall|p: int| 0 <= p < g.pos_list().len() implies #[trigger] g.pos_ok(p) by {
                assert(o.pos_ok(p));
                if g.pos_list()[p] is Some {
                    assert(!o.piece_list()[p].dying);
                    let xy = g.pos_list()[p]->0;
                    lemma_cell_index_bound(
                        o.spec_width(),
                        o.spec_height(),
                        xy.0 as int,
                        xy.1 as int,
                    );
                    assert(o.grid()[o.cell_index(xy.0 as int, xy.1 as int)] == Some(p as usize));
                }
            }
            assert forall|c: int| 0 <= c < g.grid().len() implies #[trigger] g.cell_ok(c) by {
                assert(o.cell_ok(c));
            }
        }
    }

    /// Dequeue the oldest pending event, if any; the state machine's
    /// side of the queue.
    pub fn poll_event(&mut self) -> (r: Option<BoardEvent>)
        ensures
            final(self).grid() == old(self).grid(),
            final(self).piece_list() == old(self).piece_list(),
            final(self).pos_list() == old(self).pos_list(),
            final(self).protected_list() == old(self).protected_list(),
            final(self).spec_width() == old(self).spec_width(),
            final(self).spec_height() == old(self).spec_height(),
            final(self).turn() == old(self).turn(),
            final(self).team_count() == old(self).team_count(),
            old(self).wf() ==> final(self).wf(),
            old(self).event_list().len() == 0 ==> r is None && final(self).event_list()
                == old(self).event_list(),
            old(self).event_list().len() > 0 ==> r == Some(old(self).event_list()[0])
                && final(self).event_list() == old(self).event_list().drop_first(),
    {
        let r = if self.events.len() == 0 {
            None
        } else {
            let e = self.events.remove(0);
            proof {
                assert(self.events@ =~= old(self).event_list().drop_first());
            }
            Some(e)
        };
        proof {
            if old(self).wf() {
                assert forall|p: int| 0 <= p < self.pos_list().len() implies #[trigger] self.pos_ok(
                    p,
                ) by {
                    assert(old(self).pos_ok(p));
                }
                assert forall|c: int| 0 <= c < self.grid().len() implies #[trigger] self.cell_ok(
                    c,
                ) by {
                    assert(old(self).cell_ok(c));
                }
            }
        }
        r
    }
}

} // verus!
