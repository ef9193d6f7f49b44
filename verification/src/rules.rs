//! Targeting and protection rules: the walk of a range over a live
//! board, and the per-cell target predicates derived from it.
//!
//! The walk is the shared primitive behind both "compute legal move
//! destinations" and "apply an area power".  It visits each ray in
//! order and stops a ray at the board edge, at the first occupied
//! cell when the range does not jump, and — for area powers only — at
//! a protected cell, which is skipped without being resolved.

use vstd::prelude::*;

use crate::board::Board;
use crate::geometry::Range;
use crate::geometry::cell_view;
use crate::geometry::ray_view;
use crate::geometry::rays;
use crate::geometry::rays_view;

verus! {

/// The cells a walk resolves along one ray.  `stop_protected` is set
/// for area powers: a protected cell ends the ray without being
/// resolved.  Without jumping, the first occupied cell is resolved
/// and then ends the ray.
pub open spec fn walk_ray(b: Board, ray: Seq<(int, int)>, jumps: bool, stop_protected: bool) -> Seq<
    (int, int),
>
    decreases ray.len(),
{
    if ray.len() == 0 {
        Seq::empty()
    } else {
        let c = ray[0];
        if !b.on_board(c.0, c.1) {
            Seq::empty()
        } else if stop_protected && b.protected_at(c.0, c.1) {
            Seq::empty()
        } else if !jumps && b.occupied(c.0, c.1) {
            seq![c]
        } else {
            seq![c] + walk_ray(b, ray.drop_first(), jumps, stop_protected)
        }
    }
}

/// The concatenation of the walks of the first `n` rays.
pub open spec fn walk_upto(
    b: Board,
    rs: Seq<Seq<(int, int)>>,
    jumps: bool,
    stop_protected: bool,
    n: int,
) -> Seq<(int, int)>
    decreases n,
{
    if n <= 0 {
        Seq::empty()
    } else {
        walk_upto(b, rs, jumps, stop_protected, n - 1) + walk_ray(b, rs[n - 1], jumps,
        stop_protected)
    }
}

/// Every cell a movement walk of `r` from the origin visits, in walk
/// order.
pub open spec fn spec_visited(b: Board, r: Range, fx: int, fy: int) -> Seq<(int, int)> {
    walk_upto(b, rays(r, fx, fy), r.jumps, false, rays(r, fx, fy).len() as int)
}

/// Every cell an area power of range `r` from the origin resolves
/// over, in walk order: protected cells stop their ray unresolved.
pub open spec fn spec_area(b: Board, r: Range, fx: int, fy: int) -> Seq<(int, int)> {
    walk_upto(b, rays(r, fx, fy), r.jumps, true, rays(r, fx, fy).len() as int)
}

/// On-board coordinates as mathematical pairs.
pub open spec fn coords_view(v: Seq<(u8, u8)>) -> Seq<(int, int)> {
    Seq::new(v.len(), |i: int| (v[i].0 as int, v[i].1 as int))
}

/// Is `(x, y)` a legal destination or attack target of the piece
/// behind handle `p`?  It must lie on the walk of the piece's
/// movement range from its position, and an occupied destination
/// needs the attack capability.
pub open spec fn spec_possible_target(b: Board, p: int, x: int, y: int) -> bool {
    &&& 0 <= p < b.piece_list().len()
    &&& p < b.pos_list().len()
    &&& match (b.pos_list()[p], b.piece_list()[p].movement) {
        (Some(pos), Some(m)) => spec_visited(b, m.range, pos.0 as int, pos.1 as int).contains(
            (x, y),
        ),
        _ => false,
    }
    &&& (!b.occupied(x, y) || b.piece_list()[p].attack)
}

/// Is `(x, y)` within the reach of the special power of the piece
/// behind handle `p`?  A highlighting signal only: resolution
/// re-derives legality itself.
pub open spec fn spec_possible_special_target(b: Board, p: int, x: int, y: int) -> bool {
    &&& 0 <= p < b.piece_list().len()
    &&& p < b.pos_list().len()
    &&& match (b.pos_list()[p], b.piece_list()[p].activatable) {
        (Some(pos), Some(a)) => spec_visited(b, a.range, pos.0 as int, pos.1 as int).contains(
            (x, y),
        ),
        _ => false,
    }
}

/// Walk every ray of `range` from the origin over `board`, in order,
/// honouring the stop rules of `walk_ray`.
fn walk_cells(range: &Range, from_x: u8, from_y: u8, board: &Board, stop_protected: bool) -> (out:
    Vec<(u8, u8)>)
    requires
        board.wf(),
    ensures
        coords_view(out@) == walk_upto(
            *board,
            rays(*range, from_x as int, from_y as int),
            range.jumps,
            stop_protected,
            rays(*range, from_x as int, from_y as int).len() as int,
        ),
{
    let ghost grs = rays(*range, from_x as int, from_y as int);
    let paths = range.paths(from_x, from_y);
    let mut out: Vec<(u8, u8)> = Vec::new();
    let mut i: usize = 0;
    while i < paths.len()
        invariant
            board.wf(),
            rays_view(paths) == grs,
            i as int <= paths@.len(),
            coords_view(out@) == walk_upto(*board, grs, range.jumps, stop_protected, i as int),
        decreases paths@.len() - i as int,
    {
        let ray = &paths[i];
        let ghost gray = grs[i as int];
        proof {
            assert(ray_view(*ray) == gray);
        }
        let mut seg: Vec<(u8, u8)> = Vec::new();
        let n = ray.len();
        let mut k: usize = 0;
        proof {
            assert(gray.skip(0) =~= gray);
            assert(coords_view(seg@) =~= Seq::<(int, int)>::empty());
            assert(Seq::<(int, int)>::empty() + walk_ray(*board, gray, range.jumps, stop_protected)
                =~= walk_ray(*board, gray, range.jumps, stop_protected));
        }
        while k < n
            invariant_except_break
                board.wf(),
                k as int <= gray.len(),
                n as int == gray.len(),
                ray_view(*ray) == gray,
                walk_ray(*board, gray, range.jumps, stop_protected) == coords_view(seg@)
                    + walk_ray(*board, gray.skip(k as int), range.jumps, stop_protected),
            ensures
                coords_view(seg@) == walk_ray(*board, gray, range.jumps, stop_protected),
            decreases n - k,
        {
            let (cx, cy) = ray[k];
            proof {
                assert(cell_view(ray@[k as int]) == gray[k as int]);
                assert(gray.skip(k as int)[0] == gray[k as int]);
                assert(gray.skip(k as int).drop_first() =~= gray.skip(k as int + 1));
            }
            match board.get_cell_safely(cx, cy) {
                None => {
                    proof {
                        assert(walk_ray(
                            *board,
                            gray.skip(k as int),
                            range.jumps,
                            stop_protected,
                        ) =~= Seq::<(int, int)>::empty());
                        assert(coords_view(seg@) + Seq::<(int, int)>::empty() =~= coords_view(
                            seg@,
                        ));
                    }
                    break ;
                },
                Some((x, y)) => {
                    if stop_protected && board.is_protected(x, y) {
                        proof {
                            assert(walk_ray(
                                *board,
                                gray.skip(k as int),
                                range.jumps,
                                stop_protected,
                            ) =~= Seq::<(int, int)>::empty());
                            assert(coords_view(seg@) + Seq::<(int, int)>::empty() =~= coords_view(
                                seg@,
                            ));
                        }
                        break ;
                    }
                    let occ = board.get_piece(x, y).is_some();
                    seg.push((x, y));
                    proof {
                        assert(coords_view(seg@) =~= coords_view(seg@.drop_last()) + seq![
                            (x as int, y as int),
                        ]);
                    }
                    if !range.jumps && occ {
                        proof {
                            assert(walk_ray(
                                *board,
                                gray.skip(k as int),
                                range.jumps,
                                stop_protected,
                            ) =~= seq![gray[k as int]]);
                        }
                        break ;
                    }
                    proof {
                        assert(walk_ray(*board, gray.skip(k as int), range.jumps, stop_protected)
                            =~= seq![gray[k as int]] + walk_ray(
                            *board,
                            gray.skip(k as int + 1),
                            range.jumps,
                            stop_protected,
                        ));
                    }
                },
            }
            k = k + 1;
        }
        proof {
            assert(coords_view(out@ + seg@) =~= coords_view(out@) + coords_view(seg@));
        }
        let mut seg_moved = seg;
        out.append(&mut seg_moved);
        i = i + 1;
    }
    proof {
        assert(paths@.len() == grs.len());
    }
    out
}

/// A walk only resolves on-board cells.
pub proof fn lemma_walk_ray_on_board(b: Board, ray: Seq<(int, int)>, jumps: bool, sp: bool)
    ensures
        forall|i: int|
            0 <= i < walk_ray(b, ray, jumps, sp).len() ==> b.on_board(
                (#[trigger] walk_ray(b, ray, jumps, sp)[i]).0,
                walk_ray(b, ray, jumps, sp)[i].1,
            ),
    decreases ray.len(),
{
    let w = walk_ray(b, ray, jumps, sp);
    if ray.len() > 0 {
        lemma_walk_ray_on_board(b, ray.drop_first(), jumps, sp);
        let rest = walk_ray(b, ray.drop_first(), jumps, sp);
        assert forall|i: int| 0 <= i < w.len() implies b.on_board(
            (#[trigger] w[i]).0,
            w[i].1,
        ) by {
            if i > 0 {
                assert(w[i] == rest[i - 1]);
            }
        }
    }
}

/// A whole walk only resolves on-board cells.
pub proof fn lemma_walk_upto_on_board(
    b: Board,
    rs: Seq<Seq<(int, int)>>,
    jumps: bool,
    sp: bool,
    n: int,
)
    ensures
        forall|i: int|
            0 <= i < walk_upto(b, rs, jumps, sp, n).len() ==> b.on_board(
                (#[trigger] walk_upto(b, rs, jumps, sp, n)[i]).0,
                walk_upto(b, rs, jumps, sp, n)[i].1,
            ),
    decreases n,
{
    if n > 0 {
        lemma_walk_upto_on_board(b, rs, jumps, sp, n - 1);
        lemma_walk_ray_on_board(b, rs[n - 1], jumps, sp);
        let w = walk_upto(b, rs, jumps, sp, n);
        let prefix = walk_upto(b, rs, jumps, sp, n - 1);
        let last = walk_ray(b, rs[n - 1], jumps, sp);
        assert forall|i: int| 0 <= i < w.len() implies b.on_board(
            (#[trigger] w[i]).0,
            w[i].1,
        ) by {
            if i < prefix.len() {
                assert(w[i] == prefix[i]);
            } else {
                assert(w[i] == last[i - prefix.len()]);
            }
        }
    }
}

/// Two boards that agree on size, occupancy and protection walk the
/// same: the walk reads nothing else.
pub proof fn lemma_walk_ray_congruence(
    a: Board,
    b: Board,
    ray: Seq<(int, int)>,
    jumps: bool,
    sp: bool,
)
    requires
        b.spec_width() == a.spec_width(),
        b.spec_height() == a.spec_height(),
        b.grid() == a.grid(),
        b.protected_list() == a.protected_list(),
    ensures
        walk_ray(a, ray, jumps, sp) == walk_ray(b, ray, jumps, sp),
    decreases ray.len(),
{
    if ray.len() > 0 {
        lemma_walk_ray_congruence(a, b, ray.drop_first(), jumps, sp);
    }
    assert(walk_ray(a, ray, jumps, sp) =~= walk_ray(b, ray, jumps, sp));
}

/// As `lemma_walk_ray_congruence`, over a whole walk.
pub proof fn lemma_walk_upto_congruence(
    a: Board,
    b: Board,
    rs: Seq<Seq<(int, int)>>,
    jumps: bool,
    sp: bool,
    n: int,
)
    requires
        b.spec_width() == a.spec_width(),
        b.spec_height() == a.spec_height(),
        b.grid() == a.grid(),
        b.protected_list() == a.protected_list(),
    ensures
        walk_upto(a, rs, jumps, sp, n) == walk_upto(b, rs, jumps, sp, n),
    decreases n,
{
    if n > 0 {
        lemma_walk_upto_congruence(a, b, rs, jumps, sp, n - 1);
        lemma_walk_ray_congruence(a, b, rs[n - 1], jumps, sp);
    }
    assert(walk_upto(a, rs, jumps, sp, n) =~= walk_upto(b, rs, jumps, sp, n));
}

/// The target predicates read only size, occupancy, protection, the
/// piece arena and the positions.
pub proof fn lemma_targets_congruence(a: Board, b: Board, p: int, x: int, y: int)
    requires
        b.spec_width() == a.spec_width(),
        b.spec_height() == a.spec_height(),
        b.grid() == a.grid(),
        b.protected_list() == a.protected_list(),
        b.piece_list() == a.piece_list(),
        b.pos_list() == a.pos_list(),
    ensures
        spec_possible_target(a, p, x, y) == spec_possible_target(b, p, x, y),
        spec_possible_special_target(a, p, x, y) == spec_possible_special_target(b, p, x, y),
{
    if 0 <= p < a.piece_list().len() {
        match (a.pos_list()[p], a.piece_list()[p].movement) {
            (Some(pos), Some(m)) => {
                lemma_walk_upto_congruence(
                    a,
                    b,
                    rays(m.range, pos.0 as int, pos.1 as int),
                    m.range.jumps,
                    false,
                    rays(m.range, pos.0 as int, pos.1 as int).len() as int,
                );
            },
            _ => {},
        }
        match (a.pos_list()[p], a.piece_list()[p].activatable) {
            (Some(pos), Some(ap)) => {
                lemma_walk_upto_congruence(
                    a,
                    b,
                    rays(ap.range, pos.0 as int, pos.1 as int),
                    ap.range.jumps,
                    false,
                    rays(ap.range, pos.0 as int, pos.1 as int).len() as int,
                );
            },
            _ => {},
        }
    }
}

/// As above for the area walk of a power.
pub proof fn lemma_area_congruence(a: Board, b: Board, r: Range, fx: int, fy: int)
    requires
        b.spec_width() == a.spec_width(),
        b.spec_height() == a.spec_height(),
        b.grid() == a.grid(),
        b.protected_list() == a.protected_list(),
    ensures
        spec_area(a, r, fx, fy) == spec_area(b, r, fx, fy),
        spec_visited(a, r, fx, fy) == spec_visited(b, r, fx, fy),
{
    lemma_walk_upto_congruence(a, b, rays(r, fx, fy), r.jumps, true, rays(r, fx, fy).len() as int);
    lemma_walk_upto_congruence(a, b, rays(r, fx, fy), r.jumps, false, rays(r, fx, fy).len() as int);
}

/// Linear membership test over walked cells.
fn contains_cell(v: &Vec<(u8, u8)>, x: u8, y: u8) -> (r: bool)
    ensures
        r == coords_view(v@).contains((x as int, y as int)),
{
    let mut i: usize = 0;
    let mut found = false;
    while i < v.len()
        invariant
            i as int <= v@.len(),
            found == exists|j: int|
                0 <= j < i as int && coords_view(v@)[j] == (x as int, y as int),
        decreases v@.len() - i as int,
    {
        if v[i].0 == x && v[i].1 == y {
            proof {
                assert(coords_view(v@)[i as int] == (x as int, y as int));
            }
            found = true;
        }
        i = i + 1;
    }
    proof {
        if found {
            let j = choose|j: int| 0 <= j < v@.len() && coords_view(v@)[j] == (x as int, y as int);
            assert(coords_view(v@).contains((x as int, y as int)));
        }
        if coords_view(v@).contains((x as int, y as int)) {
            let j = choose|j: int|
                0 <= j < coords_view(v@).len() && coords_view(v@)[j] == (x as int, y as int);
            assert(0 <= j < v@.len() && coords_view(v@)[j] == (x as int, y as int));
        }
    }
    found
}

impl Range {
    /// The cells an ordinary movement walk of this range visits from
    /// the origin, in walk order.
    pub fn visited_cells(&self, from_x: u8, from_y: u8, board: &Board) -> (out: Vec<(u8, u8)>)
        requires
            board.wf(),
        ensures
            coords_view(out@) == spec_visited(*board, *self, from_x as int, from_y as int),
    {
        walk_cells(self, from_x, from_y, board, false)
    }

    /// The cells an area power of this range resolves over from the
    /// origin: protected cells end their ray without being resolved.
    pub fn area_cells(&self, from_x: u8, from_y: u8, board: &Board) -> (out: Vec<(u8, u8)>)
        requires
            board.wf(),
        ensures
            coords_view(out@) == spec_area(*board, *self, from_x as int, from_y as int),
    {
        walk_cells(self, from_x, from_y, board, true)
    }
}

/// Is `(x, y)` a legal destination or attack target of the piece
/// behind `piece`?  See `spec_possible_target`.
pub fn is_possible_target_of(board: &Board, piece: usize, x: u8, y: u8) -> (r: bool)
    requires
        board.wf(),
        piece < board.piece_list().len(),
    ensures
        r == spec_possible_target(*board, piece as int, x as int, y as int),
{
    let pos = board.piece_position(piece);
    let p = board.piece(piece);
    match (pos, p.movement) {
        (Some((px, py)), Some(m)) => {
            let cells = m.range.visited_cells(px, py, board);
            let hit = contains_cell(&cells, x, y);
            hit && (board.get_piece(x, y).is_none() || p.attack)
        },
        _ => false,
    }
}

/// Is `(x, y)` within reach of the special power of the piece behind
/// `piece`?  See `spec_possible_special_target`.
pub fn is_possible_special_target_of(board: &Board, piece: usize, x: u8, y: u8) -> (r: bool)
    requires
        board.wf(),
        piece < board.piece_list().len(),
    ensures
        r == spec_possible_special_target(*board, piece as int, x as int, y as int),
{
    let pos = board.piece_position(piece);
    let p = board.piece(piece);
    match (pos, p.activatable) {
        (Some((px, py)), Some(a)) => {
            let cells = a.range.visited_cells(px, py, board);
            contains_cell(&cells, x, y)
        },
        _ => false,
    }
}

} // verus!
