//! Movement geometry: directions, ranges, and the rays of candidate
//! cells a range generates from an origin.
//!
//! A `Range` describes a movement or targeting pattern: a direction
//! shape, a maximum step count, whether occupied cells block the walk,
//! and whether the origin itself is a candidate.  Everything here is
//! pure: the walk over an actual board lives in `rules`.

use vstd::prelude::*;

verus! {

/// The shape of a movement or targeting pattern.
#[derive(Debug, PartialEq, Eq, Copy, Clone, Structural)]
pub enum Direction {
    Vertical,
    Horizontal,
    Diagonal,
    Straight,
    Star,
    Anywhere,
}

/// A movement/targeting pattern.  `steps` bounds the per-axis distance
/// (255 meaning effectively unlimited on a 255-wide board), `jumps`
/// lets the walk pass over occupied cells, and `include_self` adds the
/// origin as a candidate.
#[derive(Debug, Copy, Clone)]
pub struct Range {
    pub direction: Direction,
    pub steps: u8,
    pub jumps: bool,
    pub include_self: bool,
}

/// Absolute difference of two integers.
pub open spec fn abs_diff(a: int, b: int) -> int {
    if a >= b {
        a - b
    } else {
        b - a
    }
}

/// The shape predicate of a direction: which destination cells lie on
/// it at all, ignoring the step bound.
pub open spec fn direction_reaches(d: Direction, fx: int, fy: int, tx: int, ty: int) -> bool {
    match d {
        Direction::Vertical => fx == tx,
        Direction::Horizontal => fy == ty,
        Direction::Diagonal => abs_diff(fy, ty) == abs_diff(fx, tx),
        Direction::Straight => fx == tx || fy == ty,
        Direction::Star => abs_diff(fy, ty) == abs_diff(fx, tx) || fx == tx || fy == ty,
        Direction::Anywhere => true,
    }
}

/// The reachability test of a whole range: the direction's shape holds
/// and both per-axis distances are within the step bound.
pub open spec fn range_reaches(r: Range, fx: int, fy: int, tx: int, ty: int) -> bool {
    &&& direction_reaches(r.direction, fx, fy, tx, ty)
    &&& abs_diff(fy, ty) <= r.steps
    &&& abs_diff(fx, tx) <= r.steps
}

/// The unit step vectors of a direction, one per ray.  `Anywhere` has
/// none: its path generator enumerates the whole coordinate block
/// instead (see `rays`).
pub open spec fn step_vectors(d: Direction) -> Seq<(int, int)> {
    match d {
        Direction::Vertical => seq![(0int, 1int), (0int, -1int)],
        Direction::Horizontal => seq![(1int, 0int), (-1int, 0int)],
        Direction::Diagonal => seq![(1int, 1int), (-1int, -1int), (1int, -1int), (-1int, 1int)],
        Direction::Straight => seq![(1int, 0int), (-1int, 0int), (0int, 1int), (0int, -1int)],
        Direction::Star => seq![
            (1int, 1int),
            (-1int, -1int),
            (1int, -1int),
            (-1int, 1int),
            (1int, 0int),
            (-1int, 0int),
            (0int, 1int),
            (0int, -1int),
        ],
        Direction::Anywhere => seq![],
    }
}

/// The cells of one ray: `k` steps of `v` away from the origin, for
/// `k` in `1..=steps`, in walking order.
pub open spec fn ray_seq(fx: int, fy: int, v: (int, int), steps: int) -> Seq<(int, int)> {
    Seq::new(steps as nat, |k: int| (fx + (k + 1) * v.0, fy + (k + 1) * v.1))
}

/// All rays of a range from an origin, in order.  For every direction
/// but `Anywhere` there is one ray per step vector, plus a one-cell
/// ray holding the origin when `include_self` is set.  `Anywhere`
/// enumerates the coordinate block 0..255 by 0..255 as one ray per
/// column, ignoring `steps` and `include_self`: a deliberate special
/// case that is only consistent for jumping, unlimited ranges.
pub open spec fn rays(r: Range, fx: int, fy: int) -> Seq<Seq<(int, int)>> {
    if r.direction is Anywhere {
        Seq::new(255, |x: int| Seq::new(255, |y: int| (x, y)))
    } else {
        let base = Seq::new(
            step_vectors(r.direction).len(),
            |i: int| ray_seq(fx, fy, step_vectors(r.direction)[i], r.steps as int),
        );
        if r.include_self {
            base.push(seq![(fx, fy)])
        } else {
            base
        }
    }
}

/// A candidate cell as mathematical coordinates.
pub open spec fn cell_view(c: (i16, i16)) -> (int, int) {
    (c.0 as int, c.1 as int)
}

/// One generated ray as mathematical coordinates.
pub open spec fn ray_view(r: Vec<(i16, i16)>) -> Seq<(int, int)> {
    Seq::new(r@.len(), |k: int| cell_view(r@[k]))
}

/// A generated path list as mathematical coordinates.
pub open spec fn rays_view(v: Vec<Vec<(i16, i16)>>) -> Seq<Seq<(int, int)>> {
    Seq::new(v@.len(), |i: int| ray_view(v@[i]))
}

/// Every step vector has components in -1..=1.
pub proof fn lemma_step_vectors_small(d: Direction)
    ensures
        forall|i: int|
            0 <= i < step_vectors(d).len() ==> -1 <= #[trigger] step_vectors(d)[i].0 <= 1 && -1
                <= step_vectors(d)[i].1 <= 1,
{
    assert forall|i: int| 0 <= i < step_vectors(d).len() implies -1
        <= #[trigger] step_vectors(d)[i].0 <= 1 && -1 <= step_vectors(d)[i].1 <= 1 by {}
}

impl Direction {
    /// The shape test: does `(to_x, to_y)` lie on this direction's
    /// shape as seen from `(from_x, from_y)`?
    pub fn reaches(&self, from_x: u8, from_y: u8, to_x: u8, to_y: u8) -> (r: bool)
        ensures
            r == direction_reaches(*self, from_x as int, from_y as int, to_x as int, to_y as int),
    {
        let dy: i16 = from_y as i16 - to_y as i16;
        let dx: i16 = from_x as i16 - to_x as i16;
        let ady: i16 = if dy < 0 {
            -dy
        } else {
            dy
        };
        let adx: i16 = if dx < 0 {
            -dx
        } else {
            dx
        };
        match self {
            Direction::Vertical => from_x == to_x,
            Direction::Horizontal => from_y == to_y,
            Direction::Diagonal => ady == adx,
            Direction::Straight => from_x == to_x || from_y == to_y,
            Direction::Star => ady == adx || from_x == to_x || from_y == to_y,
            Direction::Anywhere => true,
        }
    }

    /// The step vectors of this direction, as concrete pairs.
    pub fn paths(&self) -> (r: Vec<(i16, i16)>)
        ensures
            r@.len() == step_vectors(*self).len(),
            forall|i: int|
                0 <= i < r@.len() ==> (#[trigger] r@[i]).0 as int == step_vectors(*self)[i].0
                    && r@[i].1 as int == step_vectors(*self)[i].1,
    {
        let mut v: Vec<(i16, i16)> = Vec::new();
        match self {
            Direction::Vertical => {
                v.push((0, 1));
                v.push((0, -1));
            },
            Direction::Horizontal => {
                v.push((1, 0));
                v.push((-1, 0));
            },
            Direction::Diagonal => {
                v.push((1, 1));
                v.push((-1, -1));
                v.push((1, -1));
                v.push((-1, 1));
            },
            Direction::Straight => {
                v.push((1, 0));
                v.push((-1, 0));
                v.push((0, 1));
                v.push((0, -1));
            },
            Direction::Star => {
                v.push((1, 1));
                v.push((-1, -1));
                v.push((1, -1));
                v.push((-1, 1));
                v.push((1, 0));
                v.push((-1, 0));
                v.push((0, 1));
                v.push((0, -1));
            },
            Direction::Anywhere => {},
        }
        v
    }
}

impl Range {
    /// A non-jumping pattern with the largest step bound.
    pub fn new_unlimited(direction: Direction) -> (r: Range)
        ensures
            r == (Range { direction, steps: 255, jumps: false, include_self: false }),
    {
        Range { direction, steps: 255, jumps: false, include_self: false }
    }

    /// A non-jumping pattern bounded by `steps`.
    pub fn new(direction: Direction, steps: u8) -> (r: Range)
        ensures
            r == (Range { direction, steps, jumps: false, include_self: false }),
    {
        Range { direction, steps, jumps: false, include_self: false }
    }

    /// The whole-board pattern: every cell, over any occupancy.
    pub fn anywhere() -> (r: Range)
        ensures
            r == (Range {
                direction: Direction::Anywhere,
                steps: 255,
                jumps: true,
                include_self: false,
            }),
    {
        Range { direction: Direction::Anywhere, steps: 255, jumps: true, include_self: false }
    }

    /// The reachability test: shape plus per-axis step bound.  The
    /// bound is per axis, not path length; the two coincide for the
    /// axis-aligned and diagonal shapes.
    pub fn reaches(&self, from_x: u8, from_y: u8, to_x: u8, to_y: u8) -> (r: bool)
        ensures
            r == range_reaches(*self, from_x as int, from_y as int, to_x as int, to_y as int),
    {
        let dy: i16 = from_y as i16 - to_y as i16;
        let dx: i16 = from_x as i16 - to_x as i16;
        let ady: i16 = if dy < 0 {
            -dy
        } else {
            dy
        };
        let adx: i16 = if dx < 0 {
            -dx
        } else {
            dx
        };
        self.direction.reaches(from_x, from_y, to_x, to_y) && ady <= self.steps as i16 && adx
            <= self.steps as i16
    }

    /// Generate the rays of candidate cells from an origin, outermost
    /// list one entry per ray, each ray ordered outward.  Cells may
    /// lie off the board; the walk in `rules` is what stops at the
    /// border.
    pub fn paths(&self, from_x: u8, from_y: u8) -> (out: Vec<Vec<(i16, i16)>>)
        ensures
            rays_view(out) == rays(*self, from_x as int, from_y as int),
    {
        let ghost gr = rays(*self, from_x as int, from_y as int);
        let mut out: Vec<Vec<(i16, i16)>> = Vec::new();
        if matches!(self.direction, Direction::Anywhere) {
            let mut x: i16 = 0;
            while x < 255
                invariant
                    0 <= x <= 255,
                    out@.len() == x as int,
                    forall|i: int| 0 <= i < x as int ==> ray_view(#[trigger] out@[i]) == gr[i],
                    gr == rays(*self, from_x as int, from_y as int),
                    self.direction is Anywhere,
                decreases 255 - x as int,
            {
                let mut row: Vec<(i16, i16)> = Vec::new();
                let mut y: i16 = 0;
                while y < 255
                    invariant
                        0 <= y <= 255,
                        row@.len() == y as int,
                        forall|k: int|
                            0 <= k < y as int ==> cell_view(#[trigger] row@[k]) == (x as int, k),
                        0 <= x < 255,
                    decreases 255 - y as int,
                {
                    row.push((x, y));
                    y = y + 1;
                }
                proof {
                    assert(ray_view(row) =~= Seq::new(255, |k: int| (x as int, k)));
                    assert(gr[x as int] =~= Seq::new(255, |k: int| (x as int, k)));
                }
                out.push(row);
                x = x + 1;
            }
        } else {
            let vecs = self.direction.paths();
            proof {
                lemma_step_vectors_small(self.direction);
            }
            let mut i: usize = 0;
            while i < vecs.len()
                invariant
                    0 <= i <= vecs.len(),
                    out@.len() == i as int,
                    forall|j: int| 0 <= j < i as int ==> ray_view(#[trigger] out@[j]) == gr[j],
                    gr == rays(*self, from_x as int, from_y as int),
                    !(self.direction is Anywhere),
                    vecs@.len() == step_vectors(self.direction).len(),
                    forall|j: int|
                        0 <= j < vecs@.len() ==> (#[trigger] vecs@[j]).0 as int == step_vectors(
                            self.direction,
                        )[j].0 && vecs@[j].1 as int == step_vectors(self.direction)[j].1,
                    forall|j: int|
                        0 <= j < step_vectors(self.direction).len() ==> -1
                            <= #[trigger] step_vectors(self.direction)[j].0 <= 1 && -1
                            <= step_vectors(self.direction)[j].1 <= 1,
                decreases vecs@.len() - i as int,
            {
                let (dx, dy) = vecs[i];
                let mut ray: Vec<(i16, i16)> = Vec::new();
                let mut k: u16 = 0;
                while k < self.steps as u16
                    invariant
                        0 <= k <= self.steps as int,
                        ray@.len() == k as int,
                        -1 <= dx as int <= 1,
                        -1 <= dy as int <= 1,
                        forall|m: int|
                            0 <= m < k as int ==> cell_view(#[trigger] ray@[m]) == (
                                from_x as int + (m + 1) * (dx as int),
                                from_y as int + (m + 1) * (dy as int),
                            ),
                    decreases self.steps as int - k as int,
                {
                    k = k + 1;
                    proof {
                        assert(-255 <= (k as int) * (dx as int) <= 255) by (nonlinear_arith)
                            requires
                                1 <= k as int <= 255,
                                -1 <= dx as int <= 1,
                        ;
                        assert(-255 <= (k as int) * (dy as int) <= 255) by (nonlinear_arith)
                            requires
                                1 <= k as int <= 255,
                                -1 <= dy as int <= 1,
                        ;
                    }
                    let cx: i16 = from_x as i16 + (k as i16) * dx;
                    let cy: i16 = from_y as i16 + (k as i16) * dy;
                    ray.push((cx, cy));
                }
                proof {
                    assert(ray_view(ray) =~= ray_seq(
                        from_x as int,
                        from_y as int,
                        step_vectors(self.direction)[i as int],
                        self.steps as int,
                    ));
                }
                out.push(ray);
                i = i + 1;
            }
            if self.include_self {
                let mut ray: Vec<(i16, i16)> = Vec::new();
                ray.push((from_x as i16, from_y as i16));
                proof {
                    assert(ray_view(ray) =~= seq![(from_x as int, from_y as int)]);
                }
                out.push(ray);
            }
        }
        proof {
            assert(rays_view(out) =~~= gr);
        }
        out
    }
}

} // verus!
