//! Cross-cutting laws of the geometry engine, proved once and for
//! all inputs: the reachability test agrees with walking the rays,
//! and the board walk respects blocking and jumping.

use vstd::prelude::*;

use crate::board::Board;
use crate::geometry::Direction;
use crate::geometry::Range;
use crate::geometry::abs_diff;
use crate::geometry::range_reaches;
use crate::geometry::step_vectors;
use crate::rules::walk_ray;

verus! {

/// Can `(tx, ty)` be reached from `(fx, fy)` by walking at most
/// `steps` steps along one single ray of direction `d`?  Staying put
/// counts as a walk of length zero.
pub open spec fn ray_walk_reaches(
    d: Direction,
    steps: int,
    fx: int,
    fy: int,
    tx: int,
    ty: int,
) -> bool {
    (tx, ty) == (fx, fy) || exists|i: int, k: int|
        #![trigger k * step_vectors(d)[i].0]
        0 <= i < step_vectors(d).len() && 1 <= k <= steps && tx == fx + k * step_vectors(d)[i].0
            && ty == fy + k * step_vectors(d)[i].1
}

/// Multiplying by a unit step component is negation, erasure or
/// identity.
proof fn lemma_mul_unit(k: int, u: int)
    requires
        u == 1 || u == 0 || u == -1,
    ensures
        u == 1 ==> k * u == k,
        u == 0 ==> k * u == 0,
        u == -1 ==> k * u == -k,
{
    assert((u == 1 ==> k * u == k) && (u == 0 ==> k * u == 0) && (u == -1 ==> k * u == -k))
        by (nonlinear_arith)
        requires
            u == 1 || u == 0 || u == -1,
    ;
}

/// For every direction with ray generators, `Range::reaches` agrees
/// with an independent walk along the direction's rays of length at
/// most `steps`.  `Anywhere` is excluded: it has no step vectors, its
/// path generator enumerates the whole coordinate block instead.
pub proof fn lemma_reaches_agrees_with_ray_walk(r: Range, fx: int, fy: int, tx: int, ty: int)
    requires
        !(r.direction is Anywhere),
    ensures
        range_reaches(r, fx, fy, tx, ty) == ray_walk_reaches(
            r.direction,
            r.steps as int,
            fx,
            fy,
            tx,
            ty,
        ),
{
    let d = r.direction;
    let s = r.steps as int;
    let dx = tx - fx;
    let dy = ty - fy;
    if ray_walk_reaches(d, s, fx, fy, tx, ty) && (tx, ty) != (fx, fy) {
        let (i, k) = choose|i: int, k: int|
            #![trigger k * step_vectors(d)[i].0]
            0 <= i < step_vectors(d).len() && 1 <= k <= s && tx == fx + k * step_vectors(d)[i].0
                && ty == fy + k * step_vectors(d)[i].1;
        let v = step_vectors(d)[i];
        crate::geometry::lemma_step_vectors_small(d);
        lemma_mul_unit(k, v.0);
        lemma_mul_unit(k, v.1);
        match d {
            Direction::Vertical => {
                assert(v == (0int, 1int) || v == (0int, -1int)) by {
                    if i == 0 {
                        assert(step_vectors(d)[0] == (0int, 1int));
                    } else {
                        assert(step_vectors(d)[1] == (0int, -1int));
                    }
                }
            },
            Direction::Horizontal => {
                assert(v == (1int, 0int) || v == (-1int, 0int)) by {
                    if i == 0 {
                        assert(step_vectors(d)[0] == (1int, 0int));
                    } else {
                        assert(step_vectors(d)[1] == (-1int, 0int));
                    }
                }
            },
            Direction::Diagonal => {
                assert(v == (1int, 1int) || v == (-1int, -1int) || v == (1int, -1int) || v == (
                -1int,
                1int,
                )) by {
                    if i == 0 {
                        assert(step_vectors(d)[0] == (1int, 1int));
                    } else if i == 1 {
                        assert(step_vectors(d)[1] == (-1int, -1int));
                    } else if i == 2 {
                        assert(step_vectors(d)[2] == (1int, -1int));
                    } else {
                        assert(step_vectors(d)[3] == (-1int, 1int));
                    }
                }
            },
            Direction::Straight => {
                assert(v == (1int, 0int) || v == (-1int, 0int) || v == (0int, 1int) || v == (
                0int,
                -1int,
                )) by {
                    if i == 0 {
                        assert(step_vectors(d)[0] == (1int, 0int));
                    } else if i == 1 {
                        assert(step_vectors(d)[1] == (-1int, 0int));
                    } else if i == 2 {
                        assert(step_vectors(d)[2] == (0int, 1int));
                    } else {
                        assert(step_vectors(d)[3] == (0int, -1int));
                    }
                }
            },
            Direction::Star => {
                assert(v == (1int, 1int) || v == (-1int, -1int) || v == (1int, -1int) || v == (
                -1int,
                1int,
                ) || v == (1int, 0int) || v == (-1int, 0int) || v == (0int, 1int) || v == (
                0int,
                -1int,
                )) by {
                    if i == 0 {
                        assert(step_vectors(d)[0] == (1int, 1int));
                    } else if i == 1 {
                        assert(step_vectors(d)[1] == (-1int, -1int));
                    } else if i == 2 {
                        assert(step_vectors(d)[2] == (1int, -1int));
                    } else if i == 3 {
                        assert(step_vectors(d)[3] == (-1int, 1int));
                    } else if i == 4 {
                        assert(step_vectors(d)[4] == (1int, 0int));
                    } else if i == 5 {
                        assert(step_vectors(d)[5] == (-1int, 0int));
                    } else if i == 6 {
                        assert(step_vectors(d)[6] == (0int, 1int));
                    } else {
                        assert(step_vectors(d)[7] == (0int, -1int));
                    }
                }
            },
            Direction::Anywhere => {},
        }
        assert(range_reaches(r, fx, fy, tx, ty));
    }
    if range_reaches(r, fx, fy, tx, ty) && (tx, ty) != (fx, fy) {
        match d {
            Direction::Vertical => {
                assert(step_vectors(d)[0] == (0int, 1int));
                assert(step_vectors(d)[1] == (0int, -1int));
                if dy > 0 {
                    lemma_mul_unit(dy, 0);
                    lemma_mul_unit(dy, 1);
                    assert(dy * step_vectors(d)[0].0 == 0 && dy * step_vectors(d)[0].1 == dy);
                    assert(tx == fx + dy * step_vectors(d)[0].0 && ty == fy + dy * step_vectors(
                        d,
                    )[0].1);
                } else {
                    lemma_mul_unit(-dy, 0);
                    lemma_mul_unit(-dy, -1);
                    assert((-dy) * step_vectors(d)[1].0 == 0 && (-dy) * step_vectors(d)[1].1 == dy);
                    assert(tx == fx + (-dy) * step_vectors(d)[1].0 && ty == fy + (-dy)
                        * step_vectors(d)[1].1);
                }
            },
            Direction::Horizontal => {
                assert(step_vectors(d)[0] == (1int, 0int));
                assert(step_vectors(d)[1] == (-1int, 0int));
                if dx > 0 {
                    lemma_mul_unit(dx, 1);
                    lemma_mul_unit(dx, 0);
                    assert(tx == fx + dx * step_vectors(d)[0].0 && ty == fy + dx * step_vectors(
                        d,
                    )[0].1);
                } else {
                    lemma_mul_unit(-dx, -1);
                    lemma_mul_unit(-dx, 0);
                    assert(tx == fx + (-dx) * step_vectors(d)[1].0 && ty == fy + (-dx)
                        * step_vectors(d)[1].1);
                }
            },
            Direction::Diagonal => {
                lemma_diagonal_witness(d, s, fx, fy, tx, ty);
            },
            Direction::Straight => {
                assert(step_vectors(d)[0] == (1int, 0int));
                assert(step_vectors(d)[1] == (-1int, 0int));
                assert(step_vectors(d)[2] == (0int, 1int));
                assert(step_vectors(d)[3] == (0int, -1int));
                if dx == 0 && dy > 0 {
                    lemma_mul_unit(dy, 0);
                    lemma_mul_unit(dy, 1);
                    assert(tx == fx + dy * step_vectors(d)[2].0 && ty == fy + dy * step_vectors(
                        d,
                    )[2].1);
                } else if dx == 0 {
                    lemma_mul_unit(-dy, 0);
                    lemma_mul_unit(-dy, -1);
                    assert(tx == fx + (-dy) * step_vectors(d)[3].0 && ty == fy + (-dy)
                        * step_vectors(d)[3].1);
                } else if dx > 0 {
                    assert(dy == 0);
                    lemma_mul_unit(dx, 1);
                    lemma_mul_unit(dx, 0);
                    assert(tx == fx + dx * step_vectors(d)[0].0 && ty == fy + dx * step_vectors(
                        d,
                    )[0].1);
                } else {
                    assert(dy == 0);
                    lemma_mul_unit(-dx, -1);
                    lemma_mul_unit(-dx, 0);
                    assert(tx == fx + (-dx) * step_vectors(d)[1].0 && ty == fy + (-dx)
                        * step_vectors(d)[1].1);
                }
            },
            Direction::Star => {
                assert(step_vectors(d)[0] == (1int, 1int));
                assert(step_vectors(d)[1] == (-1int, -1int));
                assert(step_vectors(d)[2] == (1int, -1int));
                assert(step_vectors(d)[3] == (-1int, 1int));
                assert(step_vectors(d)[4] == (1int, 0int));
                assert(step_vectors(d)[5] == (-1int, 0int));
                assert(step_vectors(d)[6] == (0int, 1int));
                assert(step_vectors(d)[7] == (0int, -1int));
                if dx == 0 && dy > 0 {
                    lemma_mul_unit(dy, 0);
                    lemma_mul_unit(dy, 1);
                    assert(tx == fx + dy * step_vectors(d)[6].0 && ty == fy + dy * step_vectors(
                        d,
                    )[6].1);
                } else if dx == 0 {
                    lemma_mul_unit(-dy, 0);
                    lemma_mul_unit(-dy, -1);
                    assert(tx == fx + (-dy) * step_vectors(d)[7].0 && ty == fy + (-dy)
                        * step_vectors(d)[7].1);
                } else if dy == 0 && dx > 0 {
                    lemma_mul_unit(dx, 1);
                    lemma_mul_unit(dx, 0);
                    assert(tx == fx + dx * step_vectors(d)[4].0 && ty == fy + dx * step_vectors(
                        d,
                    )[4].1);
                } else if dy == 0 {
                    lemma_mul_unit(-dx, -1);
                    lemma_mul_unit(-dx, 0);
                    assert(tx == fx + (-dx) * step_vectors(d)[5].0 && ty == fy + (-dx)
                        * step_vectors(d)[5].1);
                } else if dx > 0 && dy > 0 {
                    assert(dx == dy);
                    lemma_mul_unit(dx, 1);
                    assert(tx == fx + dx * step_vectors(d)[0].0 && ty == fy + dx * step_vectors(
                        d,
                    )[0].1);
                } else if dx < 0 && dy < 0 {
                    lemma_mul_unit(-dx, -1);
                    assert(tx == fx + (-dx) * step_vectors(d)[1].0 && ty == fy + (-dx)
                        * step_vectors(d)[1].1);
                } else if dx > 0 {
                    assert(dy == -dx);
                    lemma_mul_unit(dx, 1);
                    lemma_mul_unit(dx, -1);
                    assert(tx == fx + dx * step_vectors(d)[2].0 && ty == fy + dx * step_vectors(
                        d,
                    )[2].1);
                } else {
                    assert(dy == -dx);
                    lemma_mul_unit(-dx, -1);
                    lemma_mul_unit(-dx, 1);
                    assert(tx == fx + (-dx) * step_vectors(d)[3].0 && ty == fy + (-dx)
                        * step_vectors(d)[3].1);
                }
            },
            Direction::Anywhere => {},
        }
        assert(ray_walk_reaches(d, s, fx, fy, tx, ty));
    }
}

/// Witness construction for the diagonal shape.
proof fn lemma_diagonal_witness(d: Direction, s: int, fx: int, fy: int, tx: int, ty: int)
    requires
        d is Diagonal,
        abs_diff(fy, ty) == abs_diff(fx, tx),
        abs_diff(fy, ty) <= s,
        abs_diff(fx, tx) <= s,
        (tx, ty) != (fx, fy),
    ensures
        ray_walk_reaches(d, s, fx, fy, tx, ty),
{
    let dx = tx - fx;
    let dy = ty - fy;
    assert(step_vectors(d)[0] == (1int, 1int));
    assert(step_vectors(d)[1] == (-1int, -1int));
    assert(step_vectors(d)[2] == (1int, -1int));
    assert(step_vectors(d)[3] == (-1int, 1int));
    if dx > 0 && dy > 0 {
        assert(dx == dy);
        lemma_mul_unit(dx, 1);
        assert(tx == fx + dx * step_vectors(d)[0].0 && ty == fy + dx * step_vectors(d)[0].1);
    } else if dx < 0 && dy < 0 {
        lemma_mul_unit(-dx, -1);
        assert(tx == fx + (-dx) * step_vectors(d)[1].0 && ty == fy + (-dx) * step_vectors(d)[1].1);
    } else if dx > 0 && dy < 0 {
        assert(dy == -dx);
        lemma_mul_unit(dx, 1);
        lemma_mul_unit(dx, -1);
        assert(tx == fx + dx * step_vectors(d)[2].0 && ty == fy + dx * step_vectors(d)[2].1);
    } else {
        assert(dx < 0 && dy > 0);
        assert(dy == -dx);
        lemma_mul_unit(-dx, -1);
        lemma_mul_unit(-dx, 1);
        assert(tx == fx + (-dx) * step_vectors(d)[3].0 && ty == fy + (-dx) * step_vectors(d)[3].1);
    }
}

/// A non-jumping walk never visits a cell beyond the first occupied
/// cell of a ray: every visited cell but the last is free.
pub proof fn lemma_walk_blocking(b: Board, ray: Seq<(int, int)>, sp: bool)
    ensures
        forall|i: int|
            0 <= i < walk_ray(b, ray, false, sp).len() - 1 ==> !b.occupied(
                (#[trigger] walk_ray(b, ray, false, sp)[i]).0,
                walk_ray(b, ray, false, sp)[i].1,
            ),
    decreases ray.len(),
{
    let w = walk_ray(b, ray, false, sp);
    if ray.len() > 0 {
        lemma_walk_blocking(b, ray.drop_first(), sp);
        let rest = walk_ray(b, ray.drop_first(), false, sp);
        assert forall|i: int| 0 <= i < w.len() - 1 implies !b.occupied(
            (#[trigger] w[i]).0,
            w[i].1,
        ) by {
            if i > 0 {
                assert(w[i] == rest[i - 1]);
            }
        }
    }
}

/// A jumping walk visits exactly the on-board prefix of a ray: every
/// cell up to the board edge, whatever the occupancy.
pub proof fn lemma_walk_jumping(b: Board, ray: Seq<(int, int)>)
    ensures
        walk_ray(b, ray, true, false).len() <= ray.len(),
        forall|i: int|
            0 <= i < walk_ray(b, ray, true, false).len() ==> #[trigger] walk_ray(
                b,
                ray,
                true,
                false,
            )[i] == ray[i],
        walk_ray(b, ray, true, false).len() == ray.len() || !b.on_board(
            ray[walk_ray(b, ray, true, false).len() as int].0,
            ray[walk_ray(b, ray, true, false).len() as int].1,
        ),
    decreases ray.len(),
{
    let w = walk_ray(b, ray, true, false);
    if ray.len() > 0 {
        lemma_walk_jumping(b, ray.drop_first());
        let rest = walk_ray(b, ray.drop_first(), true, false);
        let c = ray[0];
        if b.on_board(c.0, c.1) {
            assert forall|i: int| 0 <= i < w.len() implies #[trigger] w[i] == ray[i] by {
                if i > 0 {
                    assert(w[i] == rest[i - 1]);
                    assert(ray.drop_first()[i - 1] == ray[i]);
                }
            }
            if rest.len() < ray.drop_first().len() {
                assert(ray.drop_first()[rest.len() as int] == ray[w.len() as int]);
            }
        }
    }
}

} // verus!
