//! Integer 2D vectors: positions, squared distances, and the motion step a
//! settler takes toward a target.

use vstd::prelude::*;
use crate::math::{sqrt_ceil, ceil_sqrt, lemma_sqrt_ceil_bracket, lemma_sqrt_ceil_of_square};
use vstd::arithmetic::div_mod::{
    lemma_div_pos_is_pos, lemma_div_is_ordered, lemma_div_multiples_vanish,
    lemma_fundamental_div_mod, lemma_div_nonincreasing,
};
use vstd::arithmetic::mul::{
    lemma_mul_inequality, lemma_mul_is_commutative, lemma_mul_nonnegative,
    lemma_mul_strict_inequality_converse,
};

verus! {

/// All world coordinates stay within this many units of the origin, which
/// keeps every squared distance inside `i64`.
pub const COORD_LIMIT: i64 = 1_000_000;

/// A position or displacement in whole world units.
#[derive(Clone, Copy, PartialEq, Eq, Structural, Debug)]
pub struct Vec2i {
    pub x: i64,
    pub y: i64,
}

impl Vec2i {
    /// The coordinate range the simulation works in.
    pub open spec fn in_bounds(self) -> bool {
        &&& -COORD_LIMIT <= self.x <= COORD_LIMIT
        &&& -COORD_LIMIT <= self.y <= COORD_LIMIT
    }

    /// The point reached from `self` by the displacement `m`.
    pub open spec fn spec_translated(self, m: Vec2i) -> Vec2i {
        Vec2i { x: (self.x + m.x) as i64, y: (self.y + m.y) as i64 }
    }

    /// Applies the displacement `m` to `self`.
    pub fn translated(self, m: Vec2i) -> (r: Vec2i)
        requires
            -COORD_LIMIT <= self.x + m.x <= COORD_LIMIT,
            -COORD_LIMIT <= self.y + m.y <= COORD_LIMIT,
        ensures
            r == self.spec_translated(m),
            r.in_bounds(),
    {
        Vec2i { x: self.x + m.x, y: self.y + m.y }
    }
}

/// Squared Euclidean distance between two points.
pub open spec fn dist_sq(a: Vec2i, b: Vec2i) -> int {
    (b.x - a.x) * (b.x - a.x) + (b.y - a.y) * (b.y - a.y)
}

/// Computes the squared Euclidean distance between two in-bounds points.
pub fn dist_sq_ex(a: Vec2i, b: Vec2i) -> (r: i64)
    requires
        a.in_bounds(),
        b.in_bounds(),
    ensures
        r == dist_sq(a, b),
        0 <= r <= 8_000_000_000_000,
{
    proof {
        lemma_dist_sq_range(a, b);
        lemma_sq_nonneg(b.x - a.x);
        lemma_sq_nonneg(b.y - a.y);
    }
    let dx: i64 = b.x - a.x;
    let dy: i64 = b.y - a.y;
    dx * dx + dy * dy
}

/// The sign of `v`: -1, 0 or 1.
pub open spec fn sign_of(v: int) -> int {
    if v > 0 {
        1
    } else if v < 0 {
        -1
    } else {
        0
    }
}

/// The absolute value of `v`.
pub open spec fn abs_of(v: int) -> int {
    if v >= 0 {
        v
    } else {
        -v
    }
}

pub proof fn lemma_sq_nonneg(x: int)
    by (nonlinear_arith)
    ensures
        x * x >= 0,
{
}

pub proof fn lemma_sq_lt_converse(x: int, y: int)
    by (nonlinear_arith)
    requires
        0 <= x,
        0 <= y,
        x * x < y * y,
    ensures
        x < y,
{
}

/// Within bounds, a squared distance fits comfortably in `i64`.
pub proof fn lemma_dist_sq_range(a: Vec2i, b: Vec2i)
    by (nonlinear_arith)
    requires
        a.in_bounds(),
        b.in_bounds(),
    ensures
        0 <= dist_sq(a, b) <= 8_000_000_000_000,
{
}

/// The displacement a settler performs in one tick when walking from `from`
/// toward `to` with step length `step`: the full remaining delta when `step`
/// covers it, otherwise each component scaled by `step` over the (ceiling)
/// distance and rounded up to the next whole unit. Rounding up is what makes
/// the walk gain ground in every direction: the remaining ceiling distance
/// shrinks by at least `step` each tick (`lemma_step_delta_shrinks`), at the
/// price of moving up to `step` whole units along each axis rather than
/// `step` units of Euclidean length.
pub open spec fn step_delta(from: Vec2i, to: Vec2i, step: int) -> (int, int) {
    let dx: int = to.x - from.x;
    let dy: int = to.y - from.y;
    let d2: int = dx * dx + dy * dy;
    if step * step >= d2 {
        (dx, dy)
    } else {
        let d: int = sqrt_ceil(d2 as nat) as int;
        (
            sign_of(dx) * ((abs_of(dx) * step + d - 1) / d),
            sign_of(dy) * ((abs_of(dy) * step + d - 1) / d),
        )
    }
}

/// One rounded-up component of the scaled step: it never passes the
/// component's own magnitude, never exceeds the step, covers at least the
/// exact scaled share, and is at least one unit while both the component and
/// the step are.
proof fn lemma_ceil_component(a: int, s: int, d: int)
    requires
        0 <= a <= d,
        0 <= s <= d,
        0 < d,
    ensures
        ({
            let q = (a * s + d - 1) / d;
            &&& 0 <= q <= a
            &&& q <= s
            &&& q * d >= a * s
            &&& (a >= 1 && s >= 1 ==> q >= 1)
        }),
{
    let x = a * s + d - 1;
    let q = x / d;
    lemma_mul_nonnegative(a, s);
    lemma_div_pos_is_pos(x, d);
    lemma_fundamental_div_mod(x, d);
    vstd::arithmetic::div_mod::lemma_remainder(x, d);
    // q * d lies within (x - d, x], so q * d >= a * s.
    assert(q * d >= a * s) by (nonlinear_arith)
        requires
            x == a * s + d - 1,
            0 <= x - (x / d * d) < d,
            q == x / d,
    ;
    // q <= a because q * d <= x <= a * d + d - 1 < (a + 1) * d.
    assert(q * d <= x) by (nonlinear_arith)
        requires
            0 <= x - (x / d * d),
            q == x / d,
    ;
    lemma_mul_inequality(s, d, a);
    lemma_mul_is_commutative(s, a);
    lemma_mul_is_commutative(d, a);
    assert(q * d < (a + 1) * d) by (nonlinear_arith)
        requires
            q * d <= a * s + d - 1,
            a * s <= a * d,
    ;
    lemma_mul_strict_inequality_converse(q, a + 1, d);
    // q <= s because q * d <= a * s + d - 1 <= d * s + d - 1 < (s + 1) * d.
    lemma_mul_inequality(a, d, s);
    lemma_mul_is_commutative(a, s);
    lemma_mul_is_commutative(d, s);
    assert(q * d < (s + 1) * d) by (nonlinear_arith)
        requires
            q * d <= a * s + d - 1,
            a * s <= d * s,
    ;
    lemma_mul_strict_inequality_converse(q, s + 1, d);
    if a >= 1 && s >= 1 {
        assert(a * s >= 1) by (nonlinear_arith)
            requires
                a >= 1,
                s >= 1,
        ;
        assert(q >= 1) by (nonlinear_arith)
            requires
                q * d >= a * s,
                a * s >= 1,
                0 < d,
                0 <= q,
        ;
    }
}

/// The step never moves past the target in either coordinate, moves at most
/// `step` whole units along each axis, and while the step and a coordinate
/// gap are both nonzero it advances that coordinate by at least one unit.
pub proof fn lemma_step_delta_props(from: Vec2i, to: Vec2i, step: int)
    requires
        from.in_bounds(),
        to.in_bounds(),
        0 <= step,
    ensures
        ({
            let m = step_delta(from, to, step);
            let dx: int = to.x - from.x;
            let dy: int = to.y - from.y;
            &&& (dx >= 0 ==> 0 <= m.0 <= dx)
            &&& (dx <= 0 ==> dx <= m.0 <= 0)
            &&& (dy >= 0 ==> 0 <= m.1 <= dy)
            &&& (dy <= 0 ==> dy <= m.1 <= 0)
            &&& abs_of(m.0) <= step && abs_of(m.1) <= step
            &&& (step >= 1 && dx != 0 ==> m.0 != 0)
            &&& (step >= 1 && dy != 0 ==> m.1 != 0)
        }),
{
    let dx: int = to.x - from.x;
    let dy: int = to.y - from.y;
    let d2: int = dx * dx + dy * dy;
    lemma_sq_nonneg(dx);
    lemma_sq_nonneg(dy);
    let ax: int = abs_of(dx);
    let ay: int = abs_of(dy);
    assert(ax * ax == dx * dx) by (nonlinear_arith)
        requires
            ax == dx || ax == -dx,
    ;
    assert(ay * ay == dy * dy) by (nonlinear_arith)
        requires
            ay == dy || ay == -dy,
    ;
    if step * step >= d2 {
        assert(ax * ax <= d2 && ay * ay <= d2);
        assert(ax <= step && ay <= step) by {
            assert((step + 1) * (step + 1) > step * step) by (nonlinear_arith)
                requires
                    step >= 0,
            ;
            assert(ax * ax < (step + 1) * (step + 1));
            assert(ay * ay < (step + 1) * (step + 1));
            lemma_sq_lt_converse(ax, step + 1);
            lemma_sq_lt_converse(ay, step + 1);
        }
    } else {
        let d: int = sqrt_ceil(d2 as nat) as int;
        lemma_sqrt_ceil_bracket(d2 as nat);
        assert(d2 <= d * d);
        assert(step < d) by {
            lemma_sq_lt_converse(step, d);
        }
        assert(ax * ax <= d2 && ay * ay <= d2);
        assert(ax <= d && ay <= d) by {
            assert((d + 1) * (d + 1) > d * d) by (nonlinear_arith)
                requires
                    d >= 0,
            ;
            assert(ax * ax < (d + 1) * (d + 1));
            assert(ay * ay < (d + 1) * (d + 1));
            lemma_sq_lt_converse(ax, d + 1);
            lemma_sq_lt_converse(ay, d + 1);
        }
        lemma_ceil_component(ax, step, d);
        lemma_ceil_component(ay, step, d);
        let m = step_delta(from, to, step);
        let qx: int = (ax * step + d - 1) / d;
        let qy: int = (ay * step + d - 1) / d;
        assert(m.0 == sign_of(dx) * qx && m.1 == sign_of(dy) * qy);
        if step >= 1 && dx != 0 {
            assert(qx >= 1);
        }
        if step >= 1 && dy != 0 {
            assert(qy >= 1);
        }
    }
}

/// One scaled step shrinks the remaining ceiling distance by at least
/// `step`: rounding every component up never loses the exact scaled share,
/// so the walk cannot stall short of the target in any direction.
pub proof fn lemma_step_delta_shrinks(from: Vec2i, to: Vec2i, step: int)
    requires
        from.in_bounds(),
        to.in_bounds(),
        0 <= step,
    ensures
        ({
            let m = step_delta(from, to, step);
            let d: int = sqrt_ceil(dist_sq(from, to) as nat) as int;
            let nx: int = to.x - from.x - m.0;
            let ny: int = to.y - from.y - m.1;
            &&& (step >= d ==> nx == 0 && ny == 0)
            &&& (step < d ==> nx * nx + ny * ny <= (d - step) * (d - step))
        }),
{
    let dx: int = to.x - from.x;
    let dy: int = to.y - from.y;
    let d2: int = dx * dx + dy * dy;
    lemma_sq_nonneg(dx);
    lemma_sq_nonneg(dy);
    lemma_sqrt_ceil_bracket(d2 as nat);
    let d: int = sqrt_ceil(d2 as nat) as int;
    let ax: int = abs_of(dx);
    let ay: int = abs_of(dy);
    assert(ax * ax == dx * dx) by (nonlinear_arith)
        requires
            ax == dx || ax == -dx,
    ;
    assert(ay * ay == dy * dy) by (nonlinear_arith)
        requires
            ay == dy || ay == -dy,
    ;
    if step >= d {
        // A step at least the ceiling distance covers the whole delta.
        assert(step * step >= d2) by (nonlinear_arith)
            requires
                step >= d,
                d >= 0,
                d2 <= d * d,
        ;
    } else {
        assert(!(step * step >= d2)) by {
            if step * step >= d2 {
                assert((d - 1) * (d - 1) < step * step);
                lemma_sq_lt_converse(d - 1, step);
            }
        }
        assert(ax * ax <= d2 && ay * ay <= d2);
        assert(ax <= d && ay <= d) by {
            assert((d + 1) * (d + 1) > d * d) by (nonlinear_arith)
                requires
                    d >= 0,
            ;
            assert(ax * ax < (d + 1) * (d + 1));
            assert(ay * ay < (d + 1) * (d + 1));
            lemma_sq_lt_converse(ax, d + 1);
            lemma_sq_lt_converse(ay, d + 1);
        }
        lemma_ceil_component(ax, step, d);
        lemma_ceil_component(ay, step, d);
        let qx: int = (ax * step + d - 1) / d;
        let qy: int = (ay * step + d - 1) / d;
        let m = step_delta(from, to, step);
        assert(m.0 == sign_of(dx) * qx && m.1 == sign_of(dy) * qy);
        let nx: int = dx - m.0;
        let ny: int = dy - m.1;
        // The leftover of each component, scaled back by d, is at most the
        // component's share of the shrunk distance.
        assert((ax - qx) * d <= ax * (d - step)) by (nonlinear_arith)
            requires
                qx * d >= ax * step,
        ;
        assert((ay - qy) * d <= ay * (d - step)) by (nonlinear_arith)
            requires
                qy * d >= ay * step,
        ;
        assert(nx * nx == (ax - qx) * (ax - qx) && ny * ny == (ay - qy) * (ay - qy))
            by (nonlinear_arith)
            requires
                m.0 == sign_of(dx) * qx,
                m.1 == sign_of(dy) * qy,
                nx == dx - m.0,
                ny == dy - m.1,
                ax == dx || ax == -dx,
                ay == dy || ay == -dy,
                (dx > 0 ==> sign_of(dx) == 1),
                (dx == 0 ==> sign_of(dx) == 0 && qx == 0),
                (dx < 0 ==> sign_of(dx) == -1),
                (dy > 0 ==> sign_of(dy) == 1),
                (dy == 0 ==> sign_of(dy) == 0 && qy == 0),
                (dy < 0 ==> sign_of(dy) == -1),
                0 <= qx <= ax,
                0 <= qy <= ay,
        ;
        if dx == 0 {
            assert(ax * step == 0) by (nonlinear_arith)
                requires
                    ax == 0,
            ;
            vstd::arithmetic::div_mod::lemma_basic_div(d - 1, d);
        }
        if dy == 0 {
            assert(ay * step == 0) by (nonlinear_arith)
                requires
                    ay == 0,
            ;
            vstd::arithmetic::div_mod::lemma_basic_div(d - 1, d);
        }
        assert(nx * nx + ny * ny <= (d - step) * (d - step)) by (nonlinear_arith)
            requires
                nx * nx == (ax - qx) * (ax - qx),
                ny * ny == (ay - qy) * (ay - qy),
                (ax - qx) * d <= ax * (d - step),
                (ay - qy) * d <= ay * (d - step),
                0 <= ax - qx,
                0 <= ay - qy,
                0 <= ax,
                0 <= ay,
                ax * ax + ay * ay <= d * d,
                0 <= step < d,
        ;
    }
}

/// When the walk is along one axis the step is exact: the full remaining
/// delta when `step` covers it, otherwise exactly `step` units toward the
/// target.
pub proof fn lemma_step_delta_collinear(from: Vec2i, to: Vec2i, step: int)
    requires
        from.in_bounds(),
        to.in_bounds(),
        from.y == to.y,
        0 <= step,
    ensures
        ({
            let m = step_delta(from, to, step);
            let dx: int = to.x - from.x;
            &&& m.1 == 0
            &&& m.0 == if step >= abs_of(dx) {
                dx
            } else {
                sign_of(dx) * step
            }
        }),
{
    let dx: int = to.x - from.x;
    let d2: int = dx * dx;
    let ax: int = abs_of(dx);
    assert(ax * ax == dx * dx) by (nonlinear_arith)
        requires
            ax == dx || ax == -dx,
    ;
    if step * step >= d2 {
        assert(step >= ax) by {
            assert(!(step < ax)) by (nonlinear_arith)
                requires
                    0 <= step,
                    0 <= ax,
                    step * step >= ax * ax,
            ;
        }
    } else {
        assert(step < ax) by {
            lemma_sq_lt_converse(step, ax);
        }
        let d: int = sqrt_ceil(d2 as nat) as int;
        assert(d == ax) by {
            lemma_sqrt_ceil_of_square(ax as nat);
            assert((ax as nat) * (ax as nat) == d2 as nat);
        }
        assert((ax * step + d - 1) / d == step) by {
            lemma_mul_is_commutative(ax, step);
            vstd::arithmetic::div_mod::lemma_div_multiples_vanish_fancy(step, d - 1, d);
        }
        assert((abs_of(0int) * step + d - 1) / d == 0) by {
            assert(abs_of(0int) * step == 0) by (nonlinear_arith);
            vstd::arithmetic::div_mod::lemma_basic_div(d - 1, d);
        }
    }
}

/// Walks one step toward `to`: at most `step` whole units along each axis,
/// never past the target on either axis, and always gaining ground (see
/// `step_delta`).
pub fn step_toward(from: Vec2i, to: Vec2i, step: i64) -> (m: Vec2i)
    requires
        from.in_bounds(),
        to.in_bounds(),
        0 <= step,
    ensures
        m.x == step_delta(from, to, step as int).0,
        m.y == step_delta(from, to, step as int).1,
{
    let dx: i64 = to.x - from.x;
    let dy: i64 = to.y - from.y;
    proof {
        lemma_dist_sq_range(from, to);
        assert(dx * dx + dy * dy == dist_sq(from, to));
        lemma_sq_nonneg(dx as int);
        lemma_sq_nonneg(dy as int);
        assert(dx * dx <= 8_000_000_000_000 && dy * dy <= 8_000_000_000_000);
    }
    let d2: i64 = dx * dx + dy * dy;
    if step >= 3_000_000 {
        proof {
            assert(step * step >= d2) by (nonlinear_arith)
                requires
                    step >= 3_000_000,
                    d2 <= 8_000_000_000_000,
            ;
        }
        Vec2i { x: dx, y: dy }
    } else {
        proof {
            assert(step * step <= 9_000_000_000_000) by (nonlinear_arith)
                requires
                    0 <= step < 3_000_000,
            ;
        }
        if step * step >= d2 {
            Vec2i { x: dx, y: dy }
        } else {
            let du: u64 = ceil_sqrt(d2 as u64);
            proof {
                lemma_sqrt_ceil_bracket(d2 as nat);
            }
            let axu: u64 = if dx >= 0 {
                dx as u64
            } else {
                (-dx) as u64
            };
            let ayu: u64 = if dy >= 0 {
                dy as u64
            } else {
                (-dy) as u64
            };
            let stepu: u64 = step as u64;
            proof {
                assert(axu * stepu <= 6_000_000_000_000) by (nonlinear_arith)
                    requires
                        0 <= axu <= 2_000_000,
                        0 <= stepu <= 3_000_000,
                ;
                assert(ayu * stepu <= 6_000_000_000_000) by (nonlinear_arith)
                    requires
                        0 <= ayu <= 2_000_000,
                        0 <= stepu <= 3_000_000,
                ;
            }
            let qxu: u64 = (axu * stepu + du - 1) / du;
            let qyu: u64 = (ayu * stepu + du - 1) / du;
            proof {
                lemma_div_nonincreasing((axu * stepu + du - 1) as int, du as int);
                lemma_div_nonincreasing((ayu * stepu + du - 1) as int, du as int);
            }
            let mx: i64 = if dx >= 0 {
                qxu as i64
            } else {
                -(qxu as i64)
            };
            let my: i64 = if dy >= 0 {
                qyu as i64
            } else {
                -(qyu as i64)
            };
            proof {
                let sm = step_delta(from, to, step as int);
                assert(sm.0 == sign_of(dx as int) * ((abs_of(dx as int) * step + du - 1) / (
                du as int)));
                assert(abs_of(dx as int) == axu && abs_of(dy as int) == ayu);
                if dx == 0 {
                    assert(axu * stepu == 0) by (nonlinear_arith)
                        requires
                            axu == 0,
                    ;
                    vstd::arithmetic::div_mod::lemma_basic_div(du - 1, du as int);
                }
                if dy == 0 {
                    assert(ayu * stepu == 0) by (nonlinear_arith)
                        requires
                            ayu == 0,
                    ;
                    vstd::arithmetic::div_mod::lemma_basic_div(du - 1, du as int);
                }
                assert(sign_of(dx as int) * (qxu as int) == mx) by (nonlinear_arith)
                    requires
                        (dx > 0 ==> sign_of(dx as int) == 1),
                        (dx == 0 ==> sign_of(dx as int) == 0 && qxu == 0 && mx == 0),
                        (dx < 0 ==> sign_of(dx as int) == -1),
                        (dx > 0 ==> mx == qxu),
                        (dx < 0 ==> mx == -(qxu as int)),
                ;
                assert(sign_of(dy as int) * (qyu as int) == my) by (nonlinear_arith)
                    requires
                        (dy > 0 ==> sign_of(dy as int) == 1),
                        (dy == 0 ==> sign_of(dy as int) == 0 && qyu == 0 && my == 0),
                        (dy < 0 ==> sign_of(dy as int) == -1),
                        (dy > 0 ==> my == qyu),
                        (dy < 0 ==> my == -(qyu as int)),
                ;
            }
            Vec2i { x: mx, y: my }
        }
    }
}

} // verus!
