//! Crossings told from sides of lines, in whole numbers.
use crate::float64::{Float64, INFINITY_BITS};
use crate::geometry::{MARGIN, ONE, PARALLEL};
use crate::protocol::Position;
use vstd::arithmetic::power2::*;
use vstd::prelude::*;

verus! {

/// On which side of the line from one point to another a third is: positive to the left, negative
/// to the right, nought on it.
pub open spec fn side_of(ax: int, ay: int, bx: int, by: int, px: int, py: int) -> int {
    (bx - ax) * (py - ay) - (by - ay) * (px - ax)
}

/// The largest whole numbers that are looked at here.
pub open spec fn is_small(n: int) -> bool {
    -256 <= n <= 256
}

// ---------------------------------------------------------------------------------------------
// Parts of a way
// ---------------------------------------------------------------------------------------------

proof fn lemma_marks()
    ensures
        crate::float64::units(0x3ec0_0000_0000_0000) == pow2(1055),
        crate::float64::units(0x3fef_fffc_0000_0000) == 0x7_ffff * pow2(1055),
        crate::float64::units(0x3fef_fffc_0000_0001) == 0x7_ffff * pow2(1055) + pow2(1021),
        crate::float64::units(ONE as nat + 1) == 0x10_0000_0000_0001 * pow2(1022),
        crate::float64::units(MARGIN as nat) + pow2(1021) <= pow2(1055),
        crate::float64::unity() == 0x8_0000 * pow2(1055),
        crate::float64::unity() == 0x10_0000_0000_0000 * pow2(1022),
{
    lemma2_to64();
    lemma2_to64_rest();
    lemma_pow2_adds(52, 1003);
    lemma_pow2_adds(34, 1021);
    lemma_pow2_adds(19, 1055);
    lemma_pow2_adds(52, 1022);
    lemma_pow2_adds(53, 1002);
    lemma_pow2_adds(19, 1002);
    let p = pow2(1021);
    let q = pow2(1002);
    assert(0x1f_fffc_0000_0000 * p == 0x7_ffff * (0x4_0000_0000 * p)) by (nonlinear_arith);
    assert(0x1f_fffc_0000_0001 * p == 0x7_ffff * (0x4_0000_0000 * p) + p) by (nonlinear_arith);
    assert(0x3ec0_0000_0000_0000nat / 0x10_0000_0000_0000 == 0x3ec);
    assert(0x3ec0_0000_0000_0000nat % 0x10_0000_0000_0000 == 0);
    assert(0x3fef_fffc_0000_0000nat / 0x10_0000_0000_0000 == 0x3fe);
    assert(0x3fef_fffc_0000_0000nat % 0x10_0000_0000_0000 == 0xf_fffc_0000_0000);
    assert(0x3fef_fffc_0000_0001nat / 0x10_0000_0000_0000 == 0x3fe);
    assert(0x3fef_fffc_0000_0001nat % 0x10_0000_0000_0000 == 0xf_fffc_0000_0001);
    assert((ONE as nat + 1) / 0x10_0000_0000_0000 == 0x3ff);
    assert((ONE as nat + 1) % 0x10_0000_0000_0000 == 1);
    assert(MARGIN as nat / 0x10_0000_0000_0000 == 0x3eb);
    assert(MARGIN as nat % 0x10_0000_0000_0000 == 0x0c6f7_a0b5_ed8d);
    assert(crate::float64::units(MARGIN as nat) == 0x10_c6f7_a0b5_ed8d * q);
    assert(0x10_c6f7_a0b5_ed8d * q + 0x8_0000 * q <= 0x20_0000_0000_0000 * q) by (nonlinear_arith);
}

/// A quotient of small whole numbers is strictly inside a way, or on it, just where the fraction
/// is.
proof fn lemma_quotient_on_way(p: Float64, q: Float64, m: int, n: int, k: nat)
    requires
        crate::exact::is_parts(p, m, k),
        crate::exact::is_parts(q, n, k),
        n != 0,
        -0x8_0000 <= m <= 0x8_0000,
        -0x8_0000 <= n <= 0x8_0000,
    ensures
        crate::geometry::inside_segment(p.over(q)) == ((0 < m < n) || (n < m < 0)),
        crate::geometry::on_segment(p.over(q)) == ((0 <= m <= n) || (n <= m <= 0)),
{
    reveal(crate::float64::quotient);
    reveal(crate::float64::sum);
    let t = p.over(q);
    let e = (1074 - k) as nat;
    let w = pow2(e);
    let one = crate::float64::unity();
    let a = crate::exact::size(m);
    let b = crate::exact::size(n);
    let u = crate::float64::units(p.magnitude());
    let v = crate::float64::units(q.magnitude());
    lemma_pow2_pos(e);
    lemma_pow2_pos(1055);
    lemma_pow2_pos(1022);
    lemma_pow2_pos(1021);
    crate::exact::lemma_size_of(p, m, k);
    crate::exact::lemma_size_of(q, n, k);
    lemma_marks();
    crate::rounding::lemma_units_of_one();
    assert(crate::float64::units(0) == 0);
    assert(v > 0) by (nonlinear_arith)
        requires
            v == b * w,
            b > 0,
            w > 0,
    ;
    crate::rounding::lemma_rounded_is_nearest(u * one, v);
    let r = crate::float64::rounded(u * one, v);
    assert(t.magnitude() == r);
    assert(t.negative() == (p.negative() != q.negative()));
    let margin = Float64 { bits: MARGIN };
    let unit = Float64 { bits: ONE };
    let high = unit.minus(margin);
    crate::rounding::lemma_negated_parts(margin);
    assert(crate::float64::units(MARGIN as nat) < one);
    let left = one - crate::float64::units(MARGIN as nat);
    assert(unit.value() + margin.negated().value() == left);
    crate::rounding::lemma_rounded_is_nearest(left as nat, 1);
    crate::rounding::lemma_rounded_at_least(left as nat, 1, 0x3fef_fffc_0000_0001);
    crate::rounding::lemma_minus_positive(unit, margin);
    let h = crate::float64::rounded(left as nat, 1);
    assert(high.magnitude() == h && !high.negative());
    crate::float64::lemma_units_ordered(0x3fef_fffc_0000_0000, h);
    if m == 0 {
        assert(u == 0);
        assert(u * one == 0) by (nonlinear_arith)
            requires
                u == 0,
        ;
        assert(v * 0 == 0);
        crate::rounding::lemma_rounded_exact(u * one, v, 0);
    } else {
        let x = pow2(1055);
        assert(u * one >= v * x) by (nonlinear_arith)
            requires
                u == a * w,
                v == b * w,
                one == 0x8_0000 * x,
                1 <= a,
                b <= 0x8_0000,
                w > 0,
                x > 0,
        ;
        crate::rounding::lemma_rounded_at_least(u * one, v, 0x3ec0_0000_0000_0000);
        crate::float64::lemma_units_ordered(0, r);
        crate::float64::lemma_units_ordered(MARGIN as nat, r);
        if a < b {
            assert(u * one <= v * (0x7_ffff * x)) by (nonlinear_arith)
                requires
                    u == a * w,
                    v == b * w,
                    one == 0x8_0000 * x,
                    a <= b - 1,
                    b <= 0x8_0000,
                    w > 0,
                    x > 0,
            ;
            crate::rounding::lemma_rounded_at_most(u * one, v, 0x3fef_fffc_0000_0000);
            if r < 0x3fef_fffc_0000_0000 {
                crate::float64::lemma_units_ordered(r, 0x3fef_fffc_0000_0000);
            }
            crate::float64::lemma_units_ordered(r, ONE as nat);
        } else {
            assert(u * one >= v * one) by (nonlinear_arith)
                requires
                    u == a * w,
                    v == b * w,
                    a >= b,
                    w > 0,
                    one > 0,
            ;
            crate::rounding::lemma_rounded_at_least(u * one, v, ONE as nat);
            if (ONE as nat) < r {
                crate::float64::lemma_units_ordered(ONE as nat, r);
            }
            if a == b {
                crate::rounding::lemma_rounded_exact(u * one, v, ONE as nat);
            } else {
                let y = pow2(1022);
                assert(u * one >= v * (0x10_0000_0000_0001 * y)) by (nonlinear_arith)
                    requires
                        u == a * w,
                        v == b * w,
                        one == 0x10_0000_0000_0000 * y,
                        a >= b + 1,
                        b <= 0x8_0000,
                        w > 0,
                        y > 0,
                ;
                crate::rounding::lemma_rounded_at_least(u * one, v, ONE as nat + 1);
            }
        }
    }
}

// ---------------------------------------------------------------------------------------------
// Two ways
// ---------------------------------------------------------------------------------------------

proof fn lemma_cross_exact(
    a: Float64,
    b: Float64,
    c: Float64,
    d: Float64,
    x: int,
    y: int,
    z: int,
    w: int,
    k: nat,
)
    requires
        crate::exact::is_parts(a, x, k),
        crate::exact::is_parts(b, y, k),
        crate::exact::is_parts(c, z, k),
        crate::exact::is_parts(d, w, k),
        k <= 8,
        -512 <= x <= 512,
        -512 <= y <= 512,
        -512 <= z <= 512,
        -512 <= w <= 512,
    ensures
        crate::exact::is_parts(a.times(b).minus(c.times(d)), x * y - z * w, k + k),
        -0x8_0000 <= x * y - z * w <= 0x8_0000,
{
    assert(-0x4_0000 <= x * y <= 0x4_0000) by (nonlinear_arith)
        requires
            -512 <= x <= 512,
            -512 <= y <= 512,
    ;
    assert(-0x4_0000 <= z * w <= 0x4_0000) by (nonlinear_arith)
        requires
            -512 <= z <= 512,
            -512 <= w <= 512,
    ;
    crate::exact::lemma_times_exact(a, x, k, b, y, k);
    crate::exact::lemma_times_exact(c, z, k, d, w, k);
    crate::exact::lemma_minus_exact(a.times(b), x * y, c.times(d), z * w, k + k);
}

proof fn lemma_not_parallel(d: Float64, n: int, k: nat)
    requires
        crate::exact::is_parts(d, n, k),
        k <= 16,
    ensures
        d.abs().lt(Float64 { bits: PARALLEL }) == (n == 0),
{
    crate::exact::lemma_size_of(d, n, k);
    let e = (1074 - k) as nat;
    assert(crate::float64::units(0) == 0);
    crate::float64::lemma_units_ordered(0, PARALLEL as nat);
    if n != 0 {
        lemma_pow2_pos(e);
        if k < 16 {
            lemma_pow2_strictly_increases(1058, e);
        }
        let s = crate::exact::size(n);
        let p = pow2(e);
        assert(s * p >= p) by (nonlinear_arith)
            requires
                s >= 1,
                p > 0,
        ;
        lemma2_to64_rest();
        lemma_pow2_adds(52, 1006);
        assert(0x3ef0_0000_0000_0000nat / 0x10_0000_0000_0000 == 0x3ef);
        assert(0x3ef0_0000_0000_0000nat % 0x10_0000_0000_0000 == 0);
        assert(crate::float64::units(0x3ef0_0000_0000_0000) == pow2(1058));
        crate::float64::lemma_units_ordered(PARALLEL as nat, 0x3ef0_0000_0000_0000);
    }
}

/// The whole numbers that a crossing of two ways is told from: of the cross product, and of how far
/// along each way the lines meet.
proof fn lemma_ways_exact(
    a1: Position,
    a2: Position,
    b1: Position,
    b2: Position,
    ax: int,
    ay: int,
    cx: int,
    cy: int,
    bx: int,
    by: int,
    dx: int,
    dy: int,
    k: nat,
)
    requires
        k <= 8,
        crate::exact::is_at(a1, ax, ay, k),
        crate::exact::is_at(a2, cx, cy, k),
        crate::exact::is_at(b1, bx, by, k),
        crate::exact::is_at(b2, dx, dy, k),
        is_small(ax) && is_small(ay) && is_small(cx) && is_small(cy),
        is_small(bx) && is_small(by) && is_small(dx) && is_small(dy),
    ensures
        ({
            let d = (cx - ax) * (dy - by) - (cy - ay) * (dx - bx);
            let m = side_of(bx, by, dx, dy, ax, ay);
            let n = -side_of(ax, ay, cx, cy, bx, by);
            let t = crate::geometry::along_first(a1, a2, b1, b2);
            let u = crate::geometry::along_second(a1, a2, b1, b2);
            &&& crate::geometry::parallel(a1, a2, b1, b2) == (d == 0)
            &&& d != 0 ==> {
                &&& crate::geometry::inside_segment(t) == ((0 < m < d) || (d < m < 0))
                &&& crate::geometry::on_segment(t) == ((0 <= m <= d) || (d <= m <= 0))
                &&& crate::geometry::inside_segment(u) == ((0 < n < d) || (d < n < 0))
                &&& crate::geometry::on_segment(u) == ((0 <= n <= d) || (d <= n <= 0))
            }
            &&& side_of(bx, by, dx, dy, cx, cy) == m - d
            &&& side_of(ax, ay, cx, cy, dx, dy) == d - n
        }),
{
    let d1x = a2.x.minus(a1.x);
    let d1y = a2.y.minus(a1.y);
    let d2x = b2.x.minus(b1.x);
    let d2y = b2.y.minus(b1.y);
    let ox = b1.x.minus(a1.x);
    let oy = b1.y.minus(a1.y);
    crate::exact::lemma_minus_exact(a2.x, cx, a1.x, ax, k);
    crate::exact::lemma_minus_exact(a2.y, cy, a1.y, ay, k);
    crate::exact::lemma_minus_exact(b2.x, dx, b1.x, bx, k);
    crate::exact::lemma_minus_exact(b2.y, dy, b1.y, by, k);
    crate::exact::lemma_minus_exact(b1.x, bx, a1.x, ax, k);
    crate::exact::lemma_minus_exact(b1.y, by, a1.y, ay, k);
    lemma_cross_exact(d1x, d2y, d1y, d2x, cx - ax, dy - by, cy - ay, dx - bx, k);
    lemma_cross_exact(ox, d2y, oy, d2x, bx - ax, dy - by, by - ay, dx - bx, k);
    lemma_cross_exact(ox, d1y, oy, d1x, bx - ax, cy - ay, by - ay, cx - ax, k);
    let d = (cx - ax) * (dy - by) - (cy - ay) * (dx - bx);
    let cross = d1x.times(d2y).minus(d1y.times(d2x));
    let along = ox.times(d2y).minus(oy.times(d2x));
    let across = ox.times(d1y).minus(oy.times(d1x));
    let m = (bx - ax) * (dy - by) - (by - ay) * (dx - bx);
    let n = (bx - ax) * (cy - ay) - (by - ay) * (cx - ax);
    lemma_not_parallel(cross, d, k + k);
    if d != 0 {
        lemma_quotient_on_way(along, cross, m, d, k + k);
        lemma_quotient_on_way(across, cross, n, d, k + k);
    }
    assert(side_of(bx, by, dx, dy, ax, ay) == m) by (nonlinear_arith)
        requires
            m == (bx - ax) * (dy - by) - (by - ay) * (dx - bx),
    ;
    assert(side_of(ax, ay, cx, cy, bx, by) == -n) by (nonlinear_arith)
        requires
            n == (bx - ax) * (cy - ay) - (by - ay) * (cx - ax),
    ;
    assert(side_of(bx, by, dx, dy, cx, cy) == m - d) by (nonlinear_arith)
        requires
            m == (bx - ax) * (dy - by) - (by - ay) * (dx - bx),
            d == (cx - ax) * (dy - by) - (cy - ay) * (dx - bx),
    ;
    assert(side_of(ax, ay, cx, cy, dx, dy) == d - n) by (nonlinear_arith)
        requires
            n == (bx - ax) * (cy - ay) - (by - ay) * (cx - ax),
            d == (cx - ax) * (dy - by) - (cy - ay) * (dx - bx),
    ;
}

/// Whether two numbers are on opposite sides of nought.
pub open spec fn opposite_sides(a: int, b: int) -> bool {
    (a < 0 < b) || (b < 0 < a)
}

/// Whether two numbers are not on the same side of nought.
pub open spec fn not_same_side(a: int, b: int) -> bool {
    (a <= 0 <= b) || (b <= 0 <= a)
}

/// Two ways between points on a grid cross just where each has the ends of the other strictly on
/// opposite sides.
pub proof fn lemma_crossing_is_opposite_sides(
    a1: Position,
    a2: Position,
    b1: Position,
    b2: Position,
    ax: int,
    ay: int,
    cx: int,
    cy: int,
    bx: int,
    by: int,
    dx: int,
    dy: int,
    k: nat,
)
    requires
        k <= 8,
        crate::exact::is_at(a1, ax, ay, k),
        crate::exact::is_at(a2, cx, cy, k),
        crate::exact::is_at(b1, bx, by, k),
        crate::exact::is_at(b2, dx, dy, k),
        is_small(ax) && is_small(ay) && is_small(cx) && is_small(cy),
        is_small(bx) && is_small(by) && is_small(dx) && is_small(dy),
    ensures
        crate::geometry::crossing(a1, a2, b1, b2) == (opposite_sides(
            side_of(bx, by, dx, dy, ax, ay),
            side_of(bx, by, dx, dy, cx, cy),
        ) && opposite_sides(
            side_of(ax, ay, cx, cy, bx, by),
            side_of(ax, ay, cx, cy, dx, dy),
        )),
{
    lemma_ways_exact(a1, a2, b1, b2, ax, ay, cx, cy, bx, by, dx, dy, k);
}

proof fn lemma_point_between(a: Float64, b: Float64, m: int, n: int, k: nat, t: Float64)
    requires
        k <= 8,
        crate::exact::is_parts(a, m, k),
        crate::exact::is_parts(b, n, k),
        is_small(m) && is_small(n),
        crate::geometry::on_segment(t),
    ensures
        ({
            let p = a.plus(t.times(b.minus(a)));
            &&& !p.nan()
            &&& m <= n ==> a.value() <= p.value() <= b.value()
            &&& n <= m ==> b.value() <= p.value() <= a.value()
        }),
{
    let d = b.minus(a);
    crate::exact::lemma_minus_exact(b, n, a, m, k);
    crate::exact::lemma_size_of(d, n - m, k);
    crate::exact::lemma_plus_exact(a, m, d, n - m, k);
    crate::exact::lemma_order_exact(a, m, b, n, k);
    let s = t.times(d);
    reveal(crate::float64::product);
    crate::rounding::lemma_units_of_one();
    assert(crate::float64::units(0) == 0);
    if t.magnitude() > ONE {
        crate::float64::lemma_units_ordered(ONE as nat, t.magnitude());
    }
    if t.magnitude() > 0 {
        crate::float64::lemma_units_ordered(0, t.magnitude());
    }
    let u = crate::float64::units(t.magnitude());
    let v = crate::float64::units(d.magnitude());
    let one = crate::float64::unity();
    assert(u * v <= one * v) by (nonlinear_arith)
        requires
            u <= one,
            v >= 0,
    ;
    crate::rounding::lemma_rounded_at_most(u * v, one, d.magnitude());
    let r = crate::float64::rounded(u * v, one);
    assert(s.magnitude() == r);
    if r < d.magnitude() {
        crate::float64::lemma_units_ordered(r, d.magnitude());
    }
    if t.magnitude() == 0 {
        assert(u * v == 0) by (nonlinear_arith)
            requires
                u == 0,
        ;
        crate::rounding::lemma_rounded_exact(u * v, one, 0);
    }
    if n - m >= 0 {
        assert(s.value() >= 0 && s.value() <= d.value());
        crate::motion::lemma_plus_up(a, s);
        lemma_plus_ordered(a, s, d);
    }
    if n - m <= 0 {
        assert(s.value() <= 0 && s.value() >= d.value());
        crate::motion::lemma_plus_down(a, s);
        lemma_plus_ordered(a, d, s);
    }
    assert(a.plus(d).value() == b.value()) by {
        let w = pow2((1074 - k) as nat);
        assert((m + (n - m)) * w == n * w);
    }
}

/// A sum is not less if a part of it is not.
pub proof fn lemma_plus_ordered(a: Float64, b: Float64, c: Float64)
    requires
        a.magnitude() < INFINITY_BITS,
        b.magnitude() < INFINITY_BITS,
        c.magnitude() < INFINITY_BITS,
        b.value() <= c.value(),
    ensures
        !a.plus(b).nan() && !a.plus(c).nan(),
        a.plus(b).value() <= a.plus(c).value(),
{
    reveal(crate::float64::sum);
    let x = a.value() + b.value();
    let y = a.value() + c.value();
    assert(crate::float64::units(0) == 0);
    let m = if x < 0 {
        (-x) as nat
    } else {
        x as nat
    };
    let n = if y < 0 {
        (-y) as nat
    } else {
        y as nat
    };
    crate::rounding::lemma_rounded_is_nearest(m, 1);
    crate::rounding::lemma_rounded_is_nearest(n, 1);
    let p = crate::float64::rounded(m, 1);
    let q = crate::float64::rounded(n, 1);
    if x > 0 {
        lemma_rounded_ordered(m, n);
        if p < q {
            crate::float64::lemma_units_ordered(p, q);
        }
    } else if y < 0 {
        lemma_rounded_ordered(n, m);
        if q < p {
            crate::float64::lemma_units_ordered(q, p);
        }
    }
}

/// What is more is rounded to no less.
pub proof fn lemma_rounded_ordered(m: nat, n: nat)
    requires
        m <= n,
    ensures
        crate::float64::rounded(m, 1) <= crate::float64::rounded(n, 1),
{
    crate::rounding::lemma_rounded_is_nearest(m, 1);
    crate::rounding::lemma_rounded_is_nearest(n, 1);
    let p = crate::float64::rounded(m, 1);
    let q = crate::float64::rounded(n, 1);
    if q < p {
        let a = crate::float64::units((p - 1) as nat) + crate::float64::units(p);
        let b = crate::float64::units(q) + crate::float64::units(q + 1);
        crate::float64::lemma_units_ordered(q, p);
        if q + 1 < p {
            crate::float64::lemma_units_ordered(q + 1, p);
            crate::float64::lemma_units_ordered(q, (p - 1) as nat);
        }
        assert(b <= a);
        assert(1 * a == a && 1 * b == b);
        assert(a <= 2 * m && 2 * n <= b);
        assert(2 * m == a && 2 * n == b && a == b);
        if q + 1 < p {
            assert(b < a);
        }
    }
}

/// Two ways between points on a grid meet just where neither has the ends of the other strictly on
/// one side, unless they run side by side; and where they meet is on the first.
pub proof fn lemma_meeting_is_not_same_side(
    a1: Position,
    a2: Position,
    b1: Position,
    b2: Position,
    ax: int,
    ay: int,
    cx: int,
    cy: int,
    bx: int,
    by: int,
    dx: int,
    dy: int,
    k: nat,
)
    requires
        k <= 8,
        crate::exact::is_at(a1, ax, ay, k),
        crate::exact::is_at(a2, cx, cy, k),
        crate::exact::is_at(b1, bx, by, k),
        crate::exact::is_at(b2, dx, dy, k),
        is_small(ax) && is_small(ay) && is_small(cx) && is_small(cy),
        is_small(bx) && is_small(by) && is_small(dx) && is_small(dy),
    ensures
        crate::geometry::meeting(a1, a2, b1, b2) is Some == ((cx - ax) * (dy - by) - (cy - ay) * (dx
            - bx) != 0 && not_same_side(
            side_of(bx, by, dx, dy, ax, ay),
            side_of(bx, by, dx, dy, cx, cy),
        ) && not_same_side(
            side_of(ax, ay, cx, cy, bx, by),
            side_of(ax, ay, cx, cy, dx, dy),
        )),
        crate::geometry::meeting(a1, a2, b1, b2) matches Some((p, t)) ==> {
            &&& ax <= cx ==> a1.x.value() <= p.x.value() <= a2.x.value()
            &&& cx <= ax ==> a2.x.value() <= p.x.value() <= a1.x.value()
            &&& ay <= cy ==> a1.y.value() <= p.y.value() <= a2.y.value()
            &&& cy <= ay ==> a2.y.value() <= p.y.value() <= a1.y.value()
        },
{
    lemma_ways_exact(a1, a2, b1, b2, ax, ay, cx, cy, bx, by, dx, dy, k);
    if let Some((p, t)) = crate::geometry::meeting(a1, a2, b1, b2) {
        lemma_point_between(a1.x, a2.x, ax, cx, k, t);
        lemma_point_between(a1.y, a2.y, ay, cy, k, t);
    }
}

}
