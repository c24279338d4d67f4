//! Players beyond the edge of the board are put onto it.
use crate::board::GREATEST_BOARD_RADIUS;
use crate::float64::{Float64, INFINITY_BITS};
use crate::game::{GameView, LEAST_BOARD_RADIUS};
use crate::geometry::ONE;
use crate::player::PlayerView;
use crate::protocol::Position;
use crate::tick::Kill;
use crate::update::{Answer, PhaseView};
use vstd::arithmetic::power2::*;
use vstd::prelude::*;

verus! {

// ---------------------------------------------------------------------------------------------
// Roots of squares
// ---------------------------------------------------------------------------------------------

/// The root of the square of a number from one on is no less than the number, though both are
/// rounded.
proof fn lemma_root_of_square(m: nat)
    requires
        ONE <= m < INFINITY_BITS,
        crate::float64::rounded(
            crate::float64::units(m) * crate::float64::units(m),
            crate::float64::unity(),
        ) < INFINITY_BITS,
    ensures
        ({
            let u = crate::float64::units(m);
            let one = crate::float64::unity();
            let p = crate::float64::rounded(u * u, one);
            &&& p >= ONE
            &&& m <= crate::float64::rounded_root(crate::float64::units(p) * one)
        }),
{
    let full: nat = 0x0010_0000_0000_0000;
    let u = crate::float64::units(m);
    let one = crate::float64::unity();
    let p = crate::float64::rounded(u * u, one);
    let v = crate::float64::units(p);
    crate::rounding::lemma_units_of_one();
    if (ONE as nat) < m {
        crate::float64::lemma_units_ordered(ONE as nat, m);
    }
    assert(u * u >= one * one) by (nonlinear_arith)
        requires
            u >= one,
    ;
    crate::rounding::lemma_rounded_at_least(u * u, one, ONE as nat);
    crate::rounding::lemma_rounded_is_nearest(u * u, one);
    let low = crate::float64::units((m - 1) as nat) + u;
    assert(low * low < 4 * (v * one)) by {
        if m % full == 0 {
            lemma_square_of_power(m);
            crate::float64::lemma_units_ordered((m - 1) as nat, m);
            assert(low * low < 4 * (u * u)) by (nonlinear_arith)
                requires
                    0 <= low < 2 * u,
            ;
        } else {
            lemma_square_near(m, p);
        }
    }
    // So the root is rounded to no less.
    lemma_root_found(p);
    let n = crate::float64::rounded_root(v * one);
    if n < m {
        if n < m - 1 {
            crate::float64::lemma_units_ordered(n, (m - 1) as nat);
            crate::float64::lemma_units_ordered(n + 1, m);
        }
        let high = crate::float64::units(n) + crate::float64::units(n + 1);
        assert(high * high <= low * low) by (nonlinear_arith)
            requires
                0 <= high <= low,
        ;
    }
}

/// The square of a power of two is a number.
proof fn lemma_square_of_power(m: nat)
    requires
        ONE <= m < INFINITY_BITS,
        m % 0x0010_0000_0000_0000 == 0,
        crate::float64::rounded(
            crate::float64::units(m) * crate::float64::units(m),
            crate::float64::unity(),
        ) < INFINITY_BITS,
    ensures
        ({
            let u = crate::float64::units(m);
            let one = crate::float64::unity();
            u * u == crate::float64::units(crate::float64::rounded(u * u, one)) * one
        }),
{
    let full: nat = 0x0010_0000_0000_0000;
    let u = crate::float64::units(m);
    let one = crate::float64::unity();
    let b = m / full;
    assert(b >= 1023);
    let e = (b - 1) as nat;
    lemma2_to64_rest();
    assert(pow2(52) == full);
    lemma_pow2_adds(52, e);
    lemma_pow2_adds(52 + e, 52 + e);
    // The exponent of the square.
    let f = (2 * e + 104 - 1074 - 52) as nat;
    lemma_pow2_adds(f + 52, 1074);
    lemma_pow2_adds(52, f);
    crate::float64::lemma_units_pack(f, full);
    let k = f * full + full;
    assert(u == pow2(52 + e));
    assert((52 + e) + (52 + e) == (f + 52) + 1074);
    assert(crate::float64::units(k) == pow2(f + 52));
    crate::rounding::lemma_units_of_one();
    assert(u * u == one * crate::float64::units(k)) by (nonlinear_arith)
        requires
            u * u == crate::float64::units(k) * one,
    ;
    if k <= INFINITY_BITS {
        crate::rounding::lemma_rounded_exact(u * u, one, k);
    } else {
        crate::float64::lemma_units_ordered(INFINITY_BITS as nat, k);
        assert(u * u >= one * crate::float64::units(INFINITY_BITS as nat)) by (nonlinear_arith)
            requires
                u * u == one * crate::float64::units(k),
                crate::float64::units(INFINITY_BITS as nat) < crate::float64::units(k),
        ;
        crate::rounding::lemma_rounded_at_least(u * u, one, INFINITY_BITS as nat);
    }
}

/// A rounded square is so near to the square that its root is nearest to the number.
proof fn lemma_square_near(m: nat, p: nat)
    requires
        ONE <= m < INFINITY_BITS,
        m % 0x0010_0000_0000_0000 != 0,
        ONE <= p < INFINITY_BITS,
        crate::float64::nearest(
            p,
            crate::float64::units(m) * crate::float64::units(m),
            crate::float64::unity(),
        ),
    ensures
        ({
            let low = crate::float64::units((m - 1) as nat) + crate::float64::units(m);
            low * low < 4 * (crate::float64::units(p) * crate::float64::unity())
        }),
{
    let full: nat = 0x0010_0000_0000_0000;
    let u = crate::float64::units(m);
    let v = crate::float64::units(p);
    let one = crate::float64::unity();
    let e = (m / full - 1) as nat;
    let s = (p / full - 1) as nat;
    let k = full + m % full;
    let step = pow2(e);
    let h = pow2(s);
    lemma_pow2_pos(e);
    lemma_pow2_pos(s);
    lemma_pow2_pos(1074);
    assert(u == k * step);
    // The neighbours.
    assert((m - 1) as nat / full == m / full && (m - 1) as nat % full == m % full - 1);
    assert(crate::float64::units((m - 1) as nat) == u - step) by (nonlinear_arith)
        requires
            crate::float64::units((m - 1) as nat) == (k - 1) * step,
            u == k * step,
    ;
    crate::float64::lemma_units_pack(s, full + p % full + 1);
    assert(s * full + (full + p % full + 1) == p + 1);
    assert(crate::float64::units(p + 1) == v + h) by (nonlinear_arith)
        requires
            crate::float64::units(p + 1) == (full + p % full + 1) * h,
            v == (full + p % full) * h,
    ;
    assert(v >= full * h) by (nonlinear_arith)
        requires
            v == (full + p % full) * h,
    ;
    lemma_step_below(p);
    // Both in powers of two.
    let a = h * one;
    let c = step * step;
    lemma_pow2_adds(s, 1074);
    lemma_pow2_adds(e, e);
    assert(c > 0) by (nonlinear_arith)
        requires
            c == step * step,
            step > 0,
    ;
    assert(u * u == (k * k) * c) by (nonlinear_arith)
        requires
            u == k * step,
            c == step * step,
    ;
    // The square is at most half a step away.
    assert(2 * (u * u) <= 2 * (v * one) + a) by (nonlinear_arith)
        requires
            2 * (u * u) <= one * (v + (v + h)),
            a == h * one,
    ;
    if 2 * a >= (4 * k - 1) * c {
        assert(a > 0x0020_0000_0000_0000 * c) by (nonlinear_arith)
            requires
                2 * a >= (4 * k - 1) * c,
                k >= 0x0010_0000_0000_0001,
                c > 0,
        ;
        lemma_pow2_adds((e + e) as nat, 53);
        assert(pow2(53) == 0x0020_0000_0000_0000) by {
            lemma2_to64_rest();
        }
        assert(pow2((s + 1074) as nat) > pow2((e + e + 53) as nat));
        if s + 1074 <= e + e + 53 {
            if s + 1074 < e + e + 53 {
                lemma_pow2_strictly_increases((s + 1074) as nat, (e + e + 53) as nat);
            }
            assert(false);
        }
        if s + 1074 > e + e + 54 {
            lemma_pow2_strictly_increases((e + e + 54) as nat, (s + 1074) as nat);
        }
        lemma_pow2_adds((e + e) as nat, 54);
        assert(pow2(54) == 0x0040_0000_0000_0000) by {
            lemma2_to64_rest();
        }
        assert(a >= 0x0040_0000_0000_0000 * c);
        let w = crate::float64::units((p - 1) as nat);
        assert(0x001f_ffff_ffff_ffff * a <= 2 * (k * k) * c) by (nonlinear_arith)
            requires
                one * (w + v) <= 2 * (u * u),
                w >= v - h,
                v >= 0x0010_0000_0000_0000 * h,
                a == h * one,
                u * u == (k * k) * c,
                one > 0,
        ;
        assert(k <= 0x001f_ffff_ffff_ffff);
        assert(false) by (nonlinear_arith)
            requires
                0x001f_ffff_ffff_ffff * a <= 2 * (k * k) * c,
                a >= 0x0040_0000_0000_0000 * c,
                0 < k <= 0x001f_ffff_ffff_ffff,
                c > 0,
        ;
    }
    let low = crate::float64::units((m - 1) as nat) + u;
    assert(low * low < 4 * (v * one)) by (nonlinear_arith)
        requires
            low == 2 * u - step,
            u == k * step,
            c == step * step,
            u * u == (k * k) * c,
            2 * (u * u) <= 2 * (v * one) + a,
            2 * a < (4 * k - 1) * c,
    ;
}

/// The magnitude below is at most a step away.
proof fn lemma_step_below(p: nat)
    requires
        p > 0x0010_0000_0000_0000,
    ensures
        crate::float64::units((p - 1) as nat) + pow2((p / 0x0010_0000_0000_0000 - 1) as nat)
            >= crate::float64::units(p),
{
    let full: nat = 0x0010_0000_0000_0000;
    let s = (p / full - 1) as nat;
    let f = p % full;
    if f > 0 {
        assert((p - 1) as nat / full == p / full && (p - 1) as nat % full == f - 1);
        let h = pow2(s);
        assert((full + f - 1) * h + h == (full + f) * h) by (nonlinear_arith);
    } else {
        assert((p - 1) as nat / full == s && (p - 1) as nat % full == full - 1);
        let t = (s - 1) as nat;
        lemma_pow2_adds(t, 1);
        lemma2_to64();
        let g = pow2(t);
        assert((2 * full - 1) * g + g * 2 >= full * (g * 2)) by (nonlinear_arith);
    }
}

/// A square is no number below nought, and no infinity unless it is too large to be told from one.
proof fn lemma_squared(a: Float64)
    requires
        a.magnitude() < INFINITY_BITS,
    ensures
        ({
            let u = crate::float64::units(a.magnitude());
            &&& !a.times(a).negative()
            &&& a.times(a).magnitude() == crate::float64::rounded(u * u, crate::float64::unity())
            &&& a.times(a).magnitude() <= INFINITY_BITS
        }),
{
    reveal(crate::float64::product);
    let u = crate::float64::units(a.magnitude());
    crate::rounding::lemma_units_of_one();
    crate::rounding::lemma_rounded_is_nearest(u * u, crate::float64::unity());
}

/// A distance is no less than either of its parts, though it is rounded three times; parts of less
/// than one are left aside.
proof fn lemma_distance(x: Float64, y: Float64)
    requires
        x.magnitude() < INFINITY_BITS,
        y.magnitude() < INFINITY_BITS,
    ensures
        ({
            let dist = x.times(x).plus(y.times(y)).sqrt();
            &&& !dist.negative()
            &&& dist.magnitude() <= INFINITY_BITS
            &&& x.magnitude() >= ONE ==> x.magnitude() <= dist.magnitude()
            &&& y.magnitude() >= ONE ==> y.magnitude() <= dist.magnitude()
        }),
{
    reveal(crate::float64::sum);
    reveal(crate::float64::root);
    lemma_squared(x);
    lemma_squared(y);
    crate::rounding::lemma_units_of_one();
    let one = crate::float64::unity();
    let a = x.times(x);
    let b = y.times(y);
    let total = a.plus(b);
    assert(crate::float64::units(0) == 0);
    if a.magnitude() < INFINITY_BITS && b.magnitude() < INFINITY_BITS {
        let s = crate::float64::units(a.magnitude());
        let t = crate::float64::units(b.magnitude());
        crate::rounding::lemma_rounded_is_nearest(s + t, 1);
        crate::rounding::lemma_rounded_at_least(s + t, 1, a.magnitude());
        crate::rounding::lemma_rounded_at_least(s + t, 1, b.magnitude());
        if s + t == 0 {
            crate::rounding::lemma_rounded_exact(0, 1, 0);
        }
        assert(!total.negative() && total.magnitude() == crate::float64::rounded(s + t, 1));
        if 0 < total.magnitude() && total.magnitude() < INFINITY_BITS {
            let square = crate::float64::units(total.magnitude()) * one;
            lemma_root_found(total.magnitude());
            if x.magnitude() >= ONE {
                lemma_root_of_square(x.magnitude());
                lemma_roots_ordered(a.magnitude(), total.magnitude());
            }
            if y.magnitude() >= ONE {
                lemma_root_of_square(y.magnitude());
                lemma_roots_ordered(b.magnitude(), total.magnitude());
            }
        } else if total.magnitude() == 0 {
            if x.magnitude() >= ONE {
                lemma_root_of_square(x.magnitude());
            }
            if y.magnitude() >= ONE {
                lemma_root_of_square(y.magnitude());
            }
        }
    }
}

/// A root is what it is rounded to.
proof fn lemma_root_found(p: nat)
    requires
        0 < p < INFINITY_BITS,
    ensures
        ({
            let square = crate::float64::units(p) * crate::float64::unity();
            crate::float64::nearest_root(crate::float64::rounded_root(square), square)
        }),
{
    let top = (INFINITY_BITS - 1) as nat;
    let most = crate::float64::units(top);
    let one = crate::float64::unity();
    let v = crate::float64::units(p);
    crate::rounding::lemma_units_of_one();
    if p < top {
        crate::float64::lemma_units_ordered(p, top);
    }
    crate::float64::lemma_units_ordered(ONE as nat, top);
    crate::float64::lemma_units_ordered(0, p);
    assert(crate::float64::units(0) == 0);
    assert(1 <= v * one < most * most) by (nonlinear_arith)
        requires
            1 <= v <= most,
            1 <= one < most,
    ;
    let n = crate::board::lemma_nearest_root_below(v * one, top);
    crate::float64::lemma_rounded_root(n, v * one);
}

/// Of two numbers, the lower has the lower root.
proof fn lemma_roots_ordered(p: nat, q: nat)
    requires
        0 < p <= q < INFINITY_BITS,
    ensures
        crate::float64::rounded_root(crate::float64::units(p) * crate::float64::unity())
            <= crate::float64::rounded_root(crate::float64::units(q) * crate::float64::unity()),
{
    lemma_root_found(p);
    lemma_root_found(q);
    let one = crate::float64::unity();
    let v = crate::float64::units(p);
    let w = crate::float64::units(q);
    let m = crate::float64::rounded_root(v * one);
    let n = crate::float64::rounded_root(w * one);
    if p < q {
        crate::float64::lemma_units_ordered(p, q);
    }
    assert(v * one <= w * one) by (nonlinear_arith)
        requires
            v <= w,
    ;
    if n < m {
        let low = crate::float64::units((m - 1) as nat) + crate::float64::units(m);
        let high = crate::float64::units(n) + crate::float64::units(n + 1);
        if n < m - 1 {
            crate::float64::lemma_units_ordered(n, (m - 1) as nat);
            crate::float64::lemma_units_ordered(n + 1, m);
            crate::float64::lemma_units_ordered((m - 1) as nat, m);
            assert(high * high < low * low) by (nonlinear_arith)
                requires
                    0 <= high < low,
            ;
        }
    }
}

/// A part of a way to the edge is no longer than the radius.
proof fn lemma_put_back(x: Float64, dist: Float64, radius: Float64)
    requires
        x.magnitude() < INFINITY_BITS,
        x.magnitude() <= dist.magnitude(),
        0 < dist.magnitude() <= INFINITY_BITS,
        !radius.negative(),
        radius.magnitude() < INFINITY_BITS,
    ensures
        x.over(dist).times(radius).abs().le(radius),
{
    reveal(crate::float64::quotient);
    reveal(crate::float64::product);
    crate::rounding::lemma_units_of_one();
    let one = crate::float64::unity();
    let u = crate::float64::units(x.magnitude());
    let d = crate::float64::units(dist.magnitude());
    assert(crate::float64::units(0) == 0);
    if x.magnitude() < dist.magnitude() {
        crate::float64::lemma_units_ordered(x.magnitude(), dist.magnitude());
    }
    crate::float64::lemma_units_ordered(0, dist.magnitude());
    let part = x.over(dist);
    assert(part.magnitude() <= ONE) by {
        if !dist.infinite() {
            assert(u * one <= d * one) by (nonlinear_arith)
                requires
                    u <= d,
            ;
            crate::rounding::lemma_rounded_at_most(u * one, d, ONE as nat);
        }
    }
    let q = crate::float64::units(part.magnitude());
    if part.magnitude() < ONE {
        crate::float64::lemma_units_ordered(part.magnitude(), ONE as nat);
    }
    let r = crate::float64::units(radius.magnitude());
    assert(q * r <= one * r) by (nonlinear_arith)
        requires
            q <= one,
    ;
    crate::rounding::lemma_rounded_at_most(q * r, one, radius.magnitude());
    let back = part.times(radius);
    if back.magnitude() < radius.magnitude() {
        crate::float64::lemma_units_ordered(back.magnitude(), radius.magnitude());
    }
}

/// A living player who is somewhere is, once held on the board, within the square around it.
pub proof fn lemma_held_within_square(p: PlayerView, radius: Float64)
    requires
        crate::board::within_limits(radius),
        p.alive,
        p.position.x.magnitude() < INFINITY_BITS,
        p.position.y.magnitude() < INFINITY_BITS,
    ensures
        ({
            let held = p.held_within(radius).position;
            held.x.abs().le(radius) && held.y.abs().le(radius)
        }),
{
    let x = p.position.x;
    let y = p.position.y;
    let dist = x.times(x).plus(y.times(y)).sqrt();
    lemma_distance(x, y);
    crate::board::lemma_positive(radius);
    crate::board::lemma_not_infinite(radius, Float64 { bits: GREATEST_BOARD_RADIUS });
    crate::float64::lemma_units_ordered(ONE as nat, LEAST_BOARD_RADIUS as nat);
    assert(LEAST_BOARD_RADIUS <= radius.magnitude()) by {
        if radius.magnitude() < LEAST_BOARD_RADIUS {
            crate::float64::lemma_units_ordered(
                radius.magnitude(),
                LEAST_BOARD_RADIUS as nat,
            );
        }
    }
    assert(crate::float64::units(0) == 0);
    if radius.lt(dist) {
        assert(radius.magnitude() < dist.magnitude()) by {
            if dist.magnitude() < radius.magnitude() {
                crate::float64::lemma_units_ordered(dist.magnitude(), radius.magnitude());
            }
        }
        crate::float64::lemma_units_ordered(0, dist.magnitude());
        lemma_put_back(x, dist, radius);
        lemma_put_back(y, dist, radius);
    } else {
        assert(dist.magnitude() <= radius.magnitude()) by {
            if radius.magnitude() < dist.magnitude() {
                crate::float64::lemma_units_ordered(radius.magnitude(), dist.magnitude());
            }
        }
        lemma_abs_at_most(x, radius);
        lemma_abs_at_most(y, radius);
    }
}

proof fn lemma_abs_at_most(a: Float64, b: Float64)
    requires
        !b.negative(),
        a.magnitude() <= b.magnitude() < INFINITY_BITS,
    ensures
        a.abs().le(b),
{
    if a.magnitude() < b.magnitude() {
        crate::float64::lemma_units_ordered(a.magnitude(), b.magnitude());
    }
}

// ---------------------------------------------------------------------------------------------
// How much is lost in rounding
// ---------------------------------------------------------------------------------------------

/// Two to the power of 53 times a number.
spec fn many(e: int) -> int {
    0x0020_0000_0000_0000 * e
}

/// One time less than `many`.
spec fn fewer(e: int) -> int {
    0x001f_ffff_ffff_ffff * e
}

/// One time more than `many`.
spec fn more(e: int) -> int {
    0x0020_0000_0000_0001 * e
}

/// A magnitude is so many times as large as the step to the next.
proof fn lemma_step_small(n: nat)
    requires
        n >= 0x0010_0000_0000_0000,
    ensures
        ({
            let h = pow2((n / 0x0010_0000_0000_0000 - 1) as nat);
            &&& h > 0
            &&& crate::float64::units(n) >= 0x0010_0000_0000_0000 * h
            &&& crate::float64::units(n + 1) == crate::float64::units(n) + h
        }),
{
    let full: nat = 0x0010_0000_0000_0000;
    let s = (n / full - 1) as nat;
    let f = n % full;
    let h = pow2(s);
    lemma_pow2_pos(s);
    crate::float64::lemma_units_pack(s, full + f + 1);
    assert(s * full + (full + f + 1) == n + 1);
    let v = crate::float64::units(n);
    assert((full + f + 1) * h == v + h && v >= full * h) by (nonlinear_arith)
        requires
            v == (full + f) * h,
    ;
}

/// What a number is rounded to is not much more than the number.
proof fn lemma_rounded_little_more(num: nat, den: nat)
    requires
        den > 0,
    ensures
        ({
            let v = crate::float64::units(crate::float64::rounded(num, den));
            fewer((den * v) as int) <= many(num as int) + many(den as int)
        }),
{
    let n = crate::float64::rounded(num, den);
    let v = crate::float64::units(n);
    crate::rounding::lemma_rounded_is_nearest(num, den);
    assert(crate::float64::units(0) == 0);
    if n == 0 {
        assert(den * 0 == 0);
    } else {
        let w = crate::float64::units((n - 1) as nat);
        if n > 0x0010_0000_0000_0000 {
            lemma_step_small(n);
            lemma_step_below(n);
            let h = pow2((n / 0x0010_0000_0000_0000 - 1) as nat);
            assert(fewer((den * v) as int) <= many(num as int)) by (nonlinear_arith)
                requires
                    den * (w + v) <= 2 * num,
                    w >= v - h,
                    v >= 0x0010_0000_0000_0000 * h,
                    den > 0,
            ;
        } else {
            assert(w == v - 1) by {
                if n == 0x0010_0000_0000_0000 {
                    lemma2_to64();
                    assert(0x0010_0000_0000_0000 * pow2(0) == 0x0010_0000_0000_0000);
                }
            }
            assert(fewer((den * v) as int) <= many(num as int) + many(den as int))
                by (nonlinear_arith)
                requires
                    den * (w + v) <= 2 * num,
                    w == v - 1,
                    v >= 0,
                    den > 0,
            ;
        }
    }
}

/// What a number is rounded to is not much less than the number.
proof fn lemma_rounded_little_less(num: nat, den: nat)
    requires
        den > 0,
        crate::float64::rounded(num, den) < INFINITY_BITS,
    ensures
        ({
            let v = crate::float64::units(crate::float64::rounded(num, den));
            many(num as int) <= more((den * v) as int) + many(den as int)
        }),
{
    let n = crate::float64::rounded(num, den);
    let v = crate::float64::units(n);
    let w = crate::float64::units(n + 1);
    crate::rounding::lemma_rounded_is_nearest(num, den);
    if n >= 0x0010_0000_0000_0000 {
        lemma_step_small(n);
        let h = pow2((n / 0x0010_0000_0000_0000 - 1) as nat);
        assert(many(num as int) <= more((den * v) as int)) by (nonlinear_arith)
            requires
                2 * num <= den * (v + w),
                w == v + h,
                v >= 0x0010_0000_0000_0000 * h,
                den > 0,
        ;
    } else {
        assert(w == v + 1) by {
            if n + 1 == 0x0010_0000_0000_0000 {
                lemma2_to64();
                assert(0x0010_0000_0000_0000 * pow2(0) == 0x0010_0000_0000_0000);
            }
        }
        assert(many(num as int) <= more((den * v) as int) + many(den as int))
            by (nonlinear_arith)
            requires
                2 * num <= den * (v + w),
                w == v + 1,
                v >= 0,
                den > 0,
        ;
    }
}

/// What a root is rounded to is not much less than the root.
proof fn lemma_root_little_less(square: nat, n: nat)
    requires
        0x0010_0000_0000_0000 <= n < INFINITY_BITS,
        crate::float64::nearest_root(n, square),
    ensures
        ({
            let d = crate::float64::units(n);
            many(many(square as int)) <= more(more((d * d) as int))
        }),
{
    lemma_step_small(n);
    let d = crate::float64::units(n);
    let h = pow2((n / 0x0010_0000_0000_0000 - 1) as nat);
    let high = d + (d + h);
    assert(0x0010_0000_0000_0000 * high <= more(d as int));
    let a = 0x0010_0000_0000_0000 * high;
    let b = more(d as int);
    assert(a * a <= b * b) by (nonlinear_arith)
        requires
            0 <= a <= b,
    ;
    assert(a * a == 0x0010_0000_0000_0000 * (0x0010_0000_0000_0000 * (high * high)))
        by (nonlinear_arith)
        requires
            a == 0x0010_0000_0000_0000 * high,
    ;
    assert(b * b == more(more((d * d) as int))) by (nonlinear_arith)
        requires
            b == more(d as int),
    ;
}

/// A distance is not much less than it should be.
proof fn lemma_distance_little_less(
    x: int,
    y: int,
    s: int,
    t: int,
    total: int,
    d: int,
    one: int,
)
    requires
        many(x * x) <= more(one * s) + many(one),
        many(y * y) <= more(one * t) + many(one),
        many(s + t) <= more(total) + 0x0020_0000_0000_0000,
        many(many(total * one)) <= more(more(d * d)),
        0x4000_0000_0000_0000 <= one <= d,
    ensures
        many(x * x + y * y) <= 0x0020_0000_0000_0005 * (d * d),
{
    assert(many(one * s + one * t) <= more(total * one) + many(one)) by (nonlinear_arith)
        requires
            many(s + t) <= more(total) + 0x0020_0000_0000_0000,
            one > 0,
    ;
    assert(d * d >= 0x4000_0000_0000_0000 * one) by (nonlinear_arith)
        requires
            0x4000_0000_0000_0000 <= one <= d,
    ;
}

/// What a root is rounded to is not much more than the root.
proof fn lemma_root_little_more(square: nat, n: nat)
    requires
        0x0010_0000_0000_0000 < n <= INFINITY_BITS,
        crate::float64::nearest_root(n, square),
    ensures
        ({
            let d = crate::float64::units(n);
            fewer(fewer((d * d) as int)) <= many(many(square as int))
        }),
{
    lemma_step_small(n);
    lemma_step_below(n);
    let d = crate::float64::units(n);
    let h = pow2((n / 0x0010_0000_0000_0000 - 1) as nat);
    let low = crate::float64::units((n - 1) as nat) + d;
    let a = fewer(d as int);
    let b = 0x0010_0000_0000_0000 * low;
    assert(a * a <= b * b) by (nonlinear_arith)
        requires
            0 <= a <= b,
    ;
    assert(b * b == 0x0010_0000_0000_0000 * (0x0010_0000_0000_0000 * (low * low)))
        by (nonlinear_arith)
        requires
            b == 0x0010_0000_0000_0000 * low,
    ;
    assert(a * a == fewer(fewer((d * d) as int))) by (nonlinear_arith)
        requires
            a == fewer(d as int),
    ;
}

/// A distance is not much more than it should be.
proof fn lemma_distance_little_more(
    x: int,
    y: int,
    s: int,
    t: int,
    total: int,
    d: int,
    one: int,
)
    requires
        fewer(one * s) <= many(x * x) + many(one),
        fewer(one * t) <= many(y * y) + many(one),
        fewer(total) <= many(s + t) + 0x0020_0000_0000_0000,
        fewer(fewer(d * d)) <= many(many(total * one)),
        0x4000_0000_0000_0000 <= one <= d,
    ensures
        0x001f_ffff_ffff_fffb * (d * d) <= many(x * x + y * y),
{
    assert(fewer(total * one) <= many(one * s + one * t) + many(one)) by (nonlinear_arith)
        requires
            fewer(total) <= many(s + t) + 0x0020_0000_0000_0000,
            one > 0,
    ;
    assert(d * d >= 0x4000_0000_0000_0000 * one) by (nonlinear_arith)
        requires
            0x4000_0000_0000_0000 <= one <= d,
    ;
}

/// A part of the way to the edge is not much shorter than it should be.
proof fn lemma_put_back_little_less(x: int, d: int, q: int, p: int, r: int, one: int)
    requires
        many(x * one) <= more(d * q) + many(d),
        many(q * r) <= more(one * p) + many(one),
        0 <= r <= 0x20_0000 * one,
        one > 0,
        d > 0,
    ensures
        many(many(r * x)) <= more(more(d * p)) + many(many(0x40_0000 * d)),
{
    let a = (d * q) * r;
    let b = (x * one) * r;
    let c = d * r;
    let f = one * d;
    let g = (one * p) * d;
    assert(many(b) <= more(a) + many(c)) by (nonlinear_arith)
        requires
            many(x * one) <= more(d * q) + many(d),
            r >= 0,
            a == (d * q) * r,
            b == (x * one) * r,
            c == d * r,
    ;
    let e = (q * r) * d;
    assert(e == a) by (nonlinear_arith)
        requires
            a == (d * q) * r,
            e == (q * r) * d,
    ;
    assert(many(e) <= more(g) + many(f)) by (nonlinear_arith)
        requires
            many(q * r) <= more(one * p) + many(one),
            d > 0,
            g == (one * p) * d,
            e == (q * r) * d,
            f == one * d,
    ;
    assert(c <= 0x20_0000 * f) by (nonlinear_arith)
        requires
            c == d * r,
            f == one * d,
            r <= 0x20_0000 * one,
            d > 0,
    ;
    assert(f > 0) by (nonlinear_arith)
        requires
            f == one * d,
            one > 0,
            d > 0,
    ;
    assert(many(many(b)) <= more(more(g)) + many(many(0x40_0000 * f)));
    let dp = d * p;
    let rx = r * x;
    assert(g == dp * one && b == rx * one) by (nonlinear_arith)
        requires
            g == (one * p) * d,
            b == (x * one) * r,
            dp == d * p,
            rx == r * x,
    ;
    assert(many(many(rx)) <= more(more(dp)) + many(many(0x40_0000 * d))) by (nonlinear_arith)
        requires
            many(many(b)) <= more(more(g)) + many(many(0x40_0000 * f)),
            g == dp * one,
            b == rx * one,
            f == one * d,
            one > 0,
    ;
}

/// A part of the way to the edge is not much longer than it should be.
proof fn lemma_put_back_little_more(x: int, d: int, q: int, p: int, r: int, one: int)
    requires
        fewer(d * q) <= many(x * one) + many(d),
        fewer(one * p) <= many(q * r) + many(one),
        0 <= r <= 0x20_0000 * one,
        one > 0,
        d > 0,
    ensures
        fewer(fewer(d * p)) <= many(many(r * x + 0x40_0000 * d)),
{
    let a = (d * q) * r;
    let b = (x * one) * r;
    let c = d * r;
    let f = one * d;
    let g = (one * p) * d;
    assert(fewer(a) <= many(b) + many(c)) by (nonlinear_arith)
        requires
            fewer(d * q) <= many(x * one) + many(d),
            r >= 0,
            a == (d * q) * r,
            b == (x * one) * r,
            c == d * r,
    ;
    assert((q * r) * d == a) by (nonlinear_arith)
        requires
            a == (d * q) * r,
    ;
    let e = (q * r) * d;
    assert(fewer(g) <= many(e) + many(f)) by (nonlinear_arith)
        requires
            fewer(one * p) <= many(q * r) + many(one),
            d > 0,
            g == (one * p) * d,
            e == (q * r) * d,
            f == one * d,
    ;
    assert(c <= 0x20_0000 * f) by (nonlinear_arith)
        requires
            c == d * r,
            f == one * d,
            r <= 0x20_0000 * one,
            d > 0,
    ;
    let left = fewer(fewer(d * p));
    let right = many(many(r * x + 0x40_0000 * d));
    assert(f > 0) by (nonlinear_arith)
        requires
            f == one * d,
            one > 0,
            d > 0,
    ;
    assert(fewer(fewer(g)) <= many(many(b)) + many(many(0x40_0000 * f)));
    let dp = d * p;
    let rx = r * x;
    assert(g == dp * one && b == rx * one) by (nonlinear_arith)
        requires
            g == (one * p) * d,
            b == (x * one) * r,
            dp == d * p,
            rx == r * x,
    ;
    assert(left <= right) by (nonlinear_arith)
        requires
            fewer(fewer(g)) <= many(many(b)) + many(many(0x40_0000 * f)),
            g == dp * one,
            b == rx * one,
            f == one * d,
            left == fewer(fewer(dp)),
            right == many(many(rx + 0x40_0000 * d)),
            one > 0,
    ;
}

/// The square of a part of the way to the edge is not much larger than it should be.
proof fn lemma_put_back_squared(x: int, d: int, p: int, r: int)
    requires
        fewer(fewer(d * p)) <= many(many(r * x + 0x40_0000 * d)),
        0 <= x <= d,
        0 <= p,
        0 <= r,
    ensures
        fewer(fewer(fewer(fewer((d * d) * (p * p))))) <= many(
            many(many(many((r * r) * (x * x) + (0x80_0000 * r + 0x40_0000 * 0x40_0000) * (d * d)))),
        ),
{
    let a = d * p;
    let b = r * x + 0x40_0000 * d;
    assert(a >= 0 && b >= 0) by (nonlinear_arith)
        requires
            a == d * p,
            b == r * x + 0x40_0000 * d,
            0 <= x <= d,
            0 <= p,
            0 <= r,
    ;
    let left = fewer(fewer(a));
    let right = many(many(b));
    assert(left * left <= right * right) by (nonlinear_arith)
        requires
            0 <= left <= right,
    ;
    assert(left * left == fewer(fewer(fewer(fewer(a * a))))) by (nonlinear_arith)
        requires
            left == fewer(fewer(a)),
    ;
    assert(right * right == many(many(many(many(b * b))))) by (nonlinear_arith)
        requires
            right == many(many(b)),
    ;
    assert(a * a == (d * d) * (p * p)) by (nonlinear_arith)
        requires
            a == d * p,
    ;
    assert(b * b <= (r * r) * (x * x) + (0x80_0000 * r + 0x40_0000 * 0x40_0000) * (d * d)) by {
        let rx = r * x;
        assert(rx <= r * d) by (nonlinear_arith)
            requires
                rx == r * x,
                0 <= x <= d,
                0 <= r,
        ;
        assert(b * b == rx * rx + 0x80_0000 * (rx * d) + (0x40_0000 * 0x40_0000) * (d * d))
            by (nonlinear_arith)
            requires
                b == rx + 0x40_0000 * d,
        ;
        assert(rx * d <= r * (d * d)) by (nonlinear_arith)
            requires
                rx <= r * d,
                0 <= d,
        ;
        assert(rx * rx == (r * r) * (x * x)) by (nonlinear_arith)
            requires
                rx == r * x,
        ;
        assert((0x80_0000 * r + 0x40_0000 * 0x40_0000) * (d * d) == 0x80_0000 * (r * (d * d)) + (
        0x40_0000 * 0x40_0000) * (d * d)) by (nonlinear_arith);
    }
}

/// The square of a part of the way to the edge is not much smaller than it should be.
proof fn lemma_put_back_squared_less(x: int, d: int, p: int, r: int)
    requires
        many(many(r * x)) <= more(more(d * p)) + many(many(0x40_0000 * d)),
        0 <= x,
        0 < d,
        0 <= p <= r,
    ensures
        many(many(many(many((r * r) * (x * x))))) <= more(more(more(more((d * d) * (p * p)))))
            + many(many(many(many((0x100_0000 * r + 0x40_0000 * 0x40_0000) * (d * d))))),
{
    let a = r * x;
    let b = d * p;
    let c = 0x40_0000 * d;
    let left = many(many(a));
    let middle = more(more(b));
    let right = many(many(c));
    assert(0 <= a && 0 <= b && 0 <= c) by (nonlinear_arith)
        requires
            a == r * x,
            b == d * p,
            c == 0x40_0000 * d,
            0 <= x,
            0 < d,
            0 <= p <= r,
    ;
    assert(left * left <= middle * middle + 2 * (middle * right) + right * right)
        by (nonlinear_arith)
        requires
            0 <= left <= middle + right,
            0 <= middle,
            0 <= right,
    ;
    assert(left * left == many(many(many(many(a * a))))) by (nonlinear_arith)
        requires
            left == many(many(a)),
    ;
    assert(middle * middle == more(more(more(more(b * b))))) by (nonlinear_arith)
        requires
            middle == more(more(b)),
    ;
    assert(right * right == many(many(many(many(c * c))))) by (nonlinear_arith)
        requires
            right == many(many(c)),
    ;
    let dr = d * r;
    assert(b <= dr) by (nonlinear_arith)
        requires
            b == d * p,
            dr == d * r,
            0 < d,
            p <= r,
    ;
    let wide = many(many(2 * dr));
    assert(0 <= dr && middle <= wide);
    assert(middle * right <= wide * right) by (nonlinear_arith)
        requires
            middle <= wide,
            0 <= right,
    ;
    assert(wide * right == many(many(many(many(2 * (dr * c)))))) by (nonlinear_arith)
        requires
            wide == many(many(2 * dr)),
            right == many(many(c)),
    ;
    let dd = d * d;
    let rd = r * dd;
    assert(dr * c == 0x40_0000 * rd) by (nonlinear_arith)
        requires
            dr == d * r,
            c == 0x40_0000 * d,
            dd == d * d,
            rd == r * dd,
    ;
    assert(c * c == (0x40_0000 * 0x40_0000) * dd) by (nonlinear_arith)
        requires
            c == 0x40_0000 * d,
            dd == d * d,
    ;
    assert(a * a == (r * r) * (x * x)) by (nonlinear_arith)
        requires
            a == r * x,
    ;
    assert(b * b == dd * (p * p)) by (nonlinear_arith)
        requires
            b == d * p,
            dd == d * d,
    ;
    assert((0x100_0000 * r + 0x40_0000 * 0x40_0000) * dd == 0x100_0000 * rd + (0x40_0000
        * 0x40_0000) * dd) by (nonlinear_arith)
        requires
            rd == r * dd,
    ;
}

/// Whoever is put back is not much inside the edge.
proof fn lemma_put_back_not_short(x: int, y: int, d: int, p: int, q: int, r: int)
    requires
        0x001f_ffff_ffff_fffb * (d * d) <= many(x * x + y * y),
        many(many(many(many((r * r) * (x * x))))) <= more(more(more(more((d * d) * (p * p)))))
            + many(many(many(many((0x100_0000 * r + 0x40_0000 * 0x40_0000) * (d * d))))),
        many(many(many(many((r * r) * (y * y))))) <= more(more(more(more((d * d) * (q * q)))))
            + many(many(many(many((0x100_0000 * r + 0x40_0000 * 0x40_0000) * (d * d))))),
        d > 0,
        r >= 0x1_0000_0000_0000_0000_0000_0000,
    ensures
        0x001f_ffff_ffff_fff0 * (r * r) <= many(p * p + q * q),
{
    let dd = d * d;
    let rr = r * r;
    let z = x * x + y * y;
    let w = p * p + q * q;
    let k = 0x100_0000 * r + 0x40_0000 * 0x40_0000;
    assert(dd > 0) by (nonlinear_arith)
        requires
            dd == d * d,
            d > 0,
    ;
    let ww = dd * w;
    let zz = rr * z;
    let kk = k * dd;
    let rd = rr * dd;
    assert(ww == dd * (p * p) + dd * (q * q)) by (nonlinear_arith)
        requires
            ww == dd * w,
            w == p * p + q * q,
    ;
    assert(zz == rr * (x * x) + rr * (y * y)) by (nonlinear_arith)
        requires
            zz == rr * z,
            z == x * x + y * y,
    ;
    assert(rr >= 0x1_0000_0000_0000_0000_0000_0000 * r) by (nonlinear_arith)
        requires
            rr == r * r,
            r >= 0x1_0000_0000_0000_0000_0000_0000,
    ;
    assert(many(2 * k) <= rr);
    assert(many(2 * kk) <= rd && rd >= 0) by (nonlinear_arith)
        requires
            many(2 * k) <= rr,
            0 <= rr,
            kk == k * dd,
            rd == rr * dd,
            dd > 0,
    ;
    assert(0x001f_ffff_ffff_fffb * rd <= many(zz)) by (nonlinear_arith)
        requires
            0x001f_ffff_ffff_fffb * dd <= many(z),
            zz == rr * z,
            rd == rr * dd,
            rr >= 0,
    ;
    assert(0x001f_ffff_ffff_fff0 * rd <= many(ww));
    assert(0x001f_ffff_ffff_fff0 * rr <= many(w)) by (nonlinear_arith)
        requires
            0x001f_ffff_ffff_fff0 * rd <= many(ww),
            ww == dd * w,
            rd == rr * dd,
            dd > 0,
    ;
}

/// A coordinate that is put back is to the radius as it was to the distance.
proof fn lemma_put_back_in_proportion(x: int, d: int, p: int, r: int)
    requires
        fewer(fewer(d * p)) <= many(many(r * x + 0x40_0000 * d)),
        many(many(r * x)) <= more(more(d * p)) + many(many(0x40_0000 * d)),
        0 <= x <= d,
        0 < d,
        0 <= p <= r,
        r >= 0x1_0000_0000_0000_0000_0000_0000,
    ensures
        many(d * p - r * x) <= 4 * (d * r),
        many(r * x - d * p) <= 4 * (d * r),
{
    let a = r * x;
    let b = d * p;
    let dr = d * r;
    assert(0 <= a <= dr && 0 <= b <= dr) by (nonlinear_arith)
        requires
            a == r * x,
            b == d * p,
            dr == d * r,
            0 <= x <= d,
            0 < d,
            0 <= p <= r,
    ;
    assert(dr >= 0x1_0000_0000_0000_0000_0000_0000 * d) by (nonlinear_arith)
        requires
            dr == d * r,
            0 < d,
            r >= 0x1_0000_0000_0000_0000_0000_0000,
    ;
}

/// Whoever is put back is not much beyond the edge.
proof fn lemma_put_back_near(x: int, y: int, d: int, p: int, q: int, r: int)
    requires
        many(x * x + y * y) <= 0x0020_0000_0000_0005 * (d * d),
        fewer(fewer(fewer(fewer((d * d) * (p * p))))) <= many(
            many(many(many((r * r) * (x * x) + (0x80_0000 * r + 0x40_0000 * 0x40_0000) * (d * d)))),
        ),
        fewer(fewer(fewer(fewer((d * d) * (q * q))))) <= many(
            many(many(many((r * r) * (y * y) + (0x80_0000 * r + 0x40_0000 * 0x40_0000) * (d * d)))),
        ),
        d > 0,
        r >= 0x1_0000_0000_0000_0000_0000_0000,
    ensures
        many(p * p + q * q) <= 0x0020_0000_0000_0010 * (r * r),
{
    let dd = d * d;
    let rr = r * r;
    let z = x * x + y * y;
    let w = p * p + q * q;
    let k = 0x80_0000 * r + 0x40_0000 * 0x40_0000;
    assert(dd > 0) by (nonlinear_arith)
        requires
            dd == d * d,
            d > 0,
    ;
    let ww = dd * w;
    let zz = rr * z;
    let kk = k * dd;
    let rd = rr * dd;
    assert(ww == dd * (p * p) + dd * (q * q)) by (nonlinear_arith)
        requires
            ww == dd * w,
            w == p * p + q * q,
    ;
    assert(zz == rr * (x * x) + rr * (y * y)) by (nonlinear_arith)
        requires
            zz == rr * z,
            z == x * x + y * y,
    ;
    assert(rr >= 0x1_0000_0000_0000_0000_0000_0000 * r) by (nonlinear_arith)
        requires
            rr == r * r,
            r >= 0x1_0000_0000_0000_0000_0000_0000,
    ;
    assert(many(2 * k) <= rr);
    assert(many(2 * kk) <= rd) by (nonlinear_arith)
        requires
            many(2 * k) <= rr,
            kk == k * dd,
            rd == rr * dd,
            dd > 0,
    ;
    assert(many(zz) <= 0x0020_0000_0000_0005 * rd) by (nonlinear_arith)
        requires
            many(z) <= 0x0020_0000_0000_0005 * dd,
            zz == rr * z,
            rd == rr * dd,
            rr >= 0,
    ;
    assert(many(ww) <= 0x0020_0000_0000_0010 * rd);
    assert(many(w) <= 0x0020_0000_0000_0010 * rr) by (nonlinear_arith)
        requires
            many(ww) <= 0x0020_0000_0000_0010 * rd,
            ww == dd * w,
            rd == rr * dd,
            dd > 0,
    ;
}

/// A living player who is somewhere is, once held on the board, beyond its edge by no more than
/// rounding makes of it: the square of its distance exceeds that of the radius by at most a part
/// in two to the power of forty-nine.
pub proof fn lemma_held_near_board(p: PlayerView, radius: Float64)
    requires
        crate::board::within_limits(radius),
        p.alive,
        p.position.x.magnitude() < INFINITY_BITS,
        p.position.y.magnitude() < INFINITY_BITS,
    ensures
        ({
            let held = p.held_within(radius).position;
            let x = crate::float64::units(held.x.magnitude());
            let y = crate::float64::units(held.y.magnitude());
            let r = crate::float64::units(radius.magnitude());
            0x0020_0000_0000_0000 * (x * x + y * y) <= 0x0020_0000_0000_0010 * (r * r)
        }),
{
    let x = p.position.x;
    let y = p.position.y;
    let dist = x.times(x).plus(y.times(y)).sqrt();
    let held = p.held_within(radius).position;
    let ux = crate::float64::units(x.magnitude());
    let uy = crate::float64::units(y.magnitude());
    let r = crate::float64::units(radius.magnitude());
    let d = crate::float64::units(dist.magnitude());
    lemma_distance(x, y);
    lemma_radius(radius);
    assert(crate::float64::units(0) == 0);
    if dist.magnitude() > ONE {
        crate::float64::lemma_units_ordered(0, dist.magnitude());
        if !dist.infinite() {
            lemma_distance_exact(x, y);
            lemma_part_small(x, dist);
            lemma_part_small(y, dist);
        }
    }
    if radius.lt(dist) {
        assert(radius.magnitude() < dist.magnitude()) by {
            if dist.magnitude() < radius.magnitude() {
                crate::float64::lemma_units_ordered(dist.magnitude(), radius.magnitude());
            }
        }
        lemma_put_back_far(x, dist, radius);
        lemma_put_back_far(y, dist, radius);
        if dist.infinite() {
            assert(0 * 0 == 0);
            assert(r * r >= 0) by (nonlinear_arith);
        } else {
            let px = crate::float64::units(held.x.magnitude());
            let py = crate::float64::units(held.y.magnitude());
            lemma_put_back_squared(ux as int, d as int, px as int, r as int);
            lemma_put_back_squared(uy as int, d as int, py as int, r as int);
            lemma_put_back_near(ux as int, uy as int, d as int, px as int, py as int, r as int);
        }
    } else {
        assert(dist.magnitude() <= radius.magnitude()) by {
            if radius.magnitude() < dist.magnitude() {
                crate::float64::lemma_units_ordered(radius.magnitude(), dist.magnitude());
            }
        }
        if dist.magnitude() < radius.magnitude() {
            crate::float64::lemma_units_ordered(dist.magnitude(), radius.magnitude());
        }
        assert(d * d <= r * r) by (nonlinear_arith)
            requires
                0 <= d <= r,
        ;
        if dist.magnitude() <= ONE {
            crate::rounding::lemma_units_of_one();
            let one = crate::float64::unity();
            if x.magnitude() < ONE {
                crate::float64::lemma_units_ordered(x.magnitude(), ONE as nat);
            }
            if y.magnitude() < ONE {
                crate::float64::lemma_units_ordered(y.magnitude(), ONE as nat);
            }
            assert(ux * ux + uy * uy <= r * r) by (nonlinear_arith)
                requires
                    0 <= ux <= one,
                    0 <= uy <= one,
                    r >= 8 * one,
            ;
        }
    }
}

/// The squares of the parts of a distance add up to not much more than its square, nor much less.
proof fn lemma_distance_exact(x: Float64, y: Float64)
    requires
        x.magnitude() < INFINITY_BITS,
        y.magnitude() < INFINITY_BITS,
        ONE < x.times(x).plus(y.times(y)).sqrt().magnitude() < INFINITY_BITS,
    ensures
        ({
            let u = crate::float64::units(x.magnitude());
            let v = crate::float64::units(y.magnitude());
            let d = crate::float64::units(x.times(x).plus(y.times(y)).sqrt().magnitude());
            0x001f_ffff_ffff_fffb * (d * d) <= many((u * u + v * v) as int)
                <= 0x0020_0000_0000_0005 * (d * d)
        }),
{
    reveal(crate::float64::sum);
    reveal(crate::float64::root);
    let one = crate::float64::unity();
    let a = x.times(x);
    let b = y.times(y);
    let total = a.plus(b);
    let dist = total.sqrt();
    crate::rounding::lemma_units_of_one();
    lemma_squared(x);
    lemma_squared(y);
    lemma_distance(x, y);
    lemma_one_is_many();
    assert(crate::float64::units(0) == 0);
    crate::float64::lemma_units_ordered(ONE as nat, dist.magnitude());
    let d = crate::float64::units(dist.magnitude());
    let ux = crate::float64::units(x.magnitude());
    let uy = crate::float64::units(y.magnitude());
    let s = crate::float64::units(a.magnitude());
    let t = crate::float64::units(b.magnitude());
    let v = crate::float64::units(total.magnitude());
    assert(a.magnitude() < INFINITY_BITS && b.magnitude() < INFINITY_BITS);
    if s + t == 0 {
        crate::rounding::lemma_rounded_exact(0, 1, 0);
    }
    crate::rounding::lemma_rounded_is_nearest(s + t, 1);
    assert(total.magnitude() == crate::float64::rounded(s + t, 1));
    lemma_rounded_little_less(ux * ux, one);
    lemma_rounded_little_less(uy * uy, one);
    lemma_rounded_little_less(s + t, 1);
    lemma_root_found(total.magnitude());
    lemma_root_little_less(v * one, dist.magnitude());
    lemma_distance_little_less(
        ux as int,
        uy as int,
        s as int,
        t as int,
        v as int,
        d as int,
        one as int,
    );
    lemma_rounded_little_more(ux * ux, one);
    lemma_rounded_little_more(uy * uy, one);
    lemma_rounded_little_more(s + t, 1);
    lemma_root_little_more(v * one, dist.magnitude());
    lemma_distance_little_more(
        ux as int,
        uy as int,
        s as int,
        t as int,
        v as int,
        d as int,
        one as int,
    );
}

/// One is many units.
proof fn lemma_one_is_many()
    ensures
        0x1_0000_0000_0000_0000_0000_0000 <= crate::float64::unity(),
{
    lemma_pow2_adds(48, 48);
    lemma2_to64_rest();
    assert(pow2(96) == 0x1_0000_0000_0000_0000_0000_0000);
    lemma_pow2_strictly_increases(96, 1074);
}

/// The radius of a board in units.
proof fn lemma_radius(radius: Float64)
    requires
        crate::board::within_limits(radius),
    ensures
        !radius.negative(),
        ONE < radius.magnitude() < INFINITY_BITS,
        0x1_0000_0000_0000_0000_0000_0000 <= crate::float64::unity(),
        8 * crate::float64::unity() <= crate::float64::units(radius.magnitude()) <= 0x20_0000
            * crate::float64::unity(),
{
    crate::board::lemma_positive(radius);
    crate::board::lemma_not_infinite(radius, Float64 { bits: GREATEST_BOARD_RADIUS });
    crate::rounding::lemma_units_of_one();
    if radius.magnitude() <= ONE {
        if radius.magnitude() < ONE {
            crate::float64::lemma_units_ordered(radius.magnitude(), ONE as nat);
        }
        crate::float64::lemma_units_ordered(ONE as nat, LEAST_BOARD_RADIUS as nat);
    }
    crate::board::lemma_small_radii();
    crate::board::lemma_greatest();
    if radius.magnitude() < GREATEST_BOARD_RADIUS {
        crate::float64::lemma_units_ordered(radius.magnitude(), GREATEST_BOARD_RADIUS as nat);
    }
    lemma_one_is_many();
}

/// Either coordinate is at most the distance.
proof fn lemma_part_small(x: Float64, dist: Float64)
    requires
        x.magnitude() >= ONE ==> x.magnitude() <= dist.magnitude(),
        dist.magnitude() > ONE,
    ensures
        crate::float64::units(x.magnitude()) <= crate::float64::units(dist.magnitude()),
{
    if x.magnitude() < dist.magnitude() {
        crate::float64::lemma_units_ordered(x.magnitude(), dist.magnitude());
    }
}

/// A coordinate that is put back is not much larger than it should be.
proof fn lemma_put_back_far(x: Float64, dist: Float64, radius: Float64)
    requires
        x.magnitude() < INFINITY_BITS,
        !dist.negative(),
        ONE < dist.magnitude() <= INFINITY_BITS,
        crate::board::within_limits(radius),
    ensures
        ({
            let d = crate::float64::units(dist.magnitude());
            let u = crate::float64::units(x.magnitude());
            let r = crate::float64::units(radius.magnitude());
            let p = crate::float64::units(x.over(dist).times(radius).magnitude());
            &&& dist.infinite() ==> p == 0
            &&& !dist.infinite() && u <= d ==> fewer(fewer((d * p) as int)) <= many(
                many((r * u + 0x40_0000 * d) as int),
            )
            &&& !dist.infinite() && u <= d ==> many(many((r * u) as int)) <= more(
                more((d * p) as int),
            ) + many(many((0x40_0000 * d) as int))
            &&& !dist.infinite() && u <= d ==> p <= r
            &&& dist.infinite() || u <= d ==> x.over(dist).times(radius).negative()
                == x.negative()
        }),
{
    reveal(crate::float64::quotient);
    reveal(crate::float64::product);
    lemma_radius(radius);
    crate::rounding::lemma_units_of_one();
    let one = crate::float64::unity();
    let d = crate::float64::units(dist.magnitude());
    let u = crate::float64::units(x.magnitude());
    let r = crate::float64::units(radius.magnitude());
    let part = x.over(dist);
    assert(crate::float64::units(0) == 0);
    crate::float64::lemma_units_ordered(0, dist.magnitude());
    if dist.infinite() {
        assert(part.magnitude() == 0);
        assert(0 * r == 0);
        crate::rounding::lemma_rounded_exact(0, one, 0);
    } else if u <= d {
        assert(u * one <= d * one) by (nonlinear_arith)
            requires
                u <= d,
        ;
        crate::rounding::lemma_rounded_at_most(u * one, d, ONE as nat);
        let q = crate::float64::units(part.magnitude());
        if part.magnitude() < ONE {
            crate::float64::lemma_units_ordered(part.magnitude(), ONE as nat);
        }
        assert(q * r <= one * r) by (nonlinear_arith)
            requires
                q <= one,
        ;
        crate::rounding::lemma_rounded_at_most(q * r, one, radius.magnitude());
        lemma_rounded_little_more(u * one, d);
        lemma_rounded_little_more(q * r, one);
        let p = crate::float64::units(part.times(radius).magnitude());
        lemma_put_back_little_more(u as int, d as int, q as int, p as int, r as int, one as int);
        if part.times(radius).magnitude() < radius.magnitude() {
            crate::float64::lemma_units_ordered(
                part.times(radius).magnitude(),
                radius.magnitude(),
            );
        }
        lemma_rounded_little_less(u * one, d);
        lemma_rounded_little_less(q * r, one);
        lemma_put_back_little_less(u as int, d as int, q as int, p as int, r as int, one as int);
    }
}

// ---------------------------------------------------------------------------------------------
// Every player at the end of a tick
// ---------------------------------------------------------------------------------------------

/// How far a point is from the middle of the board, as it is rounded.
pub open spec fn distance(p: Position) -> Float64 {
    p.x.times(p.x).plus(p.y.times(p.y)).sqrt()
}

/// Whether both coordinates of a point are numbers, and no infinities.
pub open spec fn somewhere(p: Position) -> bool {
    p.x.magnitude() < INFINITY_BITS && p.y.magnitude() < INFINITY_BITS
}

/// The square of the distance of a point from the middle of the board, in squares of units.
pub open spec fn distance_squared(p: Position) -> nat {
    let x = crate::float64::units(p.x.magnitude());
    let y = crate::float64::units(p.y.magnitude());
    x * x + y * y
}

/// Whether a point is on the edge of the board, up to rounding: the square of its distance differs
/// from that of the radius by at most a part in two to the power of forty-nine.
pub open spec fn on_edge(p: Position, radius: Float64) -> bool {
    let r = crate::float64::units(radius.magnitude());
    0x001f_ffff_ffff_fff0 * (r * r) <= 0x0020_0000_0000_0000 * distance_squared(p)
        <= 0x0020_0000_0000_0010 * (r * r)
}

/// Whether one number is to `b` as another is to `a`, up to rounding, with the same sign.
pub open spec fn in_proportion(x: Float64, a: Float64, y: Float64, b: Float64) -> bool {
    let u = crate::float64::units(x.magnitude());
    let d = crate::float64::units(a.magnitude());
    let p = crate::float64::units(y.magnitude());
    let r = crate::float64::units(b.magnitude());
    &&& y.negative() == x.negative()
    &&& 0x0020_0000_0000_0000 * (d * p - r * u) <= 4 * (d * r)
    &&& 0x0020_0000_0000_0000 * (r * u - d * p) <= 4 * (d * r)
}

/// Who is beyond the edge of the board, at a distance that is a number, is put onto it in the same
/// direction: the coordinates keep their signs and their proportion to the distance. Who is not
/// stays.
pub proof fn lemma_put_onto_edge(p: PlayerView, radius: Float64)
    requires
        crate::board::within_limits(radius),
        p.alive,
        somewhere(p.position),
        distance(p.position).magnitude() < INFINITY_BITS,
    ensures
        ({
            let held = p.held_within(radius).position;
            let dist = distance(p.position);
            if radius.lt(dist) {
                &&& on_edge(held, radius)
                &&& in_proportion(p.position.x, dist, held.x, radius)
                &&& in_proportion(p.position.y, dist, held.y, radius)
            } else {
                held == p.position
            }
        }),
{
    let x = p.position.x;
    let y = p.position.y;
    let dist = distance(p.position);
    if radius.lt(dist) {
        let held = p.held_within(radius).position;
        let ux = crate::float64::units(x.magnitude());
        let uy = crate::float64::units(y.magnitude());
        let r = crate::float64::units(radius.magnitude());
        let d = crate::float64::units(dist.magnitude());
        lemma_distance(x, y);
        lemma_radius(radius);
        assert(crate::float64::units(0) == 0);
        assert(radius.magnitude() < dist.magnitude()) by {
            if dist.magnitude() < radius.magnitude() {
                crate::float64::lemma_units_ordered(dist.magnitude(), radius.magnitude());
            }
        }
        crate::float64::lemma_units_ordered(0, dist.magnitude());
        lemma_distance_exact(x, y);
        lemma_part_small(x, dist);
        lemma_part_small(y, dist);
        lemma_put_back_far(x, dist, radius);
        lemma_put_back_far(y, dist, radius);
        let px = crate::float64::units(held.x.magnitude());
        let py = crate::float64::units(held.y.magnitude());
        lemma_put_back_squared(ux as int, d as int, px as int, r as int);
        lemma_put_back_squared(uy as int, d as int, py as int, r as int);
        lemma_put_back_near(ux as int, uy as int, d as int, px as int, py as int, r as int);
        lemma_put_back_squared_less(ux as int, d as int, px as int, r as int);
        lemma_put_back_squared_less(uy as int, d as int, py as int, r as int);
        lemma_put_back_not_short(ux as int, uy as int, d as int, px as int, py as int, r as int);
        lemma_put_back_in_proportion(ux as int, d as int, px as int, r as int);
        lemma_put_back_in_proportion(uy as int, d as int, py as int, r as int);
    }
}

/// Whether a point is where one is put that is held on the board: not beyond its edge but for
/// rounding, where it was if that is not beyond the edge, and otherwise on the edge in the same
/// direction, if the distance is a number.
pub open spec fn put_on_board(before: Position, held: Position, radius: Float64) -> bool {
    let dist = distance(before);
    let r = crate::float64::units(radius.magnitude());
    &&& held.x.abs().le(radius) && held.y.abs().le(radius)
    &&& 0x0020_0000_0000_0000 * distance_squared(held) <= 0x0020_0000_0000_0010 * (r * r)
    &&& !radius.lt(dist) ==> held == before
    &&& radius.lt(dist) && dist.magnitude() < INFINITY_BITS ==> on_edge(held, radius)
        && in_proportion(before.x, dist, held.x, radius) && in_proportion(
        before.y,
        dist,
        held.y,
        radius,
    )
}

proof fn lemma_put_on_board(p: PlayerView, radius: Float64)
    requires
        crate::board::within_limits(radius),
        p.alive,
        somewhere(p.position),
    ensures
        put_on_board(p.position, p.held_within(radius).position, radius),
{
    lemma_held_within_square(p, radius);
    lemma_held_near_board(p, radius);
    if distance(p.position).magnitude() < INFINITY_BITS {
        lemma_put_onto_edge(p, radius);
    }
}

/// At the end of a tick everyone who is somewhere is put on the board, whose radius stays.
pub proof fn lemma_all_on_board(game: GameView, kills: Seq<Kill>, i: int)
    requires
        crate::laws::valid(game, Seq::empty()),
        crate::capture::has_room_for(game, 0),
        0 <= i < game.kills_done(kills).players.len(),
        somewhere(game.kills_done(kills).players[i].position),
    ensures
        game.kills_done(kills).held_on_board().board_radius == game.board_radius,
        put_on_board(
            game.kills_done(kills).players[i].position,
            game.kills_done(kills).held_on_board().players[i].position,
            game.board_radius,
        ),
{
    let done = game.kills_done(kills);
    crate::laws::lemma_kills_done_valid(game, kills);
    crate::course::lemma_kills_keep_board(game, kills);
    assert(crate::laws::sound(done.players[i], done.territory_version, Seq::empty()));
    lemma_put_on_board(done.players[i], game.board_radius);
}

/// Where everyone went somewhere, everyone who is still there at the end of the tick is put on the
/// board from where it went.
pub proof fn lemma_tick_ends_on_board(
    moved: GameView,
    olds: Seq<Option<Position>>,
    answers: Seq<Answer>,
    dt: Float64,
    now: u64,
    j: int,
)
    requires
        crate::laws::valid(moved, Seq::empty()),
        forall|i: int|
            0 <= i < moved.players.len() ==> somewhere((#[trigger] moved.players[i]).position),
        crate::course::run(moved, PhaseView::Place { olds }, answers, dt, now).1 is Done,
        0 <= j < crate::course::run(
            moved,
            PhaseView::Place { olds },
            answers,
            dt,
            now,
        ).0.players.len(),
    ensures
        ({
            let after = crate::course::run(moved, PhaseView::Place { olds }, answers, dt, now).0;
            &&& after.board_radius == moved.board_radius
            &&& exists|i: int|
                0 <= i < moved.players.len() && (#[trigger] moved.players[i]).id
                    == after.players[j].id && put_on_board(
                    moved.players[i].position,
                    after.players[j].position,
                    moved.board_radius,
                )
        }),
{
    let after = crate::course::run(moved, PhaseView::Place { olds }, answers, dt, now).0;
    crate::course::lemma_tick_ends_where_they_went(moved, olds, answers, dt, now);
    let p = after.players[j];
    assert(crate::course::was_held(p, moved.players, moved.board_radius));
    let i = choose|i: int|
        0 <= i < moved.players.len() && (#[trigger] moved.players[i]).id == p.id && p.position
            == moved.players[i].held_within(moved.board_radius).position;
    assert(crate::laws::sound(moved.players[i], moved.territory_version, Seq::empty()));
    lemma_put_on_board(moved.players[i], moved.board_radius);
    assert(moved.players[i].id == p.id);
}

}
