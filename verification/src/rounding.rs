//! What rounding keeps of exact arithmetic.
use crate::float64::{Float64, INFINITY_BITS};
use crate::geometry::ONE;
use vstd::arithmetic::power2::*;
use vstd::prelude::*;

verus! {

// ---------------------------------------------------------------------------------------------
// Rounding is total and keeps the order
// ---------------------------------------------------------------------------------------------

proof fn lemma_nearest_below(num: nat, den: nat, n: nat) -> (found: nat)
    requires
        den > 0,
        n <= INFINITY_BITS,
        num < den * crate::float64::units(n),
    ensures
        crate::float64::nearest(found, num, den),
    decreases n,
{
    if n == 0 {
        assert(crate::float64::units(0) == 0);
        assert(den * 0 == 0) by (nonlinear_arith);
        0
    } else {
        let m = (n - 1) as nat;
        if den * crate::float64::units(m) <= num {
            let mid = den * (crate::float64::units(m) + crate::float64::units(n));
            let up = mid < 2 * num || (mid == 2 * num && m % 2 == 1);
            crate::float64::lemma_nearest_between(m, num, den, up);
            if up {
                n
            } else {
                m
            }
        } else {
            lemma_nearest_below(num, den, m)
        }
    }
}

/// Every value is rounded to a magnitude nearest to it.
pub proof fn lemma_rounded_is_nearest(num: nat, den: nat)
    requires
        den > 0,
    ensures
        crate::float64::nearest(crate::float64::rounded(num, den), num, den),
        crate::float64::rounded(num, den) <= INFINITY_BITS,
{
    let n = INFINITY_BITS as nat;
    if num >= den * crate::float64::units(n) {
        crate::float64::lemma_nearest_overflow(num, den);
        crate::float64::lemma_rounded(n, num, den);
    } else {
        let found = lemma_nearest_below(num, den, n);
        crate::float64::lemma_rounded(found, num, den);
    }
}

/// A value that is at most a magnitude is rounded to at most that magnitude.
pub proof fn lemma_rounded_at_most(num: nat, den: nat, k: nat)
    requires
        den > 0,
        num <= den * crate::float64::units(k),
    ensures
        crate::float64::rounded(num, den) <= k,
{
    lemma_rounded_is_nearest(num, den);
    let n = crate::float64::rounded(num, den);
    if n > k {
        let a = crate::float64::units((n - 1) as nat);
        let b = crate::float64::units(n);
        let u = crate::float64::units(k);
        crate::float64::lemma_units_ordered(k, n);
        if k < n - 1 {
            crate::float64::lemma_units_ordered(k, (n - 1) as nat);
        }
        assert(den * (a + b) > 2 * (den * u)) by (nonlinear_arith)
            requires
                den > 0,
                a >= u,
                b > u,
        ;
    }
}

/// A value that is at least a magnitude is rounded to at least that magnitude.
pub proof fn lemma_rounded_at_least(num: nat, den: nat, k: nat)
    requires
        den > 0,
        k <= INFINITY_BITS,
        num >= den * crate::float64::units(k),
    ensures
        crate::float64::rounded(num, den) >= k,
{
    lemma_rounded_is_nearest(num, den);
    let n = crate::float64::rounded(num, den);
    if n < k {
        let a = crate::float64::units(n);
        let b = crate::float64::units(n + 1);
        let u = crate::float64::units(k);
        crate::float64::lemma_units_ordered(n, k);
        if n + 1 < k {
            crate::float64::lemma_units_ordered(n + 1, k);
        }
        assert(den * (a + b) < 2 * (den * u)) by (nonlinear_arith)
            requires
                den > 0,
                a < u,
                b <= u,
        ;
    }
}

/// A value that is a magnitude is rounded to it.
pub proof fn lemma_rounded_exact(num: nat, den: nat, k: nat)
    requires
        den > 0,
        k <= INFINITY_BITS,
        num == den * crate::float64::units(k),
    ensures
        crate::float64::rounded(num, den) == k,
{
    lemma_rounded_at_most(num, den, k);
    lemma_rounded_at_least(num, den, k);
}

/// One is as many units as make one.
pub proof fn lemma_units_of_one()
    ensures
        crate::float64::units(ONE as nat) == crate::float64::unity(),
        crate::float64::unity() > 0,
{
    let n = ONE as nat;
    lemma_pow2_pos(1074);
    assert(n / 0x0010_0000_0000_0000 == 1023 && n % 0x0010_0000_0000_0000 == 0);
    lemma2_to64_rest();
    lemma_pow2_adds(52, 1022);
    assert(pow2(52) == 0x0010_0000_0000_0000);
}

// ---------------------------------------------------------------------------------------------
// Small multiples of a power of two are numbers
// ---------------------------------------------------------------------------------------------

/// How often a small number is doubled until it fills a significand.
proof fn lemma_doublings(m: nat) -> (j: nat)
    requires
        0 < m < 0x0020_0000_0000_0000,
    ensures
        j <= 52,
        0x0010_0000_0000_0000 <= m * pow2(j) < 0x0020_0000_0000_0000,
    decreases 0x0020_0000_0000_0000 - m,
{
    lemma2_to64();
    lemma2_to64_rest();
    if m >= 0x0010_0000_0000_0000 {
        assert(m * pow2(0) == m);
        0
    } else {
        let i = lemma_doublings(2 * m);
        let j = i + 1;
        lemma_pow2_unfold(j);
        let p = pow2(i);
        assert(m * (2 * p) == (2 * m) * p) by (nonlinear_arith);
        if j > 52 {
            if j > 53 {
                lemma_pow2_strictly_increases(53, j);
            }
            let q = pow2(j);
            assert(m * q >= q) by (nonlinear_arith)
                requires
                    m >= 1,
                    q >= 0,
            ;
        }
        j
    }
}

/// A small multiple of a power of two is a number: its magnitude.
pub proof fn lemma_small_multiple(m: nat, e: nat) -> (k: nat)
    requires
        m < 0x0020_0000_0000_0000,
        52 <= e <= 1074,
    ensures
        k < INFINITY_BITS,
        crate::float64::units(k) == m * pow2(e),
{
    if m == 0 {
        assert(crate::float64::units(0) == 0);
        assert(0 * pow2(e) == 0);
        0
    } else {
        let j = lemma_doublings(m);
        let q = m * pow2(j);
        let s = (e - j) as nat;
        crate::float64::lemma_units_pack(s, q);
        lemma_pow2_adds(j, s);
        let a = pow2(j);
        let b = pow2(s);
        assert((m * a) * b == m * (a * b)) by (nonlinear_arith);
        s * 0x0010_0000_0000_0000 + q
    }
}

// ---------------------------------------------------------------------------------------------
// Nought
// ---------------------------------------------------------------------------------------------

impl Float64 {
    /// Whether the pattern is zero or no number.
    pub open spec fn nought(self) -> bool {
        self.nan() || self.magnitude() == 0
    }
}

/// Nothing is left of a number without itself.
pub proof fn lemma_minus_self(a: Float64)
    ensures
        a.minus(a).nought(),
{
    reveal(crate::float64::sum);
    lemma_negated_parts(a);
}

/// A number with the other sign has the same magnitude.
pub proof fn lemma_negated_parts(a: Float64)
    ensures
        a.negated().magnitude() == a.magnitude(),
        a.negated().negative() == !a.negative(),
        a.negated().value() == -a.value(),
{
}

/// Noughts add up to nought.
pub proof fn lemma_plus_nought(a: Float64, b: Float64)
    requires
        a.nought(),
        b.nought(),
    ensures
        a.plus(b).nought(),
        a.minus(b).nought(),
{
    reveal(crate::float64::sum);
    lemma_negated_parts(b);
    assert(crate::float64::units(0) == 0);
}

/// Nought times anything is nought.
pub proof fn lemma_times_nought(a: Float64, b: Float64)
    requires
        a.nought() || b.nought(),
    ensures
        a.times(b).nought(),
{
    reveal(crate::float64::product);
    assert(crate::float64::units(0) == 0);
    lemma_units_of_one();
    if !a.nan() && !b.nan() && !a.infinite() && !b.infinite() {
        let u = crate::float64::units(a.magnitude());
        let v = crate::float64::units(b.magnitude());
        assert(u * v == 0) by (nonlinear_arith)
            requires
                u == 0 || v == 0,
        ;
        lemma_rounded_exact(0, crate::float64::unity(), 0);
    }
}

/// Nought divided by anything is nought.
pub proof fn lemma_nought_over(a: Float64, b: Float64)
    requires
        a.nought(),
    ensures
        a.over(b).nought(),
{
    reveal(crate::float64::quotient);
    assert(crate::float64::units(0) == 0);
    if !a.nan() && !b.nan() && !b.infinite() && b.magnitude() > 0 {
        let v = crate::float64::units(b.magnitude());
        crate::float64::lemma_units_ordered(0, b.magnitude());
        assert(0 * crate::float64::unity() == 0);
        lemma_rounded_exact(0, v, 0);
    }
}

/// A number divided by itself is one, or no number.
pub proof fn lemma_over_self(a: Float64)
    ensures
        a.over(a).nan() || a.over(a) == (Float64 { bits: ONE }),
{
    reveal(crate::float64::quotient);
    if !a.nan() && !a.infinite() && a.magnitude() > 0 {
        let u = crate::float64::units(a.magnitude());
        crate::float64::lemma_units_ordered(0, a.magnitude());
        assert(crate::float64::units(0) == 0);
        lemma_units_of_one();
        lemma_rounded_exact(u * crate::float64::unity(), u, ONE as nat);
    }
}

/// The difference of two numbers changes its sign with their order.
pub proof fn lemma_minus_swapped(a: Float64, b: Float64)
    ensures
        ({
            let p = a.minus(b);
            let q = b.minus(a);
            (p.nought() && q.nought()) || q == p.negated()
        }),
{
    reveal(crate::float64::sum);
    lemma_negated_parts(a);
    lemma_negated_parts(b);
    if !a.nan() && !b.nan() && !a.infinite() && !b.infinite() {
        let exact = a.value() - b.value();
        if exact != 0 {
            let size = if exact < 0 {
                (-exact) as nat
            } else {
                exact as nat
            };
            lemma_rounded_is_nearest(size, 1);
            assert(a.value() + b.negated().value() == exact);
            assert(b.value() + a.negated().value() == -exact);
        }
    }
}

/// The product of two numbers is the same either way round, and keeps its value when both change
/// their signs.
pub proof fn lemma_times_signs(a: Float64, b: Float64)
    ensures
        a.times(b) == b.times(a),
        a.times(b.negated()) == b.times(a.negated()),
{
    reveal(crate::float64::product);
    lemma_negated_parts(a);
    lemma_negated_parts(b);
    let u = crate::float64::units(a.magnitude());
    let v = crate::float64::units(b.magnitude());
    assert(u * v == v * u) by (nonlinear_arith);
}

/// A number is not below itself less something that is not negative.
pub proof fn lemma_minus_positive(a: Float64, b: Float64)
    requires
        !a.negative(),
        !b.negative(),
        !b.nan(),
        b.magnitude() <= a.magnitude() < INFINITY_BITS,
    ensures
        !a.lt(a.minus(b)),
{
    reveal(crate::float64::sum);
    lemma_negated_parts(b);
    let exact = a.value() - b.value();
    if b.magnitude() < a.magnitude() {
        crate::float64::lemma_units_ordered(b.magnitude(), a.magnitude());
    }
    if exact > 0 {
        assert(a.value() + b.negated().value() == exact);
        lemma_rounded_at_most(exact as nat, 1, a.magnitude());
        let n = crate::float64::rounded(exact as nat, 1);
        if n < a.magnitude() {
            crate::float64::lemma_units_ordered(n, a.magnitude());
        }
    }
}

// ---------------------------------------------------------------------------------------------
// Parts
// ---------------------------------------------------------------------------------------------

/// The step below a normal number is small against the number.
proof fn lemma_step_below(k: nat)
    requires
        k >= 0x0020_0000_0000_0000,
    ensures
        0x0010_0000_0000_0000 * (crate::float64::units(k) - crate::float64::units(
            (k - 1) as nat,
        )) < crate::float64::units(k),
{
    let e = k / 0x0010_0000_0000_0000;
    let f = k % 0x0010_0000_0000_0000;
    let m = (k - 1) as nat;
    if f > 0 {
        assert(m / 0x0010_0000_0000_0000 == e);
        assert(m % 0x0010_0000_0000_0000 == f - 1);
        let p = pow2((e - 1) as nat);
        lemma_pow2_pos((e - 1) as nat);
        assert((0x0010_0000_0000_0000 + f) * p - (0x0010_0000_0000_0000 + (f - 1)) * p == p)
            by (nonlinear_arith);
        assert(0x0010_0000_0000_0000 * p < (0x0010_0000_0000_0000 + f) * p) by (nonlinear_arith)
            requires
                f > 0,
                p > 0,
        ;
    } else {
        assert(m / 0x0010_0000_0000_0000 == e - 1);
        assert(m % 0x0010_0000_0000_0000 == 0x000f_ffff_ffff_ffff);
        let p = pow2((e - 2) as nat);
        lemma_pow2_pos((e - 2) as nat);
        lemma_pow2_unfold((e - 1) as nat);
        assert(0x0010_0000_0000_0000 * (2 * p) - 0x001f_ffff_ffff_ffff * p == p)
            by (nonlinear_arith);
        assert(0x0010_0000_0000_0000 * p < 0x0010_0000_0000_0000 * (2 * p)) by (nonlinear_arith)
            requires
                p > 0,
        ;
    }
}

/// A part of a count that is below one is below the count.
pub proof fn lemma_part_of_count(part: Float64, n: u32)
    requires
        part.lt(Float64 { bits: ONE }),
        n > 0,
    ensures
        part.times(crate::float64::count(n as nat)).trunc_u32() < n,
{
    reveal(crate::float64::count);
    reveal(crate::float64::product);
    reveal(crate::float64::trunc_clipped);
    lemma_units_of_one();
    let one = crate::float64::unity();
    let k = lemma_small_multiple(n as nat, 1074);
    assert(one == pow2(1074));
    lemma_rounded_exact(n as nat * one, 1, k);
    let c = crate::float64::count(n as nat);
    assert(c.magnitude() == k && !c.negative() && !c.infinite());
    let result = part.times(c);
    if !part.negative() {
        let r = part.magnitude();
        if r >= ONE {
            if r > ONE {
                crate::float64::lemma_units_ordered(ONE as nat, r);
            }
            assert(false);
        }
        let last = (ONE - 1) as nat;
        let u = crate::float64::units(r);
        let v = crate::float64::units(k);
        lemma_last_below_one();
        if r < last {
            crate::float64::lemma_units_ordered(r, last);
        }
        // The count is a normal number.
        if k < 0x0020_0000_0000_0000 {
            crate::float64::lemma_units_ordered(k, 0x0020_0000_0000_0000);
            lemma_units_of_small();
            assert(v >= one) by (nonlinear_arith)
                requires
                    v == n * one,
                    n >= 1,
            ;
            assert(false);
        }
        lemma_step_below(k);
        let w = crate::float64::units((k - 1) as nat);
        let num = u * v;
        assert(u * v <= one * v) by (nonlinear_arith)
            requires
                u <= one,
        ;
        lemma_rounded_is_nearest(num, one);
        lemma_rounded_at_most(num, one, k);
        let m = crate::float64::rounded(num, one);
        assert(2 * num < one * (w + v)) by (nonlinear_arith)
            requires
                num == u * v,
                u * 0x0020_0000_0000_0000 <= one * 0x001f_ffff_ffff_ffff,
                0x0010_0000_0000_0000 * (v - w) < v,
                one > 0,
        ;
        assert(m < k);
        crate::float64::lemma_units_ordered(m, k);
        let whole = crate::float64::units(m) / one;
        assert(whole < n) by (nonlinear_arith)
            requires
                whole == crate::float64::units(m) / one,
                crate::float64::units(m) < n * one,
                one > 0,
        ;
        assert(result == crate::float64::signed(false, m));
        assert(result.value() == crate::float64::units(m));
        assert(crate::float64::trunc_clipped(result) == whole);
    } else {
        lemma_rounded_is_nearest(
            crate::float64::units(part.magnitude()) * crate::float64::units(k),
            one,
        );
        assert(result.nan() || result.negative());
        assert(crate::float64::trunc_clipped(result) == 0);
    }
}

proof fn lemma_last_below_one()
    ensures
        crate::float64::units((ONE - 1) as nat) * 0x0020_0000_0000_0000
            == crate::float64::unity() * 0x001f_ffff_ffff_ffff,
        crate::float64::units((ONE - 1) as nat) <= crate::float64::unity(),
{
    let n = (ONE - 1) as nat;
    assert(n / 0x0010_0000_0000_0000 == 1022 && n % 0x0010_0000_0000_0000
        == 0x000f_ffff_ffff_ffff);
    lemma_pow2_adds(53, 1021);
    lemma2_to64_rest();
    assert(pow2(53) == 0x0020_0000_0000_0000);
    let p = pow2(1021);
    assert((0x001f_ffff_ffff_ffff * p) * 0x0020_0000_0000_0000 == (0x0020_0000_0000_0000 * p)
        * 0x001f_ffff_ffff_ffff) by (nonlinear_arith);
    assert(0x001f_ffff_ffff_ffff * p <= 0x0020_0000_0000_0000 * p) by (nonlinear_arith);
}

proof fn lemma_units_of_small()
    ensures
        crate::float64::units(0x0020_0000_0000_0000) < crate::float64::unity(),
{
    assert(0x0020_0000_0000_0000nat / 0x0010_0000_0000_0000 == 2 && 0x0020_0000_0000_0000nat
        % 0x0010_0000_0000_0000 == 0);
    lemma2_to64();
    lemma2_to64_rest();
    lemma_pow2_strictly_increases(53, 1074);
    assert(pow2(53) == 0x0020_0000_0000_0000);
    assert(pow2(1) == 2);
    assert(crate::float64::units(0x0020_0000_0000_0000) == 0x0010_0000_0000_0000 * pow2(1));
}

}
