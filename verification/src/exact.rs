//! Arithmetic where nothing is rounded: on numbers that are few parts of a power of two.
use crate::float64::{Float64, INFINITY_BITS};
use crate::game::{CORNER_DISTANCE_SQUARED, ONE_AND_A_HALF};
use crate::geometry::{ONE, ZERO};
use crate::protocol::{
    Position, CELL_SIZE, PLAYER_SPEED, STARTING_TERRITORY_RADIUS, VISIBILITY_RADIUS,
};
use crate::render::MILLISECONDS;
use crate::spawn::{SEARCH_MARGIN, TWO};
use vstd::arithmetic::power2::*;
use vstd::prelude::*;

verus! {

/// The most parts that a number surely holds, and one more.
pub open spec fn most() -> int {
    0x0020_0000_0000_0000
}

/// Whether a number is exactly `n` parts, of which two to the power of `k` make one.
pub open spec fn is_parts(a: Float64, n: int, k: nat) -> bool {
    &&& k <= 1022
    &&& a.magnitude() < INFINITY_BITS
    &&& a.value() == n * pow2((1074 - k) as nat)
}

/// Whether both coordinates of a point are exactly so many parts.
pub open spec fn is_at(p: Position, x: int, y: int, k: nat) -> bool {
    is_parts(p.x, x, k) && is_parts(p.y, y, k)
}

/// Whether a number of parts is small enough.
pub open spec fn few(n: int) -> bool {
    -most() < n < most()
}

/// The size of a number of parts.
pub open spec fn size(n: int) -> nat {
    if n < 0 {
        (-n) as nat
    } else {
        n as nat
    }
}

/// How large a number of parts is, and on which side of nought.
pub proof fn lemma_size_of(a: Float64, n: int, k: nat)
    requires
        is_parts(a, n, k),
    ensures
        crate::float64::units(a.magnitude()) == size(n) * pow2((1074 - k) as nat),
        n > 0 ==> !a.negative() && a.magnitude() > 0,
        n < 0 ==> a.negative() && a.magnitude() > 0,
        n == 0 ==> a.magnitude() == 0,
{
    let p = pow2((1074 - k) as nat);
    let u = crate::float64::units(a.magnitude());
    lemma_pow2_pos((1074 - k) as nat);
    assert(crate::float64::units(0) == 0);
    if a.magnitude() > 0 {
        crate::float64::lemma_units_ordered(0, a.magnitude());
    }
    assert(n > 0 ==> n * p > 0) by (nonlinear_arith)
        requires
            p > 0,
    ;
    assert(n < 0 ==> n * p < 0) by (nonlinear_arith)
        requires
            p > 0,
    ;
    assert(n == 0 ==> n * p == 0) by (nonlinear_arith);
    assert((-n) * p == -(n * p)) by (nonlinear_arith);
}

/// A number is so many parts if its size and its side are.
pub proof fn lemma_signed_parts(negative: bool, m: nat, n: int, k: nat)
    requires
        k <= 1022,
        m < INFINITY_BITS,
        crate::float64::units(m) == size(n) * pow2((1074 - k) as nat),
        n > 0 ==> !negative,
        n < 0 ==> negative,
    ensures
        is_parts(crate::float64::signed(negative, m), n, k),
{
    let p = pow2((1074 - k) as nat);
    assert((-n) * p == -(n * p)) by (nonlinear_arith);
    assert(0 * p == 0);
    let a = crate::float64::signed(negative, m);
    assert(a.magnitude() == m && a.negative() == negative);
}

/// Few parts and few parts are so many parts.
pub proof fn lemma_plus_exact(a: Float64, m: int, b: Float64, n: int, k: nat)
    requires
        is_parts(a, m, k),
        is_parts(b, n, k),
        few(m + n),
    ensures
        is_parts(a.plus(b), m + n, k),
{
    reveal(crate::float64::sum);
    let e = (1074 - k) as nat;
    let p = pow2(e);
    lemma_pow2_pos(e);
    let exact = a.value() + b.value();
    assert(exact == (m + n) * p) by (nonlinear_arith)
        requires
            exact == m * p + n * p,
    ;
    let s = size(m + n);
    let mag = crate::rounding::lemma_small_multiple(s, e);
    assert((-(m + n)) * p == -((m + n) * p)) by (nonlinear_arith);
    assert((m + n > 0 ==> exact > 0) && (m + n < 0 ==> exact < 0) && (m + n == 0 ==> exact == 0))
        by (nonlinear_arith)
        requires
            exact == (m + n) * p,
            p > 0,
    ;
    if m + n == 0 {
        assert(crate::float64::units(0) == 0);
        lemma_signed_parts(a.negative() && b.negative(), 0, 0, k);
    } else {
        crate::rounding::lemma_rounded_exact(s * p, 1, mag);
        lemma_signed_parts(m + n < 0, mag, m + n, k);
    }
}

/// The opposite of so many parts is as many parts the other way.
pub proof fn lemma_negated_exact(a: Float64, m: int, k: nat)
    requires
        is_parts(a, m, k),
    ensures
        is_parts(a.negated(), -m, k),
{
    crate::rounding::lemma_negated_parts(a);
    let p = pow2((1074 - k) as nat);
    assert((-m) * p == -(m * p)) by (nonlinear_arith);
}

/// Few parts without few parts are so many parts.
pub proof fn lemma_minus_exact(a: Float64, m: int, b: Float64, n: int, k: nat)
    requires
        is_parts(a, m, k),
        is_parts(b, n, k),
        few(m - n),
    ensures
        is_parts(a.minus(b), m - n, k),
{
    lemma_negated_exact(b, n, k);
    lemma_plus_exact(a, m, b.negated(), -n, k);
}

/// Few parts times few parts are so many smaller parts.
pub proof fn lemma_times_exact(a: Float64, m: int, j: nat, b: Float64, n: int, k: nat)
    requires
        is_parts(a, m, j),
        is_parts(b, n, k),
        few(m * n),
        j + k <= 1022,
    ensures
        is_parts(a.times(b), m * n, j + k),
{
    reveal(crate::float64::product);
    lemma_size_of(a, m, j);
    lemma_size_of(b, n, k);
    let ea = (1074 - j) as nat;
    let eb = (1074 - k) as nat;
    let e = (1074 - (j + k)) as nat;
    let pa = pow2(ea);
    let pb = pow2(eb);
    let p = pow2(e);
    let one = crate::float64::unity();
    lemma_pow2_adds(ea, eb);
    lemma_pow2_adds(1074, e);
    assert(ea + eb == 1074 + e);
    assert(one * p == pa * pb);
    let s = size(m * n);
    assert(s == size(m) * size(n)) by (nonlinear_arith)
        requires
            s == size(m * n),
    ;
    let u = crate::float64::units(a.magnitude());
    let v = crate::float64::units(b.magnitude());
    assert(u * v == one * (s * p)) by (nonlinear_arith)
        requires
            u == size(m) * pa,
            v == size(n) * pb,
            one * p == pa * pb,
            s == size(m) * size(n),
    ;
    let mag = crate::rounding::lemma_small_multiple(s, e);
    crate::rounding::lemma_units_of_one();
    crate::rounding::lemma_rounded_exact(u * v, one, mag);
    assert(m * n > 0 ==> (m > 0) == (n > 0) && m != 0 && n != 0) by (nonlinear_arith);
    assert(m * n < 0 ==> (m > 0) != (n > 0) && m != 0 && n != 0) by (nonlinear_arith);
    lemma_signed_parts(a.negative() != b.negative(), mag, m * n, j + k);
}

/// A multiple of so many parts, divided by them.
pub proof fn lemma_over_exact(a: Float64, q: int, j: nat, b: Float64, n: int, k: nat)
    requires
        is_parts(a, q * n, j + k),
        is_parts(b, n, k),
        n > 0,
        few(q),
    ensures
        is_parts(a.over(b), q, j),
{
    reveal(crate::float64::quotient);
    lemma_size_of(a, q * n, j + k);
    lemma_size_of(b, n, k);
    let ea = (1074 - (j + k)) as nat;
    let eb = (1074 - k) as nat;
    let e = (1074 - j) as nat;
    let pa = pow2(ea);
    let pb = pow2(eb);
    let p = pow2(e);
    let one = crate::float64::unity();
    lemma_pow2_adds(1074, ea);
    lemma_pow2_adds(eb, e);
    assert(one * pa == pb * p);
    let s = size(q);
    assert(size(q * n) == s * (n as nat)) by (nonlinear_arith)
        requires
            n > 0,
            s == size(q),
    ;
    let u = crate::float64::units(a.magnitude());
    let v = crate::float64::units(b.magnitude());
    assert(u * one == v * (s * p)) by (nonlinear_arith)
        requires
            u == (s * (n as nat)) * pa,
            v == (n as nat) * pb,
            one * pa == pb * p,
    ;
    lemma_pow2_pos(eb);
    assert(v > 0) by (nonlinear_arith)
        requires
            v == (n as nat) * pb,
            n > 0,
            pb > 0,
    ;
    let mag = crate::rounding::lemma_small_multiple(s, e);
    crate::rounding::lemma_rounded_exact(u * one, v, mag);
    assert((q > 0 ==> q * n > 0) && (q < 0 ==> q * n < 0)) by (nonlinear_arith)
        requires
            n > 0,
    ;
    lemma_signed_parts(a.negative() != b.negative(), mag, q, j);
}

/// Numbers of parts are ordered as the parts.
pub proof fn lemma_order_exact(a: Float64, m: int, b: Float64, n: int, k: nat)
    requires
        is_parts(a, m, k),
        is_parts(b, n, k),
    ensures
        a.lt(b) == (m < n),
        a.le(b) == (m <= n),
        a.equals(b) == (m == n),
{
    let p = pow2((1074 - k) as nat);
    lemma_pow2_pos((1074 - k) as nat);
    assert((m < n) == (m * p < n * p)) by (nonlinear_arith)
        requires
            p > 0,
    ;
    assert((m <= n) == (m * p <= n * p)) by (nonlinear_arith)
        requires
            p > 0,
    ;
}

/// The same number in smaller parts.
pub proof fn lemma_finer(a: Float64, m: int, k: nat, d: nat)
    requires
        is_parts(a, m, k),
        k + d <= 1022,
    ensures
        is_parts(a, m * pow2(d), k + d),
{
    let e = (1074 - k - d) as nat;
    lemma_pow2_adds(d, e);
    let x = pow2(d);
    let y = pow2(e);
    assert(m * (x * y) == (m * x) * y) by (nonlinear_arith);
}

/// A pattern with a significand that is a small number doubled is so many parts.
pub proof fn lemma_pattern(bits: u64, n: nat, j: nat, k: nat)
    requires
        bits < INFINITY_BITS,
        k <= 1022,
        bits / 0x0010_0000_0000_0000 >= 1,
        0x0010_0000_0000_0000 + bits % 0x0010_0000_0000_0000 == n * pow2(j),
        j + bits / 0x0010_0000_0000_0000 - 1 == 1074 - k,
    ensures
        is_parts(Float64 { bits }, n as int, k),
{
    let e = (bits / 0x0010_0000_0000_0000 - 1) as nat;
    lemma_pow2_adds(j, e);
    let x = pow2(j);
    let y = pow2(e);
    assert((n * x) * y == n * (x * y)) by (nonlinear_arith);
    let m = bits as nat;
    assert(m / 0x0010_0000_0000_0000 == e + 1);
    assert(crate::float64::units(m) == (0x0010_0000_0000_0000 + m % 0x0010_0000_0000_0000) * y);
}

/// What the constants are.
pub proof fn lemma_constants()
    ensures
        is_parts(Float64 { bits: ZERO }, 0, 0),
        is_parts(Float64 { bits: ONE }, 1, 0),
        is_parts(Float64 { bits: PLAYER_SPEED }, 25, 1),
        is_parts(Float64 { bits: ONE_AND_A_HALF }, 3, 1),
        is_parts(Float64 { bits: STARTING_TERRITORY_RADIUS }, 5, 1),
        is_parts(Float64 { bits: VISIBILITY_RADIUS }, 250, 0),
        is_parts(Float64 { bits: CORNER_DISTANCE_SQUARED }, 1, 2),
{
    lemma2_to64();
    lemma2_to64_rest();
    assert(crate::float64::units(0) == 0);
    assert(0 * pow2(1074) == 0);
    lemma_pattern(ONE, 1, 52, 0);
    lemma_pattern(PLAYER_SPEED, 25, 48, 1);
    lemma_pattern(ONE_AND_A_HALF, 3, 51, 1);
    lemma_pattern(STARTING_TERRITORY_RADIUS, 5, 50, 1);
    lemma_pattern(VISIBILITY_RADIUS, 250, 45, 0);
    lemma_pattern(CORNER_DISTANCE_SQUARED, 1, 52, 2);
}

/// What the constants of a search for a place are.
pub proof fn lemma_search_constants()
    ensures
        is_parts(Float64 { bits: TWO }, 2, 0),
        is_parts(Float64 { bits: SEARCH_MARGIN }, 20, 0),
{
    lemma2_to64();
    lemma2_to64_rest();
    lemma_pattern(TWO, 2, 51, 0);
    lemma_pattern(SEARCH_MARGIN, 20, 48, 0);
}

/// What the constants of the screen are.
pub proof fn lemma_screen_constants()
    ensures
        is_parts(Float64 { bits: CELL_SIZE }, 30, 0),
        is_parts(Float64 { bits: MILLISECONDS }, 1000, 0),
{
    lemma2_to64();
    lemma2_to64_rest();
    lemma_pattern(CELL_SIZE, 30, 48, 0);
    lemma_pattern(MILLISECONDS, 1000, 43, 0);
}

}
