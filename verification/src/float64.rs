//! Binary floating-point numbers held as their 64-bit patterns.
//!
//! Every finite number is a whole multiple of the smallest positive one, so a pattern stands for
//! an integer count of that unit, and the arithmetic below is stated over those integers: each
//! operation returns the pattern nearest to the exact result, the even one of two equally near.
use vstd::arithmetic::power2::*;
use vstd::prelude::*;

verus! {

/// The pattern of positive infinity; larger magnitudes are not numbers.
pub const INFINITY_BITS: u64 = 0x7ff0_0000_0000_0000;

/// The weight of the sign bit.
pub const SIGN_BIT: u64 = 0x8000_0000_0000_0000;

/// The pattern of the quiet not-a-number that the operations return.
pub const NAN_BITS: u64 = 0x7ff8_0000_0000_0000;

/// One more than the largest fraction field.
pub const FRACTION: u64 = 0x0010_0000_0000_0000;

/// The size of the number with magnitude `n`, counted in units of 2^-1074.
///
/// Infinity counts as the power of two that follows the largest finite number.
pub open spec fn units(n: nat) -> nat {
    let exponent = n / 0x0010_0000_0000_0000;
    let fraction = n % 0x0010_0000_0000_0000;
    if exponent == 0 {
        fraction
    } else {
        (0x0010_0000_0000_0000 + fraction) * pow2((exponent - 1) as nat)
    }
}

/// How many units make one.
pub open spec fn unity() -> nat {
    pow2(1074)
}

/// Whether `n` is the magnitude nearest to `num / den` units, the even one of two nearest.
pub open spec fn nearest(n: nat, num: nat, den: nat) -> bool {
    &&& n <= INFINITY_BITS
    &&& n > 0 ==> {
        let low = den * (units((n - 1) as nat) + units(n));
        low < 2 * num || (low == 2 * num && n % 2 == 0)
    }
    &&& n < INFINITY_BITS ==> {
        let high = den * (units(n) + units(n + 1));
        2 * num < high || (2 * num == high && n % 2 == 0)
    }
}

/// The magnitude to which `num / den` units is rounded.
pub open spec fn rounded(num: nat, den: nat) -> nat {
    choose|n: nat| nearest(n, num, den)
}

/// Whether `n` is the magnitude nearest to the square root of `square`, both counted in units.
pub open spec fn nearest_root(n: nat, square: nat) -> bool {
    &&& n <= INFINITY_BITS
    &&& n > 0 ==> {
        let low = units((n - 1) as nat) + units(n);
        low * low < 4 * square || (low * low == 4 * square && n % 2 == 0)
    }
    &&& n < INFINITY_BITS ==> {
        let high = units(n) + units(n + 1);
        4 * square < high * high || (4 * square == high * high && n % 2 == 0)
    }
}

/// The magnitude to which the square root of `square` is rounded, both counted in units.
pub open spec fn rounded_root(square: nat) -> nat {
    choose|n: nat| nearest_root(n, square)
}

// ---------------------------------------------------------------------------------------------
// Order of magnitudes
// ---------------------------------------------------------------------------------------------

proof fn lemma_units_step(n: nat)
    ensures
        units(n) < units(n + 1),
{
    let e = n / 0x0010_0000_0000_0000;
    let f = n % 0x0010_0000_0000_0000;
    if f + 1 < 0x0010_0000_0000_0000 {
        assert((n + 1) / 0x0010_0000_0000_0000 == e);
        assert((n + 1) % 0x0010_0000_0000_0000 == f + 1);
        if e > 0 {
            let p = pow2((e - 1) as nat);
            lemma_pow2_pos((e - 1) as nat);
            assert((0x0010_0000_0000_0000 + f) * p < (0x0010_0000_0000_0000 + (f + 1)) * p)
                by (nonlinear_arith)
                requires
                    p > 0,
            ;
        }
    } else {
        assert((n + 1) / 0x0010_0000_0000_0000 == e + 1);
        assert((n + 1) % 0x0010_0000_0000_0000 == 0);
        assert(units(n + 1) == 0x0010_0000_0000_0000 * pow2(e));
        if e == 0 {
            lemma2_to64();
        } else {
            let p = pow2((e - 1) as nat);
            lemma_pow2_pos((e - 1) as nat);
            lemma_pow2_unfold(e);
            assert((0x0010_0000_0000_0000 + f) * p < 0x0010_0000_0000_0000 * (2 * p))
                by (nonlinear_arith)
                requires
                    p > 0,
                    f < 0x0010_0000_0000_0000,
            ;
        }
    }
}

/// A larger magnitude is a larger number.
pub proof fn lemma_units_ordered(m: nat, n: nat)
    requires
        m < n,
    ensures
        units(m) < units(n),
    decreases n,
{
    lemma_units_step((n - 1) as nat);
    if m < n - 1 {
        lemma_units_ordered(m, (n - 1) as nat);
    }
}

proof fn lemma_not_both_nearest(m: nat, n: nat, num: nat, den: nat)
    requires
        den > 0,
        m < n,
        nearest(m, num, den),
    ensures
        !nearest(n, num, den),
{
    let high = units(m) + units(m + 1);
    let low = units((n - 1) as nat) + units(n);
    if m + 1 < n {
        lemma_units_ordered(m, (n - 1) as nat);
        lemma_units_ordered(m + 1, n);
        assert(den * high < den * low) by (nonlinear_arith)
            requires
                den > 0,
                high < low,
        ;
    }
}

/// Two magnitudes are never both nearest to one value.
pub proof fn lemma_nearest_unique(m: nat, n: nat, num: nat, den: nat)
    requires
        den > 0,
        nearest(m, num, den),
        nearest(n, num, den),
    ensures
        m == n,
{
    if m < n {
        lemma_not_both_nearest(m, n, num, den);
    } else if n < m {
        lemma_not_both_nearest(n, m, num, den);
    }
}

/// What is nearest is what is rounded to.
pub proof fn lemma_rounded(n: nat, num: nat, den: nat)
    requires
        den > 0,
        nearest(n, num, den),
    ensures
        rounded(num, den) == n,
{
    lemma_nearest_unique(n, rounded(num, den), num, den);
}

proof fn lemma_not_both_roots(m: nat, n: nat, square: nat)
    requires
        m < n,
        nearest_root(m, square),
    ensures
        !nearest_root(n, square),
{
    let high = units(m) + units(m + 1);
    let low = units((n - 1) as nat) + units(n);
    if m + 1 < n {
        lemma_units_ordered(m, (n - 1) as nat);
        lemma_units_ordered(m + 1, n);
        assert(high * high < low * low) by (nonlinear_arith)
            requires
                0 <= high < low,
        ;
    }
}

/// What is nearest to a root is what it is rounded to.
pub proof fn lemma_rounded_root(n: nat, square: nat)
    requires
        nearest_root(n, square),
    ensures
        rounded_root(square) == n,
{
    let other = rounded_root(square);
    if n < other {
        lemma_not_both_roots(n, other, square);
    } else if other < n {
        lemma_not_both_roots(other, n, square);
    }
}

// ---------------------------------------------------------------------------------------------
// Rounding
// ---------------------------------------------------------------------------------------------

/// The magnitude made of an exponent step and a significand, before any carry out of it.
pub proof fn lemma_units_pack(s: nat, q: nat)
    requires
        q <= 0x0020_0000_0000_0000,
        s > 0 ==> q >= 0x0010_0000_0000_0000,
    ensures
        units(s * 0x0010_0000_0000_0000 + q) == q * pow2(s),
{
    let n = s * 0x0010_0000_0000_0000 + q;
    lemma2_to64();
    if q < 0x0010_0000_0000_0000 {
        assert(s == 0);
        assert(n / 0x0010_0000_0000_0000 == 0);
        assert(n % 0x0010_0000_0000_0000 == q);
        assert(q * pow2(0) == q);
    } else if q < 0x0020_0000_0000_0000 {
        assert(n / 0x0010_0000_0000_0000 == s + 1);
        assert(n % 0x0010_0000_0000_0000 == q - 0x0010_0000_0000_0000);
    } else {
        assert(n / 0x0010_0000_0000_0000 == s + 2);
        assert(n % 0x0010_0000_0000_0000 == 0);
        lemma_pow2_unfold(s + 1);
        let p = pow2(s);
        assert(0x0010_0000_0000_0000 * (2 * p) == 0x0020_0000_0000_0000 * p) by (nonlinear_arith);
    }
}

/// A value that a magnitude meets exactly is rounded to it.
pub proof fn lemma_nearest_exact(n: nat, num: nat, den: nat)
    requires
        den > 0,
        n <= INFINITY_BITS,
        num == den * units(n),
    ensures
        nearest(n, num, den),
{
    let u = units(n);
    if n > 0 {
        let l = units((n - 1) as nat);
        lemma_units_step((n - 1) as nat);
        assert(den * (l + u) < 2 * (den * u)) by (nonlinear_arith)
            requires
                den > 0,
                l < u,
        ;
    }
    if n < INFINITY_BITS {
        let h = units(n + 1);
        lemma_units_step(n);
        assert(2 * (den * u) < den * (u + h)) by (nonlinear_arith)
            requires
                den > 0,
                u < h,
        ;
    }
}

/// A value at or above infinity's count is rounded to infinity.
pub proof fn lemma_nearest_overflow(num: nat, den: nat)
    requires
        den > 0,
        num >= den * units(INFINITY_BITS as nat),
    ensures
        nearest(INFINITY_BITS as nat, num, den),
{
    let n = INFINITY_BITS as nat;
    let u = units(n);
    let l = units((n - 1) as nat);
    lemma_units_step((n - 1) as nat);
    assert(den * (l + u) < 2 * (den * u)) by (nonlinear_arith)
        requires
            den > 0,
            l < u,
    ;
}

/// A value between two neighbours is rounded by its side of their midpoint.
pub proof fn lemma_nearest_between(n: nat, num: nat, den: nat, up: bool)
    requires
        den > 0,
        n < INFINITY_BITS,
        den * units(n) <= num < den * units(n + 1),
        ({
            let mid = den * (units(n) + units(n + 1));
            if up {
                mid < 2 * num || (mid == 2 * num && n % 2 == 1)
            } else {
                2 * num < mid || (2 * num == mid && n % 2 == 0)
            }
        }),
    ensures
        nearest(
            if up {
                n + 1
            } else {
                n
            },
            num,
            den,
        ),
{
    let u = units(n);
    let h = units(n + 1);
    lemma_units_step(n);
    if up {
        if n + 1 < INFINITY_BITS {
            let h2 = units(n + 2);
            lemma_units_step(n + 1);
            assert(2 * (den * h) < den * (h + h2)) by (nonlinear_arith)
                requires
                    den > 0,
                    h < h2,
            ;
        }
        assert((n + 1 - 1) as nat == n);
    } else {
        if n > 0 {
            let l = units((n - 1) as nat);
            lemma_units_step((n - 1) as nat);
            assert(den * (l + u) < 2 * (den * u)) by (nonlinear_arith)
                requires
                    den > 0,
                    l < u,
            ;
        }
    }
}

/// The power of two that a shifted one is.
proof fn lemma_one_shifted(k: u128)
    requires
        k < 128,
    ensures
        (1u128 << k) == pow2(k as nat),
    decreases k,
{
    if k == 0 {
        assert(1u128 << 0u128 == 1) by (bit_vector);
        lemma2_to64();
    } else {
        let j = (k - 1) as u128;
        lemma_one_shifted(j);
        assert((1u128 << k) == (1u128 << j) * 2) by (bit_vector)
            requires
                1 <= k < 128,
                j == k - 1,
        ;
        lemma_pow2_unfold(k as nat);
    }
}

/// Two to the power `k`.
fn power_of_two(k: u32) -> (p: u128)
    requires
        k < 128,
    ensures
        p == pow2(k as nat),
        p > 0,
{
    proof {
        lemma_one_shifted(k as u128);
        lemma_pow2_pos(k as nat);
    }
    1u128 << (k as u128)
}

/// The quotient and the remainder of `m` by two to the power `k`.
fn split_at(m: u128, k: u32) -> (r: (u128, u128))
    requires
        k < 128,
    ensures
        m == r.0 * pow2(k as nat) + r.1,
        r.1 < pow2(k as nat),
        r.0 == m as nat / pow2(k as nat),
{
    let p = power_of_two(k);
    let q: u128 = m >> (k as u128);
    proof {
        vstd::bits::lemma_u128_shr_is_div(m, k as u128);
        vstd::arithmetic::div_mod::lemma_fundamental_div_mod(m as int, p as int);
        assert(q * p == p * q) by (nonlinear_arith);
        assert(0 <= q * p <= m);
    }
    (q, m - q * p)
}

/// The number of binary digits of `m`.
fn digits_64(m: u64) -> (len: u32)
    ensures
        len <= 64,
        m == 0 <==> len == 0,
        m < pow2(len as nat),
        m > 0 ==> pow2((len - 1) as nat) <= m,
{
    let zeros: u32 = m.leading_zeros();
    proof {
        vstd::std_specs::bits::axiom_u64_leading_zeros(m);
        lemma2_to64();
        let len = (64 - zeros) as u64;
        if zeros == 0 {
            assert(m < pow2(64));
        } else if zeros < 64 {
            vstd::bits::lemma_u64_shr_is_div(m, len);
            let p = pow2(len as nat);
            lemma_pow2_pos(len as nat);
            vstd::arithmetic::div_mod::lemma_fundamental_div_mod(m as int, p as int);
            assert(m as nat / p == 0);
            assert(p * 0 == 0) by (nonlinear_arith);
        }
        if zeros < 64 {
            let s = (63 - zeros) as u64;
            vstd::bits::lemma_u64_shr_is_div(m, s);
            let p = pow2(s as nat);
            lemma_pow2_pos(s as nat);
            let shifted = m >> s;
            assert(shifted & 1 != 0 ==> shifted >= 1) by (bit_vector);
            vstd::arithmetic::div_mod::lemma_fundamental_div_mod(m as int, p as int);
            assert(p * shifted >= p) by (nonlinear_arith)
                requires
                    shifted >= 1,
                    p > 0,
            ;
        }
    }
    64 - zeros
}

/// The number of binary digits of `m`.
fn digits(m: u128) -> (len: u32)
    ensures
        len <= 128,
        m == 0 <==> len == 0,
        m < pow2(len as nat),
        m > 0 ==> pow2((len - 1) as nat) <= m,
{
    let (high, low) = split_at(m, 64);
    proof {
        lemma2_to64();
        assert(high < 0x1_0000_0000_0000_0000) by (nonlinear_arith)
            requires
                m == high * 0x1_0000_0000_0000_0000 + low,
                m <= u128::MAX,
                0 <= low,
        ;
    }
    if high == 0 {
        digits_64(low as u64)
    } else {
        let len = digits_64(high as u64);
        proof {
            let p = pow2(len as nat);
            let h = pow2((len - 1) as nat);
            lemma_pow2_adds(len as nat, 64);
            lemma_pow2_adds((len - 1) as nat, 64);
            assert(m < p * 0x1_0000_0000_0000_0000) by (nonlinear_arith)
                requires
                    m == high * 0x1_0000_0000_0000_0000 + low,
                    low < 0x1_0000_0000_0000_0000,
                    high < p,
            ;
            assert(h * 0x1_0000_0000_0000_0000 <= m) by (nonlinear_arith)
                requires
                    m == high * 0x1_0000_0000_0000_0000 + low,
                    low >= 0,
                    h <= high,
            ;
        }
        len + 64
    }
}

/// Whether `num / den` units lies at `m` steps of `2^e` units or, where `inexact`, strictly
/// between `m` and `m + 1` of them.
spec fn counted(m: nat, e: int, inexact: bool, num: nat, den: nat) -> bool {
    let step = pow2((6000 + e) as nat);
    let value = num * pow2(6000);
    &&& den * (m * step) <= value
    &&& value < den * ((m + 1) * step)
    &&& inexact <==> den * (m * step) < value
}

/// Where a value lies among the steps that are `2^k` finer steps long.
proof fn lemma_coarser(
    m: int,
    q: int,
    rem: int,
    half: int,
    step: int,
    coarse: int,
    scale: int,
    num: int,
    den: int,
)
    requires
        den > 0,
        step > 0,
        scale > 0,
        half > 0,
        coarse > 0,
        q >= 0,
        num >= 0,
        0 <= rem < 2 * half,
        m == q * (2 * half) + rem,
        step * (2 * half) == coarse * scale,
        den * (m * step) <= num * scale,
        num * scale < den * ((m + 1) * step),
    ensures
        den * (q * coarse) <= num,
        num < den * ((q + 1) * coarse),
        rem > half ==> den * (q * coarse + (q + 1) * coarse) < 2 * num,
        rem < half ==> 2 * num < den * (q * coarse + (q + 1) * coarse),
        rem == half && den * (m * step) == num * scale ==> den * (q * coarse + (q + 1) * coarse)
            == 2 * num,
        rem == half && den * (m * step) < num * scale ==> den * (q * coarse + (q + 1) * coarse) < 2
            * num,
{
    let wide = 2 * half;
    // The exact value and the three marks, in fine steps.
    assert((den * (q * coarse)) * scale == den * ((q * wide) * step)) by (nonlinear_arith)
        requires
            step * wide == coarse * scale,
    ;
    assert((den * ((q + 1) * coarse)) * scale == den * (((q + 1) * wide) * step))
        by (nonlinear_arith)
        requires
            step * wide == coarse * scale,
    ;
    let mid = q * wide + half;
    let odd = 2 * q + 1;
    assert(q * coarse + (q + 1) * coarse == odd * coarse) by (nonlinear_arith)
        requires
            odd == 2 * q + 1,
    ;
    assert(odd * wide == 2 * mid) by (nonlinear_arith)
        requires
            odd == 2 * q + 1,
            wide == 2 * half,
            mid == q * wide + half,
    ;
    assert((den * (odd * coarse)) * scale == den * (odd * (coarse * scale))) by (nonlinear_arith);
    assert(den * (odd * (step * wide)) == den * ((odd * wide) * step)) by (nonlinear_arith);
    assert(den * ((2 * mid) * step) == 2 * (den * (mid * step))) by (nonlinear_arith);
    let k = den * step;
    assert(k > 0) by (nonlinear_arith)
        requires
            den > 0,
            step > 0,
            k == den * step,
    ;
    let fine = num * scale;
    assert(den * (m * step) == m * k) by (nonlinear_arith)
        requires
            k == den * step,
    ;
    assert(den * ((m + 1) * step) == (m + 1) * k) by (nonlinear_arith)
        requires
            k == den * step,
    ;
    assert(den * ((q * wide) * step) == (q * wide) * k) by (nonlinear_arith)
        requires
            k == den * step,
    ;
    assert(den * (((q + 1) * wide) * step) == ((q + 1) * wide) * k) by (nonlinear_arith)
        requires
            k == den * step,
    ;
    assert(den * (mid * step) == mid * k) by (nonlinear_arith)
        requires
            k == den * step,
    ;
    assert((q + 1) * wide == q * wide + wide) by (nonlinear_arith);
    assert((q * wide) * k <= m * k) by (nonlinear_arith)
        requires
            q * wide <= m,
            k > 0,
    ;
    assert((m + 1) * k <= ((q + 1) * wide) * k) by (nonlinear_arith)
        requires
            m + 1 <= (q + 1) * wide,
            k > 0,
    ;
    assert(den * (q * coarse) <= num) by (nonlinear_arith)
        requires
            (den * (q * coarse)) * scale <= num * scale,
            scale > 0,
    ;
    assert(num < den * ((q + 1) * coarse)) by (nonlinear_arith)
        requires
            num * scale < (den * ((q + 1) * coarse)) * scale,
            scale > 0,
    ;
    let both = den * (q * coarse + (q + 1) * coarse);
    assert((2 * num) * scale == 2 * fine) by (nonlinear_arith)
        requires
            fine == num * scale,
    ;
    if rem > half {
        assert((mid + 1) * k <= m * k) by (nonlinear_arith)
            requires
                mid + 1 <= m,
                k > 0,
        ;
        assert((mid + 1) * k == mid * k + k) by (nonlinear_arith);
        assert(both < 2 * num) by (nonlinear_arith)
            requires
                both * scale < (2 * num) * scale,
                scale > 0,
        ;
    } else if rem < half {
        assert((m + 1) * k <= mid * k) by (nonlinear_arith)
            requires
                m + 1 <= mid,
                k > 0,
        ;
        assert(2 * num < both) by (nonlinear_arith)
            requires
                (2 * num) * scale < both * scale,
                scale > 0,
        ;
    } else {
        assert(mid == m);
        if m * k == fine {
            assert(both == 2 * num) by (nonlinear_arith)
                requires
                    both * scale == (2 * num) * scale,
                    scale > 0,
            ;
        } else if m * k < fine {
            assert(both < 2 * num) by (nonlinear_arith)
                requires
                    both * scale < (2 * num) * scale,
                    scale > 0,
            ;
        }
    }
}

/// The magnitude nearest to a value that lies `m` steps of `2^e` units up, or just above that.
fn round_counted(
    m: u128,
    e: i32,
    inexact: bool,
    Ghost(num): Ghost<nat>,
    Ghost(den): Ghost<nat>,
) -> (n: u64)
    requires
        m < pow2(124),
        -3200 <= e <= 3200,
        den > 0,
        counted(m as nat, e as int, inexact, num, den),
        inexact ==> m >= 0x0040_0000_0000_0000,
    ensures
        nearest(n as nat, num, den),
        rounded(num, den) == n,
{
    proof {
        lemma_pow2_pos((6000 + e) as nat);
        lemma_pow2_pos(6000);
    }
    if m == 0 {
        proof {
            let step = pow2((6000 + e) as nat);
            let scale = pow2(6000);
            assert(den * (0 * step) == 0) by (nonlinear_arith);
            assert(num == 0) by (nonlinear_arith)
                requires
                    num * scale == 0,
                    scale > 0,
            ;
            assert(units(0) == 0);
            assert(den * 0 == 0) by (nonlinear_arith);
            lemma_nearest_exact(0, num, den);
            lemma_rounded(0, num, den);
        }
        return 0;
    }
    let len = digits(m);
    proof {
        if len > 124 {
            if len > 125 {
                lemma_pow2_strictly_increases(124, (len - 1) as nat);
            }
        }
        lemma2_to64();
        lemma2_to64_rest();
    }
    let excess: i32 = len as i32 + e - 53;
    let s: i32 = if excess > 0 {
        excess
    } else {
        0
    };
    if s <= e {
        // The significand fits: the value is met exactly.
        let shift = (e - s) as u32;
        proof {
            if inexact {
                if len < 55 {
                    if len < 54 {
                        lemma_pow2_strictly_increases(len as nat, 54);
                    }
                }
            }
            assert(!inexact);
        }
        let p = power_of_two(shift);
        proof {
            let a = pow2(len as nat);
            lemma_pow2_adds(len as nat, shift as nat);
            lemma_pow2_adds((len - 1) as nat, shift as nat);
            if len + shift < 53 {
                lemma_pow2_strictly_increases((len + shift) as nat, 53);
            }
            assert(m * p < pow2((len + shift) as nat)) by (nonlinear_arith)
                requires
                    m < a,
                    p > 0,
                    pow2((len + shift) as nat) == a * p,
            ;
            let b = pow2((len - 1) as nat);
            assert(pow2((len - 1 + shift) as nat) <= m * p) by (nonlinear_arith)
                requires
                    b <= m,
                    p > 0,
                    pow2((len - 1 + shift) as nat) == b * p,
            ;
        }
        let q = (m * p) as u64;
        proof {
            let sn = s as nat;
            let step = pow2((6000 + e) as nat);
            let scale = pow2(6000);
            let coarse = pow2(sn);
            lemma_pow2_adds(6000, e as nat);
            lemma_pow2_adds(sn, shift as nat);
            lemma_units_pack(sn, q as nat);
            let g = pow2(e as nat);
            assert(num == den * (q * coarse)) by (nonlinear_arith)
                requires
                    den * (m * step) == num * scale,
                    step == scale * g,
                    g == coarse * p,
                    q == m * p,
                    scale > 0,
            ;
        }
        let n: u64 = s as u64 * FRACTION + q;
        if n >= INFINITY_BITS {
            proof {
                if n > INFINITY_BITS {
                    lemma_units_ordered(INFINITY_BITS as nat, n as nat);
                }
                let i = units(INFINITY_BITS as nat);
                let u = units(n as nat);
                assert(den * i <= den * u) by (nonlinear_arith)
                    requires
                        i <= u,
                        den > 0,
                ;
                lemma_nearest_overflow(num, den);
                lemma_rounded(INFINITY_BITS as nat, num, den);
            }
            return INFINITY_BITS;
        }
        proof {
            lemma_nearest_exact(n as nat, num, den);
            lemma_rounded(n as nat, num, den);
        }
        return n;
    }
    let shift = (s - e) as u32;
    if shift >= 125 {
        // Less than half a unit.
        proof {
            assert(s == 0);
            let step = pow2((6000 + e) as nat);
            let scale = pow2(6000);
            let p = pow2(shift as nat);
            lemma_pow2_adds((6000 + e) as nat, shift as nat);
            assert((6000 + e) as nat + shift as nat == 6000);
            let h = pow2(124);
            if shift > 125 {
                lemma_pow2_strictly_increases(125, shift as nat);
            }
            lemma_pow2_unfold(125);
            assert(den * ((m + 1) * step) <= den * (h * step)) by (nonlinear_arith)
                requires
                    m + 1 <= h,
                    den > 0,
                    step > 0,
            ;
            assert(2 * (den * (h * step)) <= den * (p * step)) by (nonlinear_arith)
                requires
                    2 * h <= p,
                    den > 0,
                    step > 0,
            ;
            assert(2 * num < den) by (nonlinear_arith)
                requires
                    2 * (num * scale) < den * (p * step),
                    step * p == scale,
                    scale > 0,
            ;
            assert(units(0) == 0 && units(1) == 1);
            assert(den * (units(0) + units(1)) == den) by (nonlinear_arith)
                requires
                    units(0) == 0,
                    units(1) == 1,
            ;
            assert(nearest(0, num, den));
            lemma_rounded(0, num, den);
        }
        return 0;
    }
    let (q, rem) = split_at(m, shift);
    let half = power_of_two(shift - 1);
    proof {
        let sn = s as nat;
        let step = pow2((6000 + e) as nat);
        let scale = pow2(6000);
        let coarse = pow2(sn);
        let wide = pow2(shift as nat);
        lemma_pow2_unfold(shift as nat);
        lemma_pow2_pos(sn);
        lemma_pow2_adds((6000 + e) as nat, shift as nat);
        lemma_pow2_adds(6000, sn);
        assert((6000 + e) as nat + shift as nat == 6000 + sn);
        assert(step * (2 * half) == coarse * scale) by (nonlinear_arith)
            requires
                step * wide == scale * coarse,
                wide == 2 * half,
        ;
        lemma_coarser(
            m as int,
            q as int,
            rem as int,
            half as int,
            step as int,
            coarse as int,
            scale as int,
            num as int,
            den as int,
        );
        // The quotient has at most 53 digits, and exactly that many above the lowest step.
        let a = pow2(len as nat);
        let b = pow2((len - 1) as nat);
        if len <= shift + 53 {
            lemma_pow2_adds(53, shift as nat);
            if len < shift + 53 {
                lemma_pow2_strictly_increases(len as nat, (shift + 53) as nat);
            }
            assert(q < 0x0020_0000_0000_0000) by (nonlinear_arith)
                requires
                    m == q * wide + rem,
                    rem >= 0,
                    m < 0x0020_0000_0000_0000 * wide,
                    wide > 0,
            ;
        }
        if s > 0 {
            assert(len == shift + 53);
            lemma_pow2_adds(52, shift as nat);
            assert(q >= 0x0010_0000_0000_0000) by (nonlinear_arith)
                requires
                    m == q * wide + rem,
                    rem < wide,
                    0x0010_0000_0000_0000 * wide <= m,
                    wide > 0,
            ;
        }
        lemma_units_pack(sn, q as nat);
        lemma_units_pack(sn, (q + 1) as nat);
    }
    let n: u64 = s as u64 * FRACTION + q as u64;
    if n >= INFINITY_BITS {
        proof {
            if n > INFINITY_BITS {
                lemma_units_ordered(INFINITY_BITS as nat, n as nat);
            }
            let i = units(INFINITY_BITS as nat);
            let u = units(n as nat);
            assert(den * i <= den * u) by (nonlinear_arith)
                requires
                    i <= u,
                    den > 0,
            ;
            lemma_nearest_overflow(num, den);
            lemma_rounded(INFINITY_BITS as nat, num, den);
        }
        return INFINITY_BITS;
    }
    let up = rem > half || (rem == half && (inexact || n % 2 == 1));
    proof {
        lemma_nearest_between(n as nat, num, den, up);
        lemma_rounded(
            if up {
                (n + 1) as nat
            } else {
                n as nat
            },
            num,
            den,
        );
    }
    if up {
        n + 1
    } else {
        n
    }
}

/// The significand and the exponent step of a magnitude.
fn parts(n: u64) -> (r: (u64, u32))
    requires
        n < INFINITY_BITS,
    ensures
        units(n as nat) == r.0 * pow2(r.1 as nat),
        r.0 < 0x0020_0000_0000_0000,
        r.1 <= 2045,
        r.1 > 0 ==> r.0 >= 0x0010_0000_0000_0000,
        r.0 == 0 <==> n == 0,
{
    let exponent = n / FRACTION;
    let fraction = n % FRACTION;
    if exponent == 0 {
        proof {
            lemma2_to64();
        }
        (fraction, 0)
    } else {
        (FRACTION + fraction, (exponent - 1) as u32)
    }
}

/// A value that lies a whole number of steps up.
proof fn lemma_counted_whole(m: nat, e: nat, inexact: bool, num: nat)
    requires
        m * pow2(e) <= num < (m + 1) * pow2(e),
        inexact <==> m * pow2(e) < num,
    ensures
        counted(m, e as int, inexact, num, 1),
{
    let g = pow2(e);
    let scale = pow2(6000);
    lemma_pow2_pos(6000);
    lemma_pow2_adds(6000, e);
    let step = pow2(6000 + e);
    assert(m * step == (m * g) * scale) by (nonlinear_arith)
        requires
            step == scale * g,
    ;
    assert((m + 1) * step == ((m + 1) * g) * scale) by (nonlinear_arith)
        requires
            step == scale * g,
    ;
    let low = m * g;
    let high = (m + 1) * g;
    assert(low * scale <= num * scale < high * scale) by (nonlinear_arith)
        requires
            low <= num < high,
            scale > 0,
    ;
    assert(low < num ==> low * scale < num * scale) by (nonlinear_arith)
        requires
            scale > 0,
    ;
}

/// The magnitude of the sum, or of the difference, of two magnitudes, the second of which has the
/// smaller exponent step; and whether the difference is below zero.
fn combine(m1: u64, e1: u32, m2: u64, e2: u32, subtract: bool) -> (r: (u64, bool))
    requires
        m1 < 0x0020_0000_0000_0000,
        m2 < 0x0020_0000_0000_0000,
        e2 <= e1 <= 2045,
        e1 > 0 ==> m1 >= 0x0010_0000_0000_0000,
    ensures
        ({
            let k1 = (m1 * pow2(e1 as nat)) as int;
            let k2 = (m2 * pow2(e2 as nat)) as int;
            let exact = if subtract {
                k1 - k2
            } else {
                k1 + k2
            };
            &&& r.1 == (exact < 0)
            &&& r.0 == rounded(
                if exact < 0 {
                    -exact
                } else {
                    exact
                } as nat,
                1,
            )
            &&& nearest(
                r.0 as nat,
                if exact < 0 {
                    -exact
                } else {
                    exact
                } as nat,
                1,
            )
        }),
{
    let d: u32 = e1 - e2;
    let ghost k1: int = m1 * pow2(e1 as nat);
    let ghost k2: int = m2 * pow2(e2 as nat);
    proof {
        lemma2_to64();
        lemma2_to64_rest();
        lemma_pow2_pos(e1 as nat);
        lemma_pow2_pos(e2 as nat);
        lemma_pow2_adds(e2 as nat, d as nat);
        assert(k1 >= 0) by (nonlinear_arith)
            requires
                k1 == m1 * pow2(e1 as nat),
                m1 >= 0,
                pow2(e1 as nat) > 0,
        ;
        assert(k2 >= 0) by (nonlinear_arith)
            requires
                k2 == m2 * pow2(e2 as nat),
                m2 >= 0,
                pow2(e2 as nat) > 0,
        ;
    }
    if d <= 70 {
        let p = power_of_two(d);
        let ghost g = pow2(e2 as nat);
        proof {
            lemma_pow2_adds(53, d as nat);
            lemma_pow2_adds(53, 70);
            if d < 70 {
                lemma_pow2_strictly_increases(d as nat, 70);
            }
            lemma_pow2_unfold(124);
            assert(m1 * p <= 0x0020_0000_0000_0000 * pow2(70)) by (nonlinear_arith)
                requires
                    m1 <= 0x0020_0000_0000_0000,
                    p <= pow2(70),
                    p > 0,
                    m1 >= 0,
            ;
            assert(pow2(123) == 0x0020_0000_0000_0000 * pow2(70));
            assert(pow2(123) < 0x0fff_ffff_ffff_ffff_ffff_ffff_ffff_ffff && pow2(123)
                >= 0x0040_0000_0000_0000) by {
                lemma_pow2_adds(64, 59);
                lemma_pow2_adds(32, 27);
            }
            assert(k1 == (m1 * p) * g) by (nonlinear_arith)
                requires
                    k1 == m1 * pow2(e1 as nat),
                    pow2(e1 as nat) == g * p,
            ;
        }
        let wide: u128 = m1 as u128 * p;
        let small: u128 = m2 as u128;
        let below = subtract && wide < small;
        let m: u128 = if !subtract {
            wide + small
        } else if below {
            small - wide
        } else {
            wide - small
        };
        let ghost exact: int = if subtract {
            k1 - k2
        } else {
            k1 + k2
        };
        let ghost size: nat = if below {
            -exact
        } else {
            exact
        } as nat;
        proof {
            assert((wide + small) * g == wide * g + small * g) by (nonlinear_arith);
            assert((wide - small) * g == wide * g - small * g) by (nonlinear_arith);
            assert((small - wide) * g == small * g - wide * g) by (nonlinear_arith);
            assert(below ==> wide * g < small * g) by (nonlinear_arith)
                requires
                    below ==> wide < small,
                    g > 0,
            ;
            assert(wide >= small ==> wide * g >= small * g) by (nonlinear_arith)
                requires
                    g > 0,
            ;
            assert(size == m * g);
            assert((m + 1) * g == m * g + g) by (nonlinear_arith);
            lemma_counted_whole(m as nat, e2 as nat, false, size);
        }
        let n = round_counted(m, e2 as i32, false, Ghost(size), Ghost(1nat));
        (n, below)
    } else {
        let t: u32 = d - 70;
        let ghost full = pow2(t as nat);
        proof {
            lemma_pow2_pos(t as nat);
        }
        let (high, low): (u128, u128) = if t < 60 {
            split_at(m2 as u128, t)
        } else {
            proof {
                if t > 60 {
                    lemma_pow2_strictly_increases(60, t as nat);
                }
                assert(0 * full == 0) by (nonlinear_arith);
            }
            (0, m2 as u128)
        };
        let p = power_of_two(70);
        let ghost g = pow2(e2 as nat);
        let ghost step = pow2((e2 + t) as nat);
        proof {
            lemma_pow2_adds(53, 70);
            lemma_pow2_adds(52, 70);
            lemma_pow2_unfold(124);
            assert(pow2(123) < 0x0fff_ffff_ffff_ffff_ffff_ffff_ffff_ffff && pow2(122)
                > 0x0080_0000_0000_0000) by {
                lemma_pow2_adds(64, 59);
                lemma_pow2_adds(32, 27);
                lemma_pow2_adds(64, 58);
                lemma_pow2_adds(32, 26);
            }
            assert(m1 * p < 0x0020_0000_0000_0000 * p) by (nonlinear_arith)
                requires
                    m1 < 0x0020_0000_0000_0000,
                    p > 0,
            ;
            assert(m1 * p >= 0x0010_0000_0000_0000 * p) by (nonlinear_arith)
                requires
                    m1 >= 0x0010_0000_0000_0000,
                    p > 0,
            ;
            assert(high <= m2) by (nonlinear_arith)
                requires
                    m2 == high * full + low,
                    full > 0,
                    low >= 0,
                    high >= 0,
            ;
            lemma_pow2_adds(e2 as nat, t as nat);
            lemma_pow2_adds((e2 + t) as nat, 70);
            assert((e2 + t) as nat + 70 == e1 as nat);
            assert(k1 == (m1 * p) * step) by (nonlinear_arith)
                requires
                    k1 == m1 * pow2(e1 as nat),
                    pow2(e1 as nat) == step * p,
            ;
            assert(k2 == high * step + low * g) by (nonlinear_arith)
                requires
                    k2 == m2 * g,
                    m2 == high * full + low,
                    step == g * full,
            ;
            assert(0 <= low * g < step) by (nonlinear_arith)
                requires
                    0 <= low < full,
                    g > 0,
                    step == g * full,
            ;
            assert(low > 0 ==> low * g > 0) by (nonlinear_arith)
                requires
                    g > 0,
            ;
            assert(low == 0 ==> low * g == 0) by (nonlinear_arith);
        }
        let wide: u128 = m1 as u128 * p;
        let inexact = low != 0;
        let m: u128 = if !subtract {
            wide + high
        } else if inexact {
            wide - high - 1
        } else {
            wide - high
        };
        let ghost exact: int = if subtract {
            k1 - k2
        } else {
            k1 + k2
        };
        proof {
            assert((wide + high) * step == wide * step + high * step) by (nonlinear_arith);
            assert((wide - high) * step == wide * step - high * step) by (nonlinear_arith);
            assert((wide - high - 1) * step == wide * step - high * step - step)
                by (nonlinear_arith);
            assert((m + 1) * step == m * step + step) by (nonlinear_arith);
            assert(m * step >= 0) by (nonlinear_arith)
                requires
                    m >= 0,
                    step > 0,
            ;
            lemma_counted_whole(m as nat, (e2 + t) as nat, inexact, exact as nat);
        }
        let n = round_counted(m, (e2 + t) as i32, inexact, Ghost(exact as nat), Ghost(1nat));
        (n, false)
    }
}

// ---------------------------------------------------------------------------------------------
// Numbers
// ---------------------------------------------------------------------------------------------

/// A binary floating-point number, by its bit pattern.
#[derive(Clone, Copy, Debug, PartialEq, Eq, Structural)]
pub struct Float64 {
    pub bits: u64,
}

/// The number with a sign and a magnitude.
pub open spec fn signed(negative: bool, magnitude: nat) -> Float64 {
    Float64 {
        bits: if negative {
            (SIGN_BIT + magnitude) as u64
        } else {
            magnitude as u64
        },
    }
}

/// What the operations return where there is no result.
pub open spec fn not_a_number() -> Float64 {
    Float64 { bits: NAN_BITS }
}

impl Float64 {
    /// Whether the sign bit is set.
    pub open spec fn negative(self) -> bool {
        self.bits >= SIGN_BIT
    }

    /// The pattern without the sign bit.
    pub open spec fn magnitude(self) -> nat {
        if self.negative() {
            (self.bits - SIGN_BIT) as nat
        } else {
            self.bits as nat
        }
    }

    /// Whether the pattern stands for no number.
    pub open spec fn nan(self) -> bool {
        self.magnitude() > INFINITY_BITS
    }

    /// Whether the pattern stands for an infinity.
    pub open spec fn infinite(self) -> bool {
        self.magnitude() == INFINITY_BITS
    }

    /// The number in units of 2^-1074.
    pub open spec fn value(self) -> int {
        if self.negative() {
            -units(self.magnitude())
        } else {
            units(self.magnitude()) as int
        }
    }

    /// Whether the number is below `other`; never so of a pattern that is no number.
    pub open spec fn below(self, other: Float64) -> bool {
        !self.nan() && !other.nan() && self.value() < other.value()
    }

    /// Whether the number is at most `other`; never so of a pattern that is no number.
    pub open spec fn at_most(self, other: Float64) -> bool {
        !self.nan() && !other.nan() && self.value() <= other.value()
    }

    /// Whether the two are one number; zero has two patterns.
    pub open spec fn same_number(self, other: Float64) -> bool {
        !self.nan() && !other.nan() && self.value() == other.value()
    }

    /// The number with the other sign.
    pub open spec fn negated(self) -> Float64 {
        signed(!self.negative(), self.magnitude())
    }

    /// The number without its sign.
    pub open spec fn absolute(self) -> Float64 {
        signed(false, self.magnitude())
    }
}

/// The sum of two numbers.
#[verifier::opaque]
pub open spec fn sum(a: Float64, b: Float64) -> Float64 {
    if a.nan() || b.nan() {
        not_a_number()
    } else if a.infinite() {
        if b.infinite() && a.negative() != b.negative() {
            not_a_number()
        } else {
            a
        }
    } else if b.infinite() {
        b
    } else {
        let exact = a.value() + b.value();
        if exact == 0 {
            signed(a.negative() && b.negative(), 0)
        } else if exact < 0 {
            signed(true, rounded(-exact as nat, 1))
        } else {
            signed(false, rounded(exact as nat, 1))
        }
    }
}

/// The difference of two numbers.
pub open spec fn difference(a: Float64, b: Float64) -> Float64 {
    sum(a, b.negated())
}

/// The product of two numbers.
#[verifier::opaque]
pub open spec fn product(a: Float64, b: Float64) -> Float64 {
    let negative = a.negative() != b.negative();
    if a.nan() || b.nan() || (a.infinite() && b.magnitude() == 0) || (b.infinite()
        && a.magnitude() == 0) {
        not_a_number()
    } else if a.infinite() || b.infinite() {
        signed(negative, INFINITY_BITS as nat)
    } else {
        signed(negative, rounded(units(a.magnitude()) * units(b.magnitude()), unity()))
    }
}

/// The quotient of two numbers.
#[verifier::opaque]
pub open spec fn quotient(a: Float64, b: Float64) -> Float64 {
    let negative = a.negative() != b.negative();
    if a.nan() || b.nan() || (a.infinite() && b.infinite()) || (a.magnitude() == 0
        && b.magnitude() == 0) {
        not_a_number()
    } else if a.infinite() || b.magnitude() == 0 {
        signed(negative, INFINITY_BITS as nat)
    } else if b.infinite() {
        signed(negative, 0)
    } else {
        signed(negative, rounded(units(a.magnitude()) * unity(), units(b.magnitude())))
    }
}

/// The square root of a number.
#[verifier::opaque]
pub open spec fn root(a: Float64) -> Float64 {
    if a.nan() || (a.negative() && a.magnitude() > 0) {
        not_a_number()
    } else if a.magnitude() == 0 || a.infinite() {
        a
    } else {
        signed(false, rounded_root(units(a.magnitude()) * unity()))
    }
}

/// The smaller of two numbers, or the one that is a number.
pub open spec fn least(a: Float64, b: Float64) -> Float64 {
    if a.nan() || b.below(a) {
        b
    } else {
        a
    }
}

/// The larger of two numbers, or the one that is a number.
pub open spec fn greatest(a: Float64, b: Float64) -> Float64 {
    if a.nan() || a.below(b) {
        b
    } else {
        a
    }
}

/// The number that counts `n` things.
#[verifier::opaque]
pub open spec fn count(n: nat) -> Float64 {
    signed(false, rounded(n * unity(), 1))
}

impl Float64 {
    fn split(self) -> (r: (bool, u64))
        ensures
            r.0 == self.negative(),
            r.1 == self.magnitude(),
            r.1 < SIGN_BIT,
    {
        if self.bits >= SIGN_BIT {
            (true, self.bits - SIGN_BIT)
        } else {
            (false, self.bits)
        }
    }

    fn joined(negative: bool, magnitude: u64) -> (r: Float64)
        requires
            magnitude < SIGN_BIT,
        ensures
            r == signed(negative, magnitude as nat),
            r.negative() == negative,
            r.magnitude() == magnitude,
    {
        if negative {
            Float64 { bits: SIGN_BIT + magnitude }
        } else {
            Float64 { bits: magnitude }
        }
    }

    /// What `is_nan` returns.
    pub open spec fn spec_is_nan(self) -> bool {
        self.nan()
    }

    /// Whether the pattern stands for no number.
    #[verifier::when_used_as_spec(spec_is_nan)]
    pub fn is_nan(self) -> (r: bool)
        ensures
            r == self.nan(),
    {
        self.split().1 > INFINITY_BITS
    }

    /// What `neg` returns.
    pub open spec fn spec_neg(self) -> Float64 {
        self.negated()
    }

    /// The number with the other sign.
    #[verifier::when_used_as_spec(spec_neg)]
    pub fn neg(self) -> (r: Float64)
        ensures
            r == self.negated(),
    {
        let (negative, magnitude) = self.split();
        Float64::joined(!negative, magnitude)
    }

    /// What `abs` returns.
    pub open spec fn spec_abs(self) -> Float64 {
        self.absolute()
    }

    /// The number without its sign.
    #[verifier::when_used_as_spec(spec_abs)]
    pub fn abs(self) -> (r: Float64)
        ensures
            r == self.absolute(),
    {
        Float64::joined(false, self.split().1)
    }

    /// What `lt` returns.
    pub open spec fn spec_lt(self, other: Float64) -> bool {
        self.below(other)
    }

    /// Whether the number is below `other`.
    #[verifier::when_used_as_spec(spec_lt)]
    pub fn lt(self, other: Float64) -> (r: bool)
        ensures
            r == self.below(other),
    {
        let (n1, m1) = self.split();
        let (n2, m2) = other.split();
        proof {
            assert(units(0) == 0);
            if m1 < m2 {
                lemma_units_ordered(m1 as nat, m2 as nat);
            } else if m2 < m1 {
                lemma_units_ordered(m2 as nat, m1 as nat);
            }
            if m1 > 0 {
                lemma_units_ordered(0, m1 as nat);
            }
            if m2 > 0 {
                lemma_units_ordered(0, m2 as nat);
            }
        }
        if m1 > INFINITY_BITS || m2 > INFINITY_BITS {
            false
        } else if n1 {
            if n2 {
                m2 < m1
            } else {
                m1 != 0 || m2 != 0
            }
        } else {
            !n2 && m1 < m2
        }
    }

    /// What `le` returns.
    pub open spec fn spec_le(self, other: Float64) -> bool {
        self.at_most(other)
    }

    /// Whether the number is at most `other`.
    #[verifier::when_used_as_spec(spec_le)]
    pub fn le(self, other: Float64) -> (r: bool)
        ensures
            r == self.at_most(other),
    {
        !self.is_nan() && !other.is_nan() && !other.lt(self)
    }

    /// What `equals` returns.
    pub open spec fn spec_equals(self, other: Float64) -> bool {
        self.same_number(other)
    }

    /// Whether the two are one number.
    #[verifier::when_used_as_spec(spec_equals)]
    pub fn equals(self, other: Float64) -> (r: bool)
        ensures
            r == self.same_number(other),
    {
        self.le(other) && other.le(self)
    }

    /// What `min` returns.
    pub open spec fn spec_min(self, other: Float64) -> Float64 {
        least(self, other)
    }

    /// The smaller of two numbers, or the one that is a number.
    #[verifier::when_used_as_spec(spec_min)]
    pub fn min(self, other: Float64) -> (r: Float64)
        ensures
            r == least(self, other),
    {
        if self.is_nan() || other.lt(self) {
            other
        } else {
            self
        }
    }

    /// What `max` returns.
    pub open spec fn spec_max(self, other: Float64) -> Float64 {
        greatest(self, other)
    }

    /// The larger of two numbers, or the one that is a number.
    #[verifier::when_used_as_spec(spec_max)]
    pub fn max(self, other: Float64) -> (r: Float64)
        ensures
            r == greatest(self, other),
    {
        if self.is_nan() || self.lt(other) {
            other
        } else {
            self
        }
    }

    /// What `plus` returns.
    pub open spec fn spec_plus(self, other: Float64) -> Float64 {
        sum(self, other)
    }

    /// The sum of two numbers.
    #[verifier::when_used_as_spec(spec_plus)]
    pub fn plus(self, other: Float64) -> (r: Float64)
        ensures
            r == sum(self, other),
    {
        proof {
            reveal(sum);
        }
        let (n1, m1) = self.split();
        let (n2, m2) = other.split();
        if m1 > INFINITY_BITS || m2 > INFINITY_BITS {
            return Float64 { bits: NAN_BITS };
        }
        if m1 == INFINITY_BITS {
            if m2 == INFINITY_BITS && n1 != n2 {
                return Float64 { bits: NAN_BITS };
            }
            return self;
        }
        if m2 == INFINITY_BITS {
            return other;
        }
        let (s1, e1) = parts(m1);
        let (s2, e2) = parts(m2);
        let ghost exact = self.value() + other.value();
        let ghost size = if exact < 0 {
            -exact
        } else {
            exact
        } as nat;
        let (n, negative): (u64, bool) = if e1 >= e2 {
            let (n, below) = combine(s1, e1, s2, e2, n1 != n2);
            (n, n1 != below)
        } else {
            let (n, below) = combine(s2, e2, s1, e1, n1 != n2);
            (n, n2 != below)
        };
        proof {
            assert(n == rounded(size, 1) && nearest(n as nat, size, 1));
            if exact == 0 {
                assert(units(0) == 0);
                lemma_nearest_exact(0, 0, 1);
                lemma_rounded(0, 0, 1);
            }
        }
        if n == 0 {
            proof {
                if exact != 0 {
                    lemma_units_step(0);
                    assert(units(1) == 1);
                    assert(1 * (units(0) + units(0 + 1)) == 1);
                }
            }
            Float64::joined(n1 && n2, 0)
        } else {
            Float64::joined(negative, n)
        }
    }

    /// What `minus` returns.
    pub open spec fn spec_minus(self, other: Float64) -> Float64 {
        difference(self, other)
    }

    /// The difference of two numbers.
    #[verifier::when_used_as_spec(spec_minus)]
    pub fn minus(self, other: Float64) -> (r: Float64)
        ensures
            r == difference(self, other),
    {
        self.plus(other.neg())
    }
}

proof fn lemma_counted_product(m1: nat, e1: nat, m2: nat, e2: nat)
    requires
        e1 <= 2045,
        e2 <= 2045,
    ensures
        counted(
            m1 * m2,
            e1 + e2 - 1074,
            false,
            (m1 * pow2(e1)) * (m2 * pow2(e2)),
            unity(),
        ),
{
    let g1 = pow2(e1);
    let g2 = pow2(e2);
    let one = unity();
    let scale = pow2(6000);
    let step = pow2((6000 + (e1 + e2 - 1074)) as nat);
    let m = m1 * m2;
    let num = (m1 * g1) * (m2 * g2);
    lemma_pow2_pos(1074);
    lemma_pow2_pos((6000 + (e1 + e2 - 1074)) as nat);
    lemma_pow2_adds(e1, e2);
    lemma_pow2_adds(6000, e1 + e2);
    lemma_pow2_adds(1074, (6000 + (e1 + e2 - 1074)) as nat);
    assert(1074 + (6000 + (e1 + e2 - 1074)) as nat == 6000 + (e1 + e2));
    assert(one * (m * step) == num * scale) by (nonlinear_arith)
        requires
            one * step == scale * (g1 * g2),
            m == m1 * m2,
            num == (m1 * g1) * (m2 * g2),
    ;
    assert(one * ((m + 1) * step) == one * (m * step) + one * step) by (nonlinear_arith);
    assert(one * step > 0) by (nonlinear_arith)
        requires
            one > 0,
            step > 0,
    ;
}

proof fn lemma_counted_quotient(m1: nat, e1: nat, m2: nat, e2: nat, c: nat, q: nat, r: nat)
    requires
        e1 <= 2045,
        e2 <= 2045,
        c <= 53,
        m2 > 0,
        (m1 * pow2(c)) * pow2(70) == q * m2 + r,
        r < m2,
    ensures
        counted(
            q,
            e1 - e2 + 1004 - c,
            r != 0,
            (m1 * pow2(e1)) * unity(),
            m2 * pow2(e2),
        ),
{
    let g1 = pow2(e1);
    let g2 = pow2(e2);
    let gc = pow2(c);
    let g70 = pow2(70);
    let one = unity();
    let scale = pow2(6000);
    let e = e1 - e2 + 1004 - c;
    let step = pow2((6000 + e) as nat);
    let num = (m1 * g1) * one;
    let den = m2 * g2;
    let w = pow2((7004 + e1 - c) as nat);
    lemma_pow2_pos((7004 + e1 - c) as nat);
    lemma_pow2_adds(e2, (6000 + e) as nat);
    assert(e2 + (6000 + e) as nat == (7004 + e1 - c) as nat);
    // num * scale == m1 * 2^(c + 70) * w
    lemma_pow2_adds(c, 70);
    lemma_pow2_adds(c + 70, (7004 + e1 - c) as nat);
    lemma_pow2_adds(e1, 1074);
    lemma_pow2_adds(e1 + 1074, 6000);
    assert(c + 70 + (7004 + e1 - c) as nat == e1 + 1074 + 6000);
    let total = q * m2 + r;
    assert(num * scale == total * w) by (nonlinear_arith)
        requires
            num == (m1 * g1) * one,
            total == (m1 * gc) * g70,
            (gc * g70) * w == (g1 * one) * scale,
    ;
    assert(den * (q * step) == (q * m2) * w) by (nonlinear_arith)
        requires
            den == m2 * g2,
            g2 * step == w,
    ;
    assert(den * ((q + 1) * step) == (q * m2 + m2) * w) by (nonlinear_arith)
        requires
            den == m2 * g2,
            g2 * step == w,
    ;
    let low = q * m2;
    let high = q * m2 + m2;
    assert(low * w <= total * w < high * w) by (nonlinear_arith)
        requires
            low <= total < high,
            w > 0,
    ;
    assert(low < total ==> low * w < total * w) by (nonlinear_arith)
        requires
            w > 0,
    ;
}

impl Float64 {
    /// What `times` returns.
    pub open spec fn spec_times(self, other: Float64) -> Float64 {
        product(self, other)
    }

    /// The product of two numbers.
    #[verifier::when_used_as_spec(spec_times)]
    pub fn times(self, other: Float64) -> (r: Float64)
        ensures
            r == product(self, other),
    {
        proof {
            reveal(product);
        }
        let (n1, m1) = self.split();
        let (n2, m2) = other.split();
        if m1 > INFINITY_BITS || m2 > INFINITY_BITS || (m1 == INFINITY_BITS && m2 == 0) || (m2
            == INFINITY_BITS && m1 == 0) {
            return Float64 { bits: NAN_BITS };
        }
        if m1 == INFINITY_BITS || m2 == INFINITY_BITS {
            return Float64::joined(n1 != n2, INFINITY_BITS);
        }
        let (s1, e1) = parts(m1);
        let (s2, e2) = parts(m2);
        proof {
            lemma2_to64_rest();
            lemma_pow2_adds(53, 53);
            lemma_pow2_strictly_increases(106, 124);
            lemma_pow2_pos(1074);
            assert(s1 * s2 < 0x0020_0000_0000_0000 * 0x0020_0000_0000_0000) by (nonlinear_arith)
                requires
                    0 <= s1 < 0x0020_0000_0000_0000,
                    0 <= s2 < 0x0020_0000_0000_0000,
            ;
            lemma_counted_product(s1 as nat, e1 as nat, s2 as nat, e2 as nat);
        }
        let n = round_counted(
            s1 as u128 * s2 as u128,
            e1 as i32 + e2 as i32 - 1074,
            false,
            Ghost(units(m1 as nat) * units(m2 as nat)),
            Ghost(unity()),
        );
        Float64::joined(n1 != n2, n)
    }

    /// What `over` returns.
    pub open spec fn spec_over(self, other: Float64) -> Float64 {
        quotient(self, other)
    }

    /// The quotient of two numbers.
    #[verifier::when_used_as_spec(spec_over)]
    pub fn over(self, other: Float64) -> (r: Float64)
        ensures
            r == quotient(self, other),
    {
        proof {
            reveal(quotient);
        }
        let (n1, m1) = self.split();
        let (n2, m2) = other.split();
        if m1 > INFINITY_BITS || m2 > INFINITY_BITS || (m1 == INFINITY_BITS && m2
            == INFINITY_BITS) || (m1 == 0 && m2 == 0) {
            return Float64 { bits: NAN_BITS };
        }
        if m1 == INFINITY_BITS || m2 == 0 {
            return Float64::joined(n1 != n2, INFINITY_BITS);
        }
        if m2 == INFINITY_BITS {
            return Float64::joined(n1 != n2, 0);
        }
        let (s1, e1) = parts(m1);
        let (s2, e2) = parts(m2);
        let ghost num = units(m1 as nat) * unity();
        let ghost den = units(m2 as nat);
        proof {
            lemma_units_ordered(0, m2 as nat);
        }
        if m1 == 0 {
            proof {
                assert(units(0) == 0);
                assert(0 * unity() == 0) by (nonlinear_arith);
                assert(den * 0 == 0) by (nonlinear_arith);
                lemma_nearest_exact(0, 0, den);
                lemma_rounded(0, 0, den);
            }
            return Float64::joined(n1 != n2, 0);
        }
        let len = digits_64(s1);
        proof {
            lemma2_to64();
            lemma2_to64_rest();
            if len > 53 {
                if len > 54 {
                    lemma_pow2_strictly_increases(53, (len - 1) as nat);
                }
            }
        }
        let c: u32 = 53 - len;
        let lift = power_of_two(c);
        let wide = power_of_two(70);
        proof {
            lemma_pow2_adds(len as nat, c as nat);
            lemma_pow2_adds((len - 1) as nat, c as nat);
            lemma_pow2_adds(53, 70);
            lemma_pow2_adds(52, 70);
            lemma_pow2_unfold(124);
            let a = pow2(len as nat);
            let b = pow2((len - 1) as nat);
            assert(s1 * lift < a * lift) by (nonlinear_arith)
                requires
                    s1 < a,
                    lift > 0,
            ;
            assert(s1 * lift >= b * lift) by (nonlinear_arith)
                requires
                    s1 >= b,
                    lift > 0,
            ;
            assert(pow2(123) < 0x0fff_ffff_ffff_ffff_ffff_ffff_ffff_ffff) by {
                lemma_pow2_adds(64, 59);
                lemma_pow2_adds(32, 27);
            }
            let x = s1 * lift;
            assert(x * wide < 0x0020_0000_0000_0000 * wide) by (nonlinear_arith)
                requires
                    x < 0x0020_0000_0000_0000,
                    wide > 0,
            ;
            assert(x * wide >= 0x0010_0000_0000_0000 * wide) by (nonlinear_arith)
                requires
                    x >= 0x0010_0000_0000_0000,
                    wide > 0,
            ;
        }
        let top: u128 = s1 as u128 * lift * wide;
        let q: u128 = top / (s2 as u128);
        let r: u128 = top % (s2 as u128);
        proof {
            vstd::arithmetic::div_mod::lemma_fundamental_div_mod(top as int, s2 as int);
            assert(s2 * q == q * s2) by (nonlinear_arith);
            assert(q <= top) by (nonlinear_arith)
                requires
                    top == q * s2 + r,
                    s2 >= 1,
                    r >= 0,
                    q >= 0,
            ;
            // At least 2^122 over less than 2^53.
            lemma_pow2_adds(53, 17);
            assert(q >= 0x0040_0000_0000_0000) by (nonlinear_arith)
                requires
                    top == q * s2 + r,
                    top >= 0x0010_0000_0000_0000 * wide,
                    wide == 0x0020_0000_0000_0000 * 0x2_0000,
                    0 <= r < s2,
                    s2 < 0x0020_0000_0000_0000,
                    q >= 0,
            ;
            lemma_counted_quotient(
                s1 as nat,
                e1 as nat,
                s2 as nat,
                e2 as nat,
                c as nat,
                q as nat,
                r as nat,
            );
        }
        let n = round_counted(
            q,
            e1 as i32 - e2 as i32 + 1004 - c as i32,
            r != 0,
            Ghost(num),
            Ghost(den),
        );
        Float64::joined(n1 != n2, n)
    }

    /// What `from_count` returns.
    pub open spec fn spec_from_count(n: u64) -> Float64 {
        count(n as nat)
    }

    /// The number that counts `n` things.
    #[verifier::when_used_as_spec(spec_from_count)]
    pub fn from_count(n: u64) -> (r: Float64)
        ensures
            r == count(n as nat),
    {
        proof {
            reveal(count);
        }
        proof {
            lemma2_to64();
            lemma_pow2_strictly_increases(64, 124);
            lemma_pow2_pos(1074);
            assert((n + 1) * unity() == n * unity() + unity()) by (nonlinear_arith);
            lemma_counted_whole(n as nat, 1074, false, n as nat * unity());
        }
        let m = round_counted(n as u128, 1074, false, Ghost(n as nat * unity()), Ghost(1nat));
        Float64::joined(false, m)
    }
}

/// A square between those of two neighbours has a root that is rounded to one of them, by its
/// side of their midpoint.
pub proof fn lemma_root_between(n: nat, square: nat, up: bool)
    requires
        0 < n,
        n + 1 < INFINITY_BITS,
        units(n) * units(n) <= square < units(n + 1) * units(n + 1),
        ({
            let mid = units(n) + units(n + 1);
            if up {
                mid * mid < 4 * square || (mid * mid == 4 * square && n % 2 == 1)
            } else {
                4 * square < mid * mid || (4 * square == mid * mid && n % 2 == 0)
            }
        }),
    ensures
        nearest_root(
            if up {
                n + 1
            } else {
                n
            },
            square,
        ),
{
    let l = units((n - 1) as nat);
    let u = units(n);
    let h = units(n + 1);
    let h2 = units(n + 2);
    lemma_units_step((n - 1) as nat);
    lemma_units_step(n);
    lemma_units_step(n + 1);
    assert((n + 1 - 1) as nat == n);
    if up {
        assert(4 * (h * h) < (h + h2) * (h + h2)) by (nonlinear_arith)
            requires
                0 <= h < h2,
        ;
    } else {
        assert((l + u) * (l + u) < 4 * (u * u)) by (nonlinear_arith)
            requires
                0 <= l < u,
        ;
    }
}

/// The whole part of the square root of `m`.
fn whole_root(m: u128) -> (r: u128)
    requires
        m < pow2(120),
    ensures
        r < pow2(60),
        r * r <= m,
        m < (r + 1) * (r + 1),
{
    let mut low: u128 = 0;
    let mut high: u128 = 0x1000_0000_0000_0000;
    proof {
        lemma2_to64();
        lemma2_to64_rest();
        lemma_pow2_adds(60, 60);
    }
    while high - low > 1
        invariant
            low < high <= 0x1000_0000_0000_0000,
            low * low <= m < high * high,
        decreases high - low,
    {
        let mid: u128 = low + (high - low) / 2;
        assert(mid * mid < 0x1000_0000_0000_0000 * 0x1000_0000_0000_0000) by (nonlinear_arith)
            requires
                0 <= mid < 0x1000_0000_0000_0000,
        ;
        if mid * mid <= m {
            low = mid;
        } else {
            high = mid;
        }
    }
    assert(high == low + 1);
    low
}

/// Where a root lies among the steps that are twice `half` finer steps long.
proof fn lemma_root_coarser(
    m: int,
    r: int,
    q: int,
    rem: int,
    half: int,
    step: int,
    coarse: int,
    square: int,
)
    requires
        step > 0,
        half > 0,
        q >= 0,
        0 <= rem < 2 * half,
        r == q * (2 * half) + rem,
        coarse == step * (2 * half),
        r * r <= m < (r + 1) * (r + 1),
        square == m * (step * step),
    ensures
        (q * coarse) * (q * coarse) <= square,
        square < ((q + 1) * coarse) * ((q + 1) * coarse),
        ({
            let mid = q * coarse + (q + 1) * coarse;
            &&& rem > half ==> mid * mid < 4 * square
            &&& rem < half ==> 4 * square < mid * mid
            &&& rem == half && r * r == m ==> mid * mid == 4 * square
            &&& rem == half && r * r < m ==> mid * mid < 4 * square
        }),
{
    let wide = 2 * half;
    let z = step * step;
    let low = q * wide;
    let high = (q + 1) * wide;
    let centre = q * wide + half;
    assert(z > 0) by (nonlinear_arith)
        requires
            step > 0,
            z == step * step,
    ;
    assert(low >= 0) by (nonlinear_arith)
        requires
            q >= 0,
            wide > 0,
            low == q * wide,
    ;
    assert(high == low + wide) by (nonlinear_arith)
        requires
            low == q * wide,
            high == (q + 1) * wide,
    ;
    assert((q * coarse) * (q * coarse) == (low * low) * z) by (nonlinear_arith)
        requires
            coarse == step * wide,
            low == q * wide,
            z == step * step,
    ;
    assert(((q + 1) * coarse) * ((q + 1) * coarse) == (high * high) * z) by (nonlinear_arith)
        requires
            coarse == step * wide,
            high == (q + 1) * wide,
            z == step * step,
    ;
    let mid = q * coarse + (q + 1) * coarse;
    assert(mid == (2 * centre) * step) by (nonlinear_arith)
        requires
            mid == q * coarse + (q + 1) * coarse,
            coarse == step * wide,
            centre == q * wide + half,
            wide == 2 * half,
    ;
    assert(mid * mid == 4 * ((centre * centre) * z)) by (nonlinear_arith)
        requires
            mid == (2 * centre) * step,
            z == step * step,
    ;
    assert(low * low <= r * r) by (nonlinear_arith)
        requires
            0 <= low <= r,
    ;
    assert((r + 1) * (r + 1) <= high * high) by (nonlinear_arith)
        requires
            0 <= r + 1 <= high,
    ;
    let ll = low * low;
    let hh = high * high;
    let cc = centre * centre;
    assert(ll * z <= m * z < hh * z) by (nonlinear_arith)
        requires
            ll <= m < hh,
            z > 0,
    ;
    if rem > half {
        assert(cc < r * r) by (nonlinear_arith)
            requires
                0 <= centre < r,
                cc == centre * centre,
        ;
        assert(cc * z < m * z) by (nonlinear_arith)
            requires
                cc < m,
                z > 0,
        ;
    } else if rem < half {
        assert((r + 1) * (r + 1) <= cc) by (nonlinear_arith)
            requires
                0 <= r + 1 <= centre,
                cc == centre * centre,
        ;
        assert(m * z < cc * z) by (nonlinear_arith)
            requires
                m < cc,
                z > 0,
        ;
    } else {
        assert(centre == r);
        assert(cc < m ==> cc * z < m * z) by (nonlinear_arith)
            requires
                z > 0,
        ;
    }
}

impl Float64 {
    /// What `sqrt` returns.
    pub open spec fn spec_sqrt(self) -> Float64 {
        root(self)
    }

    /// The square root of a number.
    #[verifier::when_used_as_spec(spec_sqrt)]
    pub fn sqrt(self) -> (res: Float64)
        ensures
            res == root(self),
    {
        proof {
            reveal(root);
        }
        let (negative, n0) = self.split();
        if n0 > INFINITY_BITS || (negative && n0 != 0) {
            return Float64 { bits: NAN_BITS };
        }
        if n0 == 0 || n0 == INFINITY_BITS {
            return self;
        }
        let (m, e) = parts(n0);
        let len = digits_64(m);
        proof {
            lemma2_to64();
            lemma2_to64_rest();
            if len > 54 {
                lemma_pow2_strictly_increases(53, (len - 1) as nat);
            }
        }
        let odd: u32 = (e + 1074 + len) % 2;
        let j: u32 = 120 - len - odd;
        let t: u32 = (e + 1074 - j) / 2;
        let lift = power_of_two(j);
        proof {
            assert(2 * t + j == e + 1074);
            let a = pow2(len as nat);
            let b = pow2((len - 1) as nat);
            lemma_pow2_adds(len as nat, j as nat);
            lemma_pow2_adds((len - 1) as nat, j as nat);
            if odd == 1 {
                lemma_pow2_strictly_increases((len + j) as nat, 120);
                lemma_pow2_unfold(119);
            } else {
                lemma_pow2_unfold(120);
                lemma_pow2_unfold(119);
                lemma_pow2_pos(118);
            }
            assert(m * lift < a * lift) by (nonlinear_arith)
                requires
                    m < a,
                    lift > 0,
            ;
            assert(m * lift >= b * lift) by (nonlinear_arith)
                requires
                    m >= b,
                    lift > 0,
            ;
            assert(pow2(120) < 0x0fff_ffff_ffff_ffff_ffff_ffff_ffff_ffff) by {
                lemma_pow2_adds(64, 56);
            }
            assert(m * lift >= pow2(118));
        }
        let wide: u128 = m as u128 * lift;
        let r = whole_root(wide);
        proof {
            // The root has 60 digits.
            lemma_pow2_adds(59, 59);
            assert(r >= 0x0800_0000_0000_0000) by (nonlinear_arith)
                requires
                    wide < (r + 1) * (r + 1),
                    wide >= 0x0800_0000_0000_0000 * 0x0800_0000_0000_0000,
                    r >= 0,
            ;
        }
        let q: u128 = r / 128;
        let rem: u128 = r % 128;
        let s: u32 = t + 7;
        let n: u64 = s as u64 * FRACTION + q as u64;
        let up = rem > 64 || (rem == 64 && (r * r != wide || n % 2 == 1));
        proof {
            let step = pow2(t as nat);
            let coarse = pow2(s as nat);
            let square = units(n0 as nat) * unity();
            let ge = pow2(e as nat);
            let one = unity();
            lemma_pow2_pos(t as nat);
            lemma_pow2_adds(t as nat, 7);
            lemma_pow2_adds(t as nat, t as nat);
            lemma_pow2_adds(e as nat, 1074);
            lemma_pow2_adds(j as nat, (2 * t) as nat);
            assert(t as nat + t as nat == (2 * t) as nat);
            assert(square == wide * (step * step)) by (nonlinear_arith)
                requires
                    square == (m * ge) * one,
                    ge * one == lift * (step * step),
                    wide == m * lift,
            ;
            assert(r == q * 128 + rem);
            assert(r as int == q as int * (2 * 64int) + rem as int);
            lemma_root_coarser(
                wide as int,
                r as int,
                q as int,
                rem as int,
                64,
                step as int,
                coarse as int,
                square as int,
            );
            lemma_units_pack(s as nat, q as nat);
            lemma_units_pack(s as nat, (q + 1) as nat);
            lemma_root_between(n as nat, square, up);
            lemma_rounded_root(
                if up {
                    (n + 1) as nat
                } else {
                    n as nat
                },
                square,
            );
        }
        Float64::joined(
            false,
            if up {
                n + 1
            } else {
                n
            },
        )
    }
}

/// The whole part of a number of units, up to a bound that every caller clips to.
spec fn clipped(whole: nat, found: u64) -> bool {
    if whole < 0x0020_0000_0000_0000 {
        found == whole
    } else {
        found >= 0x0020_0000_0000_0000
    }
}

/// The whole part of a magnitude, and whether there is a fraction.
fn whole_part(n: u64) -> (r: (u64, bool))
    requires
        n < INFINITY_BITS,
    ensures
        clipped(units(n as nat) / unity(), r.0),
        r.0 < 0x0020_0000_0000_0000 ==> r.1 == (units(n as nat) % unity() != 0),
{
    let (m, e) = parts(n);
    let ghost total = units(n as nat);
    let ghost one = unity();
    proof {
        lemma_pow2_pos(1074);
        lemma2_to64();
        lemma2_to64_rest();
    }
    if e >= 1074 {
        // A whole number of at least 53 digits.
        proof {
            let k = (e - 1074) as nat;
            let g = pow2(k);
            lemma_pow2_pos(k);
            lemma_pow2_adds(1074, k);
            assert(total == one * (m * g)) by (nonlinear_arith)
                requires
                    total == m * pow2(e as nat),
                    pow2(e as nat) == one * g,
            ;
            vstd::arithmetic::div_mod::lemma_div_multiples_vanish((m * g) as int, one as int);
            vstd::arithmetic::div_mod::lemma_mod_multiples_basic((m * g) as int, one as int);
            assert((m * g) * one == one * (m * g)) by (nonlinear_arith);
            assert(m * g >= m) by (nonlinear_arith)
                requires
                    g >= 1,
                    m >= 0,
            ;
            if e == 1074 {
                assert(m * g == m);
            } else {
                lemma_pow2_unfold(k);
                lemma_pow2_pos((k - 1) as nat);
                assert(m * g >= 2 * m) by (nonlinear_arith)
                    requires
                        g >= 2,
                        m >= 0,
                ;
            }
        }
        if e == 1074 {
            (m, false)
        } else {
            (0x0020_0000_0000_0000, false)
        }
    } else {
        let k: u32 = 1074 - e;
        let ghost g = pow2(k as nat);
        let ghost ge = pow2(e as nat);
        proof {
            lemma_pow2_pos(k as nat);
            lemma_pow2_pos(e as nat);
            lemma_pow2_adds(k as nat, e as nat);
        }
        let (q, rem): (u128, u128) = if k < 60 {
            split_at(m as u128, k)
        } else {
            proof {
                if k > 60 {
                    lemma_pow2_strictly_increases(60, k as nat);
                }
                assert(0 * g == 0) by (nonlinear_arith);
            }
            (0, m as u128)
        };
        proof {
            assert(q <= m) by (nonlinear_arith)
                requires
                    m == q * g + rem,
                    g >= 1,
                    rem >= 0,
                    q >= 0,
            ;
            assert(total == q * one + rem * ge) by (nonlinear_arith)
                requires
                    total == m * ge,
                    m == q * g + rem,
                    one == g * ge,
            ;
            assert(0 <= rem * ge < one) by (nonlinear_arith)
                requires
                    0 <= rem < g,
                    ge > 0,
                    one == g * ge,
            ;
            assert(rem > 0 ==> rem * ge > 0) by (nonlinear_arith)
                requires
                    ge > 0,
            ;
            assert(rem == 0 ==> rem * ge == 0) by (nonlinear_arith);
            vstd::arithmetic::div_mod::lemma_fundamental_div_mod_converse(
                total as int,
                one as int,
                q as int,
                (rem * ge) as int,
            );
        }
        (q as u64, rem != 0)
    }
}

/// The largest integer at most the number, clipped to the range of `i32`; zero of no number.
#[verifier::opaque]
pub open spec fn floor_clipped(a: Float64) -> int {
    if a.nan() {
        0
    } else {
        let whole = a.value() / unity() as int;
        if whole > i32::MAX {
            i32::MAX as int
        } else if whole < i32::MIN {
            i32::MIN as int
        } else {
            whole
        }
    }
}

/// The smallest integer at least the number, clipped to the range of `i32`; zero of no number.
#[verifier::opaque]
pub open spec fn ceil_clipped(a: Float64) -> int {
    if a.nan() {
        0
    } else {
        let whole = -((-a.value()) / unity() as int);
        if whole > i32::MAX {
            i32::MAX as int
        } else if whole < i32::MIN {
            i32::MIN as int
        } else {
            whole
        }
    }
}

/// The number without its fraction, clipped to the range of `u32`; zero of no number.
#[verifier::opaque]
pub open spec fn trunc_clipped(a: Float64) -> int {
    if a.nan() || a.negative() {
        0
    } else {
        let whole = a.value() / unity() as int;
        if whole > u32::MAX {
            u32::MAX as int
        } else {
            whole
        }
    }
}

proof fn lemma_infinity_is_large()
    ensures
        units(INFINITY_BITS as nat) / unity() >= 0x0020_0000_0000_0000,
{
    let n = INFINITY_BITS as nat;
    lemma2_to64_rest();
    lemma_pow2_pos(1074);
    assert(n / 0x0010_0000_0000_0000 == 2047 && n % 0x0010_0000_0000_0000 == 0);
    lemma_pow2_adds(1074, 972);
    let one = unity();
    let g = pow2(972);
    lemma_pow2_pos(971);
    lemma_pow2_unfold(972);
    let k = 0x0010_0000_0000_0000 * g;
    assert(units(n) == k * one) by (nonlinear_arith)
        requires
            units(n) == 0x0010_0000_0000_0000 * pow2(2046),
            pow2(2046) == one * g,
            k == 0x0010_0000_0000_0000 * g,
    ;
    vstd::arithmetic::div_mod::lemma_div_multiples_vanish(k as int, one as int);
    assert(one * k == k * one) by (nonlinear_arith);
}

/// Rounding a negated number down rounds the number up.
proof fn lemma_negated_floor(a: nat, one: nat)
    requires
        one > 0,
    ensures
        (-(a as int)) / one as int == -(a / one) - (if a % one == 0 {
            0int
        } else {
            1int
        }),
{
    vstd::arithmetic::div_mod::lemma_fundamental_div_mod(a as int, one as int);
    let q = (a / one) as int;
    let r = (a % one) as int;
    assert(one * q == q * one) by (nonlinear_arith);
    if r == 0 {
        assert((-q) * one == -(q * one)) by (nonlinear_arith);
        vstd::arithmetic::div_mod::lemma_fundamental_div_mod_converse(
            -(a as int),
            one as int,
            -q,
            0,
        );
    } else {
        assert((-q - 1) * one == -(q * one) - one) by (nonlinear_arith);
        vstd::arithmetic::div_mod::lemma_fundamental_div_mod_converse(
            -(a as int),
            one as int,
            -q - 1,
            one - r,
        );
    }
}

impl Float64 {
    /// What `floor_i32` returns.
    pub open spec fn spec_floor_i32(self) -> i32 {
        floor_clipped(self) as i32
    }

    /// The largest integer at most the number.
    #[verifier::when_used_as_spec(spec_floor_i32)]
    pub fn floor_i32(self) -> (r: i32)
        ensures
            r == floor_clipped(self),
    {
        proof {
            reveal(floor_clipped);
        }
        let (negative, n) = self.split();
        if n > INFINITY_BITS {
            return 0;
        }
        proof {
            lemma_infinity_is_large();
            lemma_pow2_pos(1074);
            lemma_negated_floor(units(n as nat), unity());
        }
        let (whole, fraction) = if n == INFINITY_BITS {
            (0x0020_0000_0000_0000u64, false)
        } else {
            whole_part(n)
        };
        if negative {
            if whole >= 0x8000_0000 {
                i32::MIN
            } else if fraction {
                (-(whole as i64) - 1) as i32
            } else {
                (-(whole as i64)) as i32
            }
        } else if whole >= 0x8000_0000 {
            i32::MAX
        } else {
            whole as i32
        }
    }

    /// What `ceil_i32` returns.
    pub open spec fn spec_ceil_i32(self) -> i32 {
        ceil_clipped(self) as i32
    }

    /// The smallest integer at least the number.
    #[verifier::when_used_as_spec(spec_ceil_i32)]
    pub fn ceil_i32(self) -> (r: i32)
        ensures
            r == ceil_clipped(self),
    {
        proof {
            reveal(ceil_clipped);
        }
        let (negative, n) = self.split();
        if n > INFINITY_BITS {
            return 0;
        }
        proof {
            lemma_infinity_is_large();
            lemma_pow2_pos(1074);
            lemma_negated_floor(units(n as nat), unity());
        }
        let (whole, fraction) = if n == INFINITY_BITS {
            (0x0020_0000_0000_0000u64, false)
        } else {
            whole_part(n)
        };
        if negative {
            if whole >= 0x8000_0000 {
                i32::MIN
            } else {
                (-(whole as i64)) as i32
            }
        } else if whole >= 0x7fff_ffff {
            i32::MAX
        } else if fraction {
            (whole + 1) as i32
        } else {
            whole as i32
        }
    }

    /// What `trunc_u32` returns.
    pub open spec fn spec_trunc_u32(self) -> u32 {
        trunc_clipped(self) as u32
    }

    /// The number without its fraction.
    #[verifier::when_used_as_spec(spec_trunc_u32)]
    pub fn trunc_u32(self) -> (r: u32)
        ensures
            r == trunc_clipped(self),
    {
        proof {
            reveal(trunc_clipped);
        }
        let (negative, n) = self.split();
        if n > INFINITY_BITS || negative {
            return 0;
        }
        proof {
            lemma_infinity_is_large();
            lemma_pow2_pos(1074);
        }
        if n == INFINITY_BITS {
            return u32::MAX;
        }
        let (whole, _fraction) = whole_part(n);
        if whole >= 0x1_0000_0000 {
            u32::MAX
        } else {
            whole as u32
        }
    }
}

/// A whole number.
pub open spec fn whole(n: int) -> Float64 {
    if n < 0 {
        count((-n) as nat).negated()
    } else {
        count(n as nat)
    }
}

impl Float64 {
    /// What `from_whole` returns.
    pub open spec fn spec_from_whole(n: i64) -> Float64 {
        whole(n as int)
    }

    /// A whole number.
    #[verifier::when_used_as_spec(spec_from_whole)]
    pub fn from_whole(n: i64) -> (r: Float64)
        ensures
            r == whole(n as int),
    {
        if n == i64::MIN {
            Float64::from_count(0x8000_0000_0000_0000).neg()
        } else if n < 0 {
            Float64::from_count((-n) as u64).neg()
        } else {
            Float64::from_count(n as u64)
        }
    }

    /// What `clamp` returns.
    pub open spec fn spec_clamp(self, least: Float64, most: Float64) -> Float64 {
        if self.lt(least) {
            least
        } else if most.lt(self) {
            most
        } else {
            self
        }
    }

    /// The number, or the nearer end of a range that it is not in.
    #[verifier::when_used_as_spec(spec_clamp)]
    pub fn clamp(self, least: Float64, most: Float64) -> (r: Float64)
        ensures
            r == self.spec_clamp(least, most),
    {
        if self.lt(least) {
            least
        } else if most.lt(self) {
            most
        } else {
            self
        }
    }
}

/// A number that is one, clamped to a range that is one, lies in it.
pub proof fn lemma_clamped_in_range(a: Float64, least: Float64, most: Float64)
    requires
        !a.is_nan(),
        least.le(most),
    ensures
        least.le(a.clamp(least, most)),
        a.clamp(least, most).le(most),
{
}

/// Of two numbers, the lower has no more whole units.
pub proof fn lemma_trunc_ordered(a: Float64, b: Float64)
    requires
        a.le(b),
    ensures
        0 <= trunc_clipped(a) <= trunc_clipped(b) <= u32::MAX,
{
    reveal(trunc_clipped);
    lemma_pow2_pos(1074);
    let one = unity() as int;
    assert(!a.negative() ==> a.value() / one >= 0) by {
        vstd::arithmetic::div_mod::lemma_div_pos_is_pos(units(a.magnitude()) as int, one);
    }
    assert(!b.negative() ==> b.value() / one >= 0) by {
        vstd::arithmetic::div_mod::lemma_div_pos_is_pos(units(b.magnitude()) as int, one);
    }
    if !a.negative() {
        if b.negative() {
            assert(a.value() == 0 && b.value() == 0);
            assert(0int / one == 0) by {
                vstd::arithmetic::div_mod::lemma_div_basics(one);
            }
        } else {
            vstd::arithmetic::div_mod::lemma_div_is_ordered(a.value(), b.value(), one);
        }
    }
}

}
