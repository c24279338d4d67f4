//! The radius of the board goes towards its target and stays within limits.
use crate::float64::{Float64, INFINITY_BITS};
use crate::game::{GameView, LEAST_BOARD_RADIUS};
use crate::geometry::{ONE, ZERO};
use crate::player::PlayerView;
use crate::protocol::STARTING_TERRITORY_RADIUS;
use crate::spawn::{FALLBACK_PART, TWO};
use crate::tick::{BOARD_EASING, BOARD_SCALE};
use vstd::arithmetic::power2::*;
use vstd::prelude::*;

verus! {

/// The radius of the board for as many players as there can be: 1966080.
pub const GREATEST_BOARD_RADIUS: u64 = 0x413e_0000_0000_0000;

/// Whether a radius is one that a board can have.
pub open spec fn within_limits(radius: Float64) -> bool {
    &&& (Float64 { bits: LEAST_BOARD_RADIUS }).le(radius)
    &&& radius.le(Float64 { bits: GREATEST_BOARD_RADIUS })
}

// ---------------------------------------------------------------------------------------------
// Roots
// ---------------------------------------------------------------------------------------------

/// A square below that of a magnitude has a root that is rounded to something.
pub proof fn lemma_nearest_root_below(square: nat, n: nat) -> (found: nat)
    requires
        0 < n < INFINITY_BITS,
        1 <= square < crate::float64::units(n) * crate::float64::units(n),
    ensures
        crate::float64::nearest_root(found, square),
    decreases n,
{
    let m = (n - 1) as nat;
    let u = crate::float64::units(m);
    assert(crate::float64::units(0) == 0 && crate::float64::units(1) == 1);
    if n == 1 {
        assert(1 * 1 == 1);
        0
    } else if u * u <= square {
        let mid = u + crate::float64::units(n);
        let up = mid * mid < 4 * square || (mid * mid == 4 * square && m % 2 == 1);
        crate::float64::lemma_root_between(m, square, up);
        if up {
            n
        } else {
            m
        }
    } else {
        lemma_nearest_root_below(square, m)
    }
}

/// A root that is at most a magnitude is rounded to at most that magnitude.
proof fn lemma_root_at_most(square: nat, k: nat)
    requires
        k + 1 < INFINITY_BITS,
        1 <= square <= crate::float64::units(k) * crate::float64::units(k),
    ensures
        crate::float64::rounded_root(square) <= k,
{
    let u = crate::float64::units(k);
    let h = crate::float64::units(k + 1);
    crate::float64::lemma_units_ordered(k, k + 1);
    assert(u * u < h * h) by (nonlinear_arith)
        requires
            0 <= u < h,
    ;
    let n = lemma_nearest_root_below(square, k + 1);
    crate::float64::lemma_rounded_root(n, square);
    if n > k {
        let a = crate::float64::units((n - 1) as nat);
        let b = crate::float64::units(n);
        crate::float64::lemma_units_ordered(k, n);
        if k < n - 1 {
            crate::float64::lemma_units_ordered(k, (n - 1) as nat);
        }
        let low = a + b;
        assert(low * low > 4 * (u * u)) by (nonlinear_arith)
            requires
                low > 2 * u,
                u >= 0,
        ;
    }
}

// ---------------------------------------------------------------------------------------------
// The target
// ---------------------------------------------------------------------------------------------

/// The target of the board lies within its limits.
pub proof fn lemma_target_within_limits(living: nat)
    requires
        living <= u32::MAX,
    ensures
        within_limits(crate::tick::radius_for(living)),
{
    reveal(crate::float64::count);
    reveal(crate::float64::root);
    reveal(crate::float64::product);
    crate::rounding::lemma_units_of_one();
    let one = crate::float64::unity();
    let n: nat = if living > 1 {
        living
    } else {
        1
    };
    let c = crate::rounding::lemma_small_multiple(n, 1074);
    assert(one == pow2(1074));
    crate::rounding::lemma_rounded_exact(n * one, 1, c);
    let counted = crate::float64::count(n);
    assert(counted.magnitude() == c && !counted.negative());
    assert(n * one > 0) by (nonlinear_arith)
        requires
            n > 0,
            one > 0,
    ;
    assert(crate::float64::units(0) == 0);
    let square = crate::float64::units(c) * one;
    let r = crate::rounding::lemma_small_multiple(0x1_0000, 1074);
    let w = crate::float64::units(r);
    assert(1 <= square <= w * w) by (nonlinear_arith)
        requires
            square == (n * one) * one,
            w == 0x1_0000 * one,
            1 <= n <= 0xffff_ffff,
            one >= 1,
    ;
    if r + 1 >= INFINITY_BITS {
        lemma_greatest();
        crate::float64::lemma_units_ordered(
            GREATEST_BOARD_RADIUS as nat,
            r,
        );
        assert(false);
    }
    lemma_root_at_most(square, r);
    let root = counted.sqrt();
    let s = crate::float64::rounded_root(square);
    assert(root.magnitude() == s && !root.negative());
    if s < r {
        crate::float64::lemma_units_ordered(s, r);
    }
    lemma_greatest();
    lemma_scale();
    let v = crate::float64::units(s);
    let num = crate::float64::units(BOARD_SCALE as nat) * v;
    assert(num <= one * (1966080 * one)) by (nonlinear_arith)
        requires
            num == (30 * one) * v,
            v <= 0x1_0000 * one,
    ;
    crate::rounding::lemma_rounded_at_most(num, one, GREATEST_BOARD_RADIUS as nat);
    let p = crate::float64::rounded(num, one);
    if p < GREATEST_BOARD_RADIUS {
        crate::float64::lemma_units_ordered(p, GREATEST_BOARD_RADIUS as nat);
    }
    crate::float64::lemma_units_ordered(
        LEAST_BOARD_RADIUS as nat,
        GREATEST_BOARD_RADIUS as nat,
    );
}

/// The greatest radius in units.
pub proof fn lemma_greatest()
    ensures
        crate::float64::units(GREATEST_BOARD_RADIUS as nat) == 1966080 * crate::float64::unity(),
{
    let n = GREATEST_BOARD_RADIUS as nat;
    assert(n / 0x0010_0000_0000_0000 == 1043 && n % 0x0010_0000_0000_0000
        == 0xe_0000_0000_0000);
    lemma_pow2_adds(1042, 32);
    lemma2_to64();
    lemma2_to64_rest();
    assert(pow2(32) == 0x1_0000_0000);
    let p = pow2(1042);
    assert(0x1e_0000_0000_0000 * p == 1966080 * (p * 0x1_0000_0000)) by (nonlinear_arith);
}

proof fn lemma_scale()
    ensures
        crate::float64::units(BOARD_SCALE as nat) == 30 * crate::float64::unity(),
{
    let n = BOARD_SCALE as nat;
    assert(n / 0x0010_0000_0000_0000 == 1027 && n % 0x0010_0000_0000_0000
        == 0xe_0000_0000_0000);
    lemma_pow2_adds(1026, 48);
    lemma2_to64_rest();
    assert(pow2(48) == 0x1_0000_0000_0000);
    let p = pow2(1026);
    assert(0x1e_0000_0000_0000 * p == 30 * (p * 0x1_0000_0000_0000)) by (nonlinear_arith);
}

// ---------------------------------------------------------------------------------------------
// The way to the target
// ---------------------------------------------------------------------------------------------

/// What a radius becomes on its way to a target.
pub open spec fn eased(radius: Float64, target: Float64) -> Float64 {
    radius.plus(target.minus(radius).times(Float64 { bits: BOARD_EASING }))
}

proof fn lemma_easing()
    ensures
        4 * crate::float64::units(BOARD_EASING as nat) <= crate::float64::unity(),
{
    // A quarter.
    let k: nat = 0x3fd0_0000_0000_0000;
    assert(k / 0x0010_0000_0000_0000 == 1021 && k % 0x0010_0000_0000_0000 == 0);
    lemma_pow2_adds(1020, 54);
    lemma2_to64_rest();
    assert(pow2(54) == 0x40_0000_0000_0000);
    let p = pow2(1020);
    assert(4 * (0x0010_0000_0000_0000 * p) == p * 0x40_0000_0000_0000) by (nonlinear_arith);
    crate::float64::lemma_units_ordered(BOARD_EASING as nat, k);
}

/// A rounded value is at most twice the value.
proof fn lemma_rounded_at_most_twice(num: nat, den: nat)
    requires
        den > 0,
    ensures
        den * crate::float64::units(crate::float64::rounded(num, den)) <= 2 * num,
{
    crate::rounding::lemma_rounded_is_nearest(num, den);
    let n = crate::float64::rounded(num, den);
    assert(crate::float64::units(0) == 0);
    if n > 0 {
        let a = crate::float64::units((n - 1) as nat);
        let b = crate::float64::units(n);
        assert(den * (a + b) >= den * b) by (nonlinear_arith)
            requires
                a >= 0,
        ;
    } else {
        assert(den * 0 == 0);
    }
}

/// What lies on both sides of a radius and of its target lies on both sides of the radius on its
/// way: it never goes past the target, nor back.
pub proof fn lemma_eased_between(radius: Float64, target: Float64, least: Float64, most: Float64)
    requires
        !radius.negative(),
        !target.negative(),
        !least.negative(),
        !most.negative(),
        !most.infinite(),
        least.le(radius),
        radius.le(most),
        least.le(target),
        target.le(most),
    ensures
        least.le(eased(radius, target)),
        eased(radius, target).le(most),
{
    reveal(crate::float64::sum);
    reveal(crate::float64::product);
    crate::rounding::lemma_units_of_one();
    crate::rounding::lemma_negated_parts(radius);
    lemma_easing();
    lemma_not_infinite(radius, most);
    lemma_not_infinite(target, most);
    lemma_not_infinite(least, most);
    let one = crate::float64::unity();
    let e = Float64 { bits: BOARD_EASING };
    let ue = crate::float64::units(BOARD_EASING as nat);
    let way = target.value() - radius.value();
    assert(target.value() + radius.negated().value() == way);
    let x = if way < 0 {
        (-way) as nat
    } else {
        way as nat
    };
    // The way, rounded, is no infinity: it is at most the greater of the two ends.
    let d = crate::float64::rounded(x, 1);
    crate::rounding::lemma_rounded_at_most(x, 1, most.magnitude());
    lemma_rounded_at_most_twice(x, 1);
    let ud = crate::float64::units(d);
    let difference = target.minus(radius);
    crate::rounding::lemma_rounded_exact(0, 1, 0);
    assert(crate::float64::units(0) == 0);
    assert(difference.magnitude() == d);
    assert(x > 0 ==> difference.negative() == (way < 0));
    // The step is at most the way.
    let s = crate::float64::rounded(ud * ue, one);
    lemma_rounded_at_most_twice(ud * ue, one);
    crate::rounding::lemma_rounded_is_nearest(ud * ue, one);
    let us = crate::float64::units(s);
    assert(us <= x) by (nonlinear_arith)
        requires
            one * us <= 2 * (ud * ue),
            4 * ue <= one,
            ud <= 2 * x,
            one > 0,
    ;
    let step = difference.times(e);
    assert(step.magnitude() == s);
    if s >= INFINITY_BITS {
        crate::float64::lemma_units_ordered(most.magnitude(), s);
        assert(false);
    }
    assert(x > 0 ==> step.negative() == (way < 0));
    assert(x == 0 ==> us == 0);
    assert(-x <= step.value() <= x);
    assert(way >= 0 ==> step.value() >= 0);
    assert(way < 0 ==> step.value() <= 0);
    // So the sum lies between the ends, and rounding keeps it there.
    let exact = radius.value() + step.value();
    assert(least.value() <= exact <= most.value());
    if exact > 0 {
        crate::rounding::lemma_rounded_at_most(exact as nat, 1, most.magnitude());
        crate::rounding::lemma_rounded_at_least(exact as nat, 1, least.magnitude());
        let n = crate::float64::rounded(exact as nat, 1);
        if n < most.magnitude() {
            crate::float64::lemma_units_ordered(n, most.magnitude());
        }
        if least.magnitude() < n {
            crate::float64::lemma_units_ordered(least.magnitude(), n);
        }
    }
}

/// What is no more than a number is no infinity.
pub proof fn lemma_not_infinite(a: Float64, most: Float64)
    requires
        !a.negative(),
        !most.negative(),
        !most.infinite(),
        a.le(most),
    ensures
        !a.infinite(),
        a.magnitude() <= most.magnitude() < INFINITY_BITS,
{
    if a.magnitude() > most.magnitude() {
        crate::float64::lemma_units_ordered(most.magnitude(), a.magnitude());
    }
}

/// The radius of the board stays within its limits, tick by tick.
pub proof fn lemma_board_within_limits(game: GameView)
    requires
        game.players.len() <= u32::MAX,
        within_limits(game.board_radius),
    ensures
        within_limits(game.begun().board_radius),
{
    let least = Float64 { bits: LEAST_BOARD_RADIUS };
    let most = Float64 { bits: GREATEST_BOARD_RADIUS };
    let target = crate::tick::radius_for(crate::tick::living(game.players));
    lemma_living_few(game.players);
    lemma_target_within_limits(crate::tick::living(game.players));
    lemma_positive(game.board_radius);
    lemma_positive(target);
    lemma_eased_between(game.board_radius, target, least, most);
}

/// What is no less than the least radius is positive.
pub proof fn lemma_positive(a: Float64)
    requires
        (Float64 { bits: LEAST_BOARD_RADIUS }).le(a),
    ensures
        !a.negative(),
{
    assert(crate::float64::units(0) == 0);
    crate::float64::lemma_units_ordered(0, LEAST_BOARD_RADIUS as nat);
}

proof fn lemma_living_few(players: Seq<PlayerView>)
    ensures
        crate::tick::living(players) <= players.len(),
    decreases players.len(),
{
    if players.len() > 0 {
        lemma_living_few(players.drop_last());
    }
}

/// The board of a new game is within its limits.
pub proof fn lemma_new_board_within_limits()
    ensures
        within_limits(Float64 { bits: LEAST_BOARD_RADIUS }),
{
    crate::float64::lemma_units_ordered(
        LEAST_BOARD_RADIUS as nat,
        GREATEST_BOARD_RADIUS as nat,
    );
}

// ---------------------------------------------------------------------------------------------
// Room for a new player
// ---------------------------------------------------------------------------------------------

/// What is left of a number is what it is rounded to.
proof fn lemma_left(a: Float64, b: Float64, least: nat)
    requires
        !a.negative(),
        !b.negative(),
        a.magnitude() < INFINITY_BITS,
        b.magnitude() < INFINITY_BITS,
        0 < least < INFINITY_BITS,
        crate::float64::units(a.magnitude()) >= crate::float64::units(b.magnitude())
            + crate::float64::units(least),
    ensures
        !a.minus(b).negative(),
        least <= a.minus(b).magnitude() <= a.magnitude(),
{
    reveal(crate::float64::sum);
    crate::rounding::lemma_negated_parts(b);
    assert(crate::float64::units(0) == 0);
    crate::float64::lemma_units_ordered(0, least);
    let exact = (a.value() - b.value()) as nat;
    crate::rounding::lemma_rounded_at_most(exact, 1, a.magnitude());
    crate::rounding::lemma_rounded_at_least(exact, 1, least);
}

/// The small radii in units.
pub proof fn lemma_small_radii()
    ensures
        crate::float64::units(TWO as nat) == 2 * crate::float64::unity(),
        crate::float64::units(STARTING_TERRITORY_RADIUS as nat) <= 4 * crate::float64::unity(),
        crate::float64::units(LEAST_BOARD_RADIUS as nat) >= 8 * crate::float64::unity(),
{
    // Four and eight.
    let four: nat = 0x4010_0000_0000_0000;
    let eight: nat = 0x4020_0000_0000_0000;
    let full: nat = 0x0010_0000_0000_0000;
    assert((TWO as nat) / full == 1024 && (TWO as nat) % full == 0);
    assert(four / full == 1025 && four % full == 0);
    assert(eight / full == 1026 && eight % full == 0);
    lemma2_to64_rest();
    assert(pow2(52) == 0x0010_0000_0000_0000);
    lemma_pow2_adds(52, 1022);
    lemma_pow2_adds(1022, 1);
    lemma_pow2_adds(1022, 2);
    lemma_pow2_adds(1022, 3);
    lemma2_to64();
    let p = pow2(1022);
    assert(0x0010_0000_0000_0000 * (p * 2) == 2 * (0x0010_0000_0000_0000 * p)) by (nonlinear_arith);
    assert(0x0010_0000_0000_0000 * (p * 4) == 4 * (0x0010_0000_0000_0000 * p)) by (nonlinear_arith);
    assert(0x0010_0000_0000_0000 * (p * 8) == 8 * (0x0010_0000_0000_0000 * p)) by (nonlinear_arith);
    crate::float64::lemma_units_ordered(STARTING_TERRITORY_RADIUS as nat, four);
    crate::float64::lemma_units_ordered(eight, LEAST_BOARD_RADIUS as nat);
}

/// A player who finds no clear place still has somewhere to start: the part of the board where it
/// may is more than nothing, and no more than the board.
pub proof fn lemma_fallback_has_room(players: Seq<PlayerView>, board_radius: Float64)
    requires
        within_limits(board_radius),
    ensures
        ({
            let search = crate::spawn::search_among(players, board_radius);
            let reach = search.limit.times(Float64 { bits: FALLBACK_PART });
            (Float64 { bits: ZERO }).lt(reach) && reach.le(board_radius)
        }),
{
    reveal(crate::float64::product);
    crate::rounding::lemma_units_of_one();
    let one = crate::float64::unity();
    let start = Float64 { bits: STARTING_TERRITORY_RADIUS };
    lemma_positive(board_radius);
    lemma_not_infinite(board_radius, Float64 { bits: GREATEST_BOARD_RADIUS });
    lemma_small_radii();
    lemma_left(board_radius, start, TWO as nat);
    let first = board_radius.minus(start);
    if (TWO as nat) < first.magnitude() {
        crate::float64::lemma_units_ordered(TWO as nat, first.magnitude());
    }
    lemma_left(first, Float64 { bits: ONE }, ONE as nat);
    let limit = first.minus(Float64 { bits: ONE });
    if (ONE as nat) < limit.magnitude() {
        crate::float64::lemma_units_ordered(ONE as nat, limit.magnitude());
    }
    let part = Float64 { bits: FALLBACK_PART };
    let u = crate::float64::units(limit.magnitude());
    let v = crate::float64::units(part.magnitude());
    crate::float64::lemma_units_ordered(FALLBACK_PART as nat, ONE as nat);
    assert(one * v <= u * v <= one * u) by (nonlinear_arith)
        requires
            one <= u,
            0 <= v <= one,
    ;
    crate::rounding::lemma_rounded_at_least(u * v, one, FALLBACK_PART as nat);
    crate::rounding::lemma_rounded_at_most(u * v, one, limit.magnitude());
    let reach = limit.times(part);
    assert(crate::float64::units(0) == 0);
    crate::float64::lemma_units_ordered(0, reach.magnitude());
    if reach.magnitude() < board_radius.magnitude() {
        crate::float64::lemma_units_ordered(reach.magnitude(), board_radius.magnitude());
    }
}

}
