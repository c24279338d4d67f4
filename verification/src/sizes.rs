//! How large the board is to be, for as many players as live.
use crate::float64::{Float64, INFINITY_BITS};
use crate::game::{GameView, LEAST_BOARD_RADIUS};
use crate::player::PlayerView;
use crate::tick::{BOARD_EASING, BOARD_SCALE};
use vstd::arithmetic::power2::*;
use vstd::prelude::*;

verus! {

/// Each living player counts for one, and nobody else counts.
pub proof fn lemma_the_living_count(players: Seq<PlayerView>, p: PlayerView)
    ensures
        crate::tick::living(Seq::<PlayerView>::empty()) == 0,
        p.alive ==> crate::tick::living(players.push(p)) == crate::tick::living(players) + 1,
        !p.alive ==> crate::tick::living(players.push(p)) == crate::tick::living(players),
{
    assert(players.push(p).drop_last() =~= players);
}

/// The root of a square number is the number that was squared: exactly, where it is small enough.
pub proof fn lemma_root_of_square(a: Float64, m: nat)
    requires
        1 <= m <= 0xff_ffff,
        crate::exact::is_parts(a, (m * m) as int, 0),
    ensures
        crate::exact::is_parts(a.sqrt(), m as int, 0),
{
    reveal(crate::float64::root);
    let one = crate::float64::unity();
    lemma_pow2_pos(1074);
    assert(m * m >= 1) by (nonlinear_arith)
        requires
            m >= 1,
    ;
    crate::exact::lemma_size_of(a, (m * m) as int, 0);
    let n = crate::rounding::lemma_small_multiple(m, 1074);
    let square = crate::float64::units(a.magnitude()) * one;
    let u = crate::float64::units(n);
    assert(square == u * u) by (nonlinear_arith)
        requires
            square == ((m * m) * one) * one,
            u == m * one,
    ;
    assert(u > 0) by (nonlinear_arith)
        requires
            u == m * one,
            m >= 1,
            one > 0,
    ;
    assert(crate::float64::units(0) == 0);
    let w = crate::float64::units((n - 1) as nat);
    let x = crate::float64::units(n + 1);
    crate::float64::lemma_units_ordered((n - 1) as nat, n);
    crate::float64::lemma_units_ordered(n, n + 1);
    assert((w + u) * (w + u) < 4 * square) by (nonlinear_arith)
        requires
            square == u * u,
            0 <= w < u,
    ;
    assert(4 * square < (u + x) * (u + x)) by (nonlinear_arith)
        requires
            square == u * u,
            0 < u < x,
    ;
    crate::float64::lemma_rounded_root(n, square);
    crate::exact::lemma_signed_parts(false, n, m as int, 0);
}

proof fn lemma_root_exact(m: nat)
    requires
        1 <= m <= 0xffff,
    ensures
        crate::exact::is_parts(crate::float64::count(m * m).sqrt(), m as int, 0),
{
    assert(m * m <= 0xffff_ffff) by (nonlinear_arith)
        requires
            m <= 0xffff,
    ;
    crate::screen::lemma_whole_exact((m * m) as int);
    lemma_root_of_square(crate::float64::count(m * m), m);
}

/// For a square number of players the radius of the board is to be thirty times its root, and never
/// less than fifty.
pub proof fn lemma_target_is_thirty_times_the_root(m: nat)
    requires
        1 <= m <= 0xffff,
    ensures
        crate::exact::is_parts(
            crate::tick::radius_for(m * m),
            if 30 * m > 50 {
                30 * m as int
            } else {
                50
            },
            0,
        ),
{
    lemma_root_exact(m);
    lemma_board_constants();
    assert(m * m >= 1) by (nonlinear_arith)
        requires
            m >= 1,
    ;
    let root = crate::float64::count(m * m).sqrt();
    let scale = Float64 { bits: BOARD_SCALE };
    let least = Float64 { bits: LEAST_BOARD_RADIUS };
    crate::exact::lemma_times_exact(scale, 30, 0, root, m as int, 0);
    crate::exact::lemma_order_exact(scale.times(root), 30 * (m as int), least, 50, 0);
}

/// What the constants of the board are.
pub proof fn lemma_board_constants()
    ensures
        crate::exact::is_parts(Float64 { bits: BOARD_SCALE }, 30, 0),
        crate::exact::is_parts(Float64 { bits: LEAST_BOARD_RADIUS }, 50, 0),
{
    lemma2_to64();
    lemma2_to64_rest();
    crate::exact::lemma_pattern(BOARD_SCALE, 30, 48, 0);
    crate::exact::lemma_pattern(LEAST_BOARD_RADIUS, 50, 47, 0);
}

/// A tick begins with the target for those who live, one tick later, and changes no player.
pub proof fn lemma_tick_begins(game: GameView)
    requires
        game.tick_count < u64::MAX,
    ensures
        ({
            let after = game.begun();
            &&& after.tick_count == game.tick_count + 1
            &&& after.target_board_radius == crate::tick::radius_for(
                crate::tick::living(game.players),
            )
            &&& after.players == game.players
            &&& after.outbox == game.outbox
            &&& after.next_id == game.next_id
            &&& after.territory_version == game.territory_version
        }),
{
}

/// A fiftieth is more than a sixty-fourth and less than a thirty-second.
proof fn lemma_easing_part()
    ensures
        crate::float64::unity() <= 64 * crate::float64::units(BOARD_EASING as nat),
        32 * crate::float64::units(BOARD_EASING as nat) <= crate::float64::unity(),
{
    lemma2_to64();
    lemma2_to64_rest();
    crate::exact::lemma_pattern(0x3f90_0000_0000_0000, 1, 52, 6);
    crate::exact::lemma_pattern(0x3fa0_0000_0000_0000, 1, 52, 5);
    let low = Float64 { bits: 0x3f90_0000_0000_0000 };
    let high = Float64 { bits: 0x3fa0_0000_0000_0000 };
    crate::exact::lemma_size_of(low, 1, 6);
    crate::exact::lemma_size_of(high, 1, 5);
    lemma_pow2_adds(6, 1068);
    lemma_pow2_adds(5, 1069);
    crate::float64::lemma_units_ordered(low.magnitude(), BOARD_EASING as nat);
    crate::float64::lemma_units_ordered(BOARD_EASING as nat, high.magnitude());
}

/// A difference of so many parts, eased, is between a sixty-fourth and a thirty-second of it.
proof fn lemma_eased_part(d: Float64, n: int, k: nat)
    requires
        crate::exact::is_parts(d, n, k),
        crate::exact::few(2 * n),
        k + 6 <= 1022,
    ensures
        ({
            let p = pow2((1074 - (k + 6)) as nat);
            let part = d.times(Float64 { bits: BOARD_EASING });
            &&& part.magnitude() < INFINITY_BITS
            &&& n >= 0 ==> n * p <= part.value() <= (2 * n) * p
            &&& n <= 0 ==> (2 * n) * p <= part.value() <= n * p
        }),
{
    reveal(crate::float64::product);
    let e = Float64 { bits: BOARD_EASING };
    let f = (1074 - (k + 6)) as nat;
    let p = pow2(f);
    let one = crate::float64::unity();
    let s = crate::exact::size(n);
    let u = crate::float64::units(d.magnitude());
    let v = crate::float64::units(e.magnitude());
    crate::exact::lemma_size_of(d, n, k);
    lemma_easing_part();
    lemma_pow2_pos(f);
    lemma_pow2_pos(1074);
    lemma2_to64();
    lemma_pow2_adds(6, f);
    let low = crate::rounding::lemma_small_multiple(s, f);
    let high = crate::rounding::lemma_small_multiple(2 * s, f);
    assert(u * v >= one * (s * p)) by (nonlinear_arith)
        requires
            u == s * (64 * p),
            one <= 64 * v,
            s >= 0,
            p > 0,
    ;
    assert(u * v <= one * ((2 * s) * p)) by (nonlinear_arith)
        requires
            u == s * (64 * p),
            32 * v <= one,
            s >= 0,
            p > 0,
    ;
    crate::rounding::lemma_rounded_at_least(u * v, one, low);
    crate::rounding::lemma_rounded_at_most(u * v, one, high);
    let mag = crate::float64::rounded(u * v, one);
    if low < mag {
        crate::float64::lemma_units_ordered(low, mag);
    }
    if mag < high {
        crate::float64::lemma_units_ordered(mag, high);
    }
    let w = crate::float64::units(mag);
    assert(s * p <= w <= (2 * s) * p);
    assert((-n) * p == -(n * p)) by (nonlinear_arith);
    assert((2 * (-n)) * p == -((2 * n) * p)) by (nonlinear_arith);
    assert(0 * p == 0) by (nonlinear_arith);
    assert(e.magnitude() > 0 && !e.negative());
}

/// At the start of a tick the board goes from its radius towards what it is to be for those who
/// live, by more than a sixty-fourth of the way and less than a thirty-second.
pub proof fn lemma_board_goes_part_of_the_way(game: GameView, m: int, t: int, k: nat)
    requires
        crate::exact::is_parts(game.board_radius, m, k),
        crate::exact::is_parts(
            crate::tick::radius_for(crate::tick::living(game.players)),
            t,
            k,
        ),
        k <= 1000,
        0 <= m <= 0x2000_0000_0000,
        0 <= t <= 0x2000_0000_0000,
    ensures
        ({
            let p = pow2((1074 - (k + 6)) as nat);
            let after = game.begun().board_radius;
            &&& t >= m ==> (64 * m + (t - m)) * p <= after.value() <= (64 * m + 2 * (t - m)) * p
            &&& t <= m ==> (64 * m + 2 * (t - m)) * p <= after.value() <= (64 * m + (t - m)) * p
        }),
{
    let radius = game.board_radius;
    let target = crate::tick::radius_for(crate::tick::living(game.players));
    let n = t - m;
    let f = (1074 - (k + 6)) as nat;
    let p = pow2(f);
    let d = target.minus(radius);
    crate::exact::lemma_minus_exact(target, t, radius, m, k);
    lemma_eased_part(d, n, k);
    lemma2_to64();
    crate::exact::lemma_finer(radius, m, k, 6);
    let s = crate::exact::size(n);
    let one = crate::rounding::lemma_small_multiple(s, f);
    let two = crate::rounding::lemma_small_multiple(2 * s, f);
    let near = crate::float64::signed(n < 0, one);
    let far = crate::float64::signed(n < 0, two);
    crate::exact::lemma_signed_parts(n < 0, one, n, k + 6);
    crate::exact::lemma_signed_parts(n < 0, two, 2 * n, k + 6);
    crate::exact::lemma_plus_exact(radius, m * 64, near, n, k + 6);
    crate::exact::lemma_plus_exact(radius, m * 64, far, 2 * n, k + 6);
    let part = d.times(Float64 { bits: BOARD_EASING });
    if n >= 0 {
        crate::lines::lemma_plus_ordered(radius, near, part);
        crate::lines::lemma_plus_ordered(radius, part, far);
    }
    if n <= 0 {
        crate::lines::lemma_plus_ordered(radius, far, part);
        crate::lines::lemma_plus_ordered(radius, part, near);
    }
    assert(game.begun().board_radius == radius.plus(part));
}

}
