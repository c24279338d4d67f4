//! Where players go: told from their headings and the time, axis by axis.
use crate::float64::{Float64, INFINITY_BITS};
use crate::game::ONE_AND_A_HALF;
use crate::player::PlayerView;
use crate::protocol::{Position, PLAYER_SPEED};
use crate::tick::Motion;
use vstd::prelude::*;

verus! {

// ---------------------------------------------------------------------------------------------
// Up and down
// ---------------------------------------------------------------------------------------------

/// A number and one that is not negative are not below the number.
pub proof fn lemma_plus_up(a: Float64, b: Float64)
    requires
        a.magnitude() < INFINITY_BITS,
        !b.nan(),
        b.value() >= 0,
    ensures
        !a.plus(b).nan(),
        a.plus(b).value() >= a.value(),
{
    reveal(crate::float64::sum);
    let u = a.magnitude();
    assert(crate::float64::units(0) == 0);
    crate::float64::lemma_units_ordered(u, INFINITY_BITS as nat);
    if b.infinite() {
        if b.negative() {
            crate::float64::lemma_units_ordered(0, b.magnitude());
        }
    } else {
        let exact = a.value() + b.value();
        if exact > 0 {
            crate::rounding::lemma_rounded_is_nearest(exact as nat, 1);
            let r = crate::float64::rounded(exact as nat, 1);
            if !a.negative() {
                crate::rounding::lemma_rounded_at_least(exact as nat, 1, u);
                if u < r {
                    crate::float64::lemma_units_ordered(u, r);
                }
            }
        } else if exact < 0 {
            crate::rounding::lemma_rounded_is_nearest((-exact) as nat, 1);
            crate::rounding::lemma_rounded_at_most((-exact) as nat, 1, u);
            let r = crate::float64::rounded((-exact) as nat, 1);
            if r < u {
                crate::float64::lemma_units_ordered(r, u);
            }
        }
    }
}

/// A number and one that is not positive are not above the number.
pub proof fn lemma_plus_down(a: Float64, b: Float64)
    requires
        a.magnitude() < INFINITY_BITS,
        !b.nan(),
        b.value() <= 0,
    ensures
        !a.plus(b).nan(),
        a.plus(b).value() <= a.value(),
{
    reveal(crate::float64::sum);
    let u = a.magnitude();
    assert(crate::float64::units(0) == 0);
    crate::float64::lemma_units_ordered(u, INFINITY_BITS as nat);
    if b.infinite() {
        if !b.negative() {
            crate::float64::lemma_units_ordered(0, b.magnitude());
        }
    } else {
        let exact = a.value() + b.value();
        if exact < 0 {
            crate::rounding::lemma_rounded_is_nearest((-exact) as nat, 1);
            let r = crate::float64::rounded((-exact) as nat, 1);
            if a.negative() {
                crate::rounding::lemma_rounded_at_least((-exact) as nat, 1, u);
                if u < r {
                    crate::float64::lemma_units_ordered(u, r);
                }
            }
        } else if exact > 0 {
            crate::rounding::lemma_rounded_is_nearest(exact as nat, 1);
            crate::rounding::lemma_rounded_at_most(exact as nat, 1, u);
            let r = crate::float64::rounded(exact as nat, 1);
            if r < u {
                crate::float64::lemma_units_ordered(r, u);
            }
        }
    }
}

/// A number times a positive one keeps its sign.
pub proof fn lemma_times_positive(a: Float64, b: Float64)
    requires
        !a.nan(),
        b.magnitude() < INFINITY_BITS,
        b.value() > 0,
    ensures
        !a.times(b).nan(),
        a.times(b).negative() == a.negative(),
        a.value() == 0 ==> a.times(b).value() == 0,
{
    reveal(crate::float64::product);
    assert(crate::float64::units(0) == 0);
    assert(!b.negative() && b.magnitude() > 0);
    if a.magnitude() > 0 {
        crate::float64::lemma_units_ordered(0, a.magnitude());
    }
    if !a.infinite() {
        let u = crate::float64::units(a.magnitude());
        let v = crate::float64::units(b.magnitude());
        let one = crate::float64::unity();
        crate::rounding::lemma_units_of_one();
        crate::rounding::lemma_rounded_is_nearest(u * v, one);
        if a.magnitude() == 0 {
            assert(u * v == 0) by (nonlinear_arith)
                requires
                    u == 0,
            ;
            crate::rounding::lemma_rounded_exact(0, one, 0);
        }
    }
}

proof fn lemma_step_sign(direction: Float64, factor: Float64, dt: Float64)
    requires
        direction.magnitude() < INFINITY_BITS,
        factor.magnitude() < INFINITY_BITS,
        factor.value() > 0,
        dt.magnitude() < INFINITY_BITS,
        dt.value() > 0,
    ensures
        ({
            let step = direction.times(Float64 { bits: PLAYER_SPEED }).times(factor).times(dt);
            &&& !step.nan()
            &&& direction.value() > 0 ==> step.value() >= 0
            &&& direction.value() < 0 ==> step.value() <= 0
            &&& direction.value() == 0 ==> step.value() == 0
        }),
{
    let speed = Float64 { bits: PLAYER_SPEED };
    crate::exact::lemma_constants();
    crate::exact::lemma_order_exact(speed, 25, speed, 25, 1);
    vstd::arithmetic::power2::lemma_pow2_pos(1073);
    assert(speed.value() > 0);
    lemma_times_positive(direction, speed);
    lemma_times_positive(direction.times(speed), factor);
    lemma_times_positive(direction.times(speed).times(factor), dt);
    assert(crate::float64::units(0) == 0);
}

proof fn lemma_half_again_positive(a: Float64)
    requires
        a.magnitude() < INFINITY_BITS,
        a.value() > 0,
    ensures
        a.times(Float64 { bits: ONE_AND_A_HALF }).value() > 0,
{
    reveal(crate::float64::product);
    let b = Float64 { bits: ONE_AND_A_HALF };
    let one = crate::float64::unity();
    let u = crate::float64::units(a.magnitude());
    let v = crate::float64::units(b.magnitude());
    assert(crate::float64::units(0) == 0);
    crate::rounding::lemma_units_of_one();
    crate::float64::lemma_units_ordered(crate::geometry::ONE as nat, ONE_AND_A_HALF as nat);
    assert(u * v >= one * u) by (nonlinear_arith)
        requires
            v >= one,
            u >= 0,
    ;
    crate::rounding::lemma_rounded_is_nearest(u * v, one);
    crate::rounding::lemma_rounded_at_least(u * v, one, a.magnitude());
    let r = crate::float64::rounded(u * v, one);
    assert(a.magnitude() > 0);
    crate::float64::lemma_units_ordered(0, r);
}

// ---------------------------------------------------------------------------------------------
// Movements
// ---------------------------------------------------------------------------------------------

/// Whether a boost of the player lasts.
pub open spec fn boost_lasts(p: PlayerView, now: u64) -> bool {
    match p.boost_until {
        Some(until) => now < until,
        None => false,
    }
}

/// Each player goes its own way, axis by axis: up where the sine of its heading is positive, down
/// where it is negative, and right or left by the cosine. Nothing is lost of the other coordinate.
pub proof fn lemma_moves_along_its_heading(
    players: Seq<PlayerView>,
    motions: Seq<Motion>,
    dt: Float64,
    now: u64,
    i: int,
)
    requires
        0 <= i < players.len(),
        motions.len() == players.len(),
        players[i].alive,
        !players[i].angle.nan(),
        players[i].position.x.magnitude() < INFINITY_BITS,
        players[i].position.y.magnitude() < INFINITY_BITS,
        motions[i].cos.magnitude() < INFINITY_BITS,
        motions[i].sin.magnitude() < INFINITY_BITS,
        motions[i].factor.magnitude() < INFINITY_BITS,
        motions[i].factor.value() > 0,
        motions[i].factor.times(Float64 { bits: ONE_AND_A_HALF }).magnitude() < INFINITY_BITS,
        dt.magnitude() < INFINITY_BITS,
        dt.value() > 0,
    ensures
        ({
            let here = players[i].position;
            let there = crate::tick::all_moved(players, motions, dt, now)[i].position;
            &&& !there.x.nan()
            &&& !there.y.nan()
            &&& motions[i].cos.value() >= 0 ==> there.x.value() >= here.x.value()
            &&& motions[i].cos.value() <= 0 ==> there.x.value() <= here.x.value()
            &&& motions[i].sin.value() >= 0 ==> there.y.value() >= here.y.value()
            &&& motions[i].sin.value() <= 0 ==> there.y.value() <= here.y.value()
        }),
{
    let p = players[i];
    let m = motions[i];
    let factor = if boost_lasts(p, now) {
        m.factor.times(Float64 { bits: ONE_AND_A_HALF })
    } else {
        m.factor
    };
    let speed = Float64 { bits: PLAYER_SPEED };
    lemma_half_again_positive(m.factor);
    lemma_step_sign(m.cos, factor, dt);
    lemma_step_sign(m.sin, factor, dt);
    let dx = m.cos.times(speed).times(factor).times(dt);
    let dy = m.sin.times(speed).times(factor).times(dt);
    if dx.value() >= 0 {
        lemma_plus_up(p.position.x, dx);
    }
    if dx.value() <= 0 {
        lemma_plus_down(p.position.x, dx);
    }
    if dy.value() >= 0 {
        lemma_plus_up(p.position.y, dy);
    }
    if dy.value() <= 0 {
        lemma_plus_down(p.position.y, dy);
    }
}

proof fn lemma_step_exact(
    direction: Float64,
    c: int,
    i: nat,
    factor: Float64,
    f: int,
    j: nat,
    dt: Float64,
    d: int,
    k: nat,
)
    requires
        crate::exact::is_parts(direction, c, i),
        crate::exact::is_parts(factor, f, j),
        crate::exact::is_parts(dt, d, k),
        i + j + k <= 1000,
        crate::exact::few(c * 25),
        crate::exact::few(c * 25 * f),
        crate::exact::few(c * 25 * f * d),
    ensures
        crate::exact::is_parts(
            direction.times(Float64 { bits: PLAYER_SPEED }).times(factor).times(dt),
            c * 25 * f * d,
            i + 1 + j + k,
        ),
{
    let speed = Float64 { bits: PLAYER_SPEED };
    crate::exact::lemma_constants();
    crate::exact::lemma_times_exact(direction, c, i, speed, 25, 1);
    crate::exact::lemma_times_exact(direction.times(speed), c * 25, i + 1, factor, f, j);
    crate::exact::lemma_times_exact(
        direction.times(speed).times(factor),
        c * 25 * f,
        i + 1 + j,
        dt,
        d,
        k,
    );
}

/// Where nothing is rounded, a player goes its direction times twelve and a half times its factor
/// times the time: in parts, by `25 * f * d` for each part of the direction.
pub proof fn lemma_moves_exactly(
    players: Seq<PlayerView>,
    motions: Seq<Motion>,
    dt: Float64,
    now: u64,
    n: int,
    x: int,
    y: int,
    c: int,
    s: int,
    i: nat,
    f: int,
    j: nat,
    d: int,
    k: nat,
)
    requires
        0 <= n < players.len(),
        motions.len() == players.len(),
        players[n].alive,
        !players[n].angle.nan(),
        !boost_lasts(players[n], now),
        i + j + k <= 1000,
        crate::exact::is_at(players[n].position, x, y, i + 1 + j + k),
        crate::exact::is_parts(motions[n].cos, c, i),
        crate::exact::is_parts(motions[n].sin, s, i),
        crate::exact::is_parts(motions[n].factor, f, j),
        crate::exact::is_parts(dt, d, k),
        crate::exact::few(c * 25) && crate::exact::few(c * 25 * f),
        crate::exact::few(s * 25) && crate::exact::few(s * 25 * f),
        crate::exact::few(c * 25 * f * d) && crate::exact::few(s * 25 * f * d),
        crate::exact::few(x + c * 25 * f * d) && crate::exact::few(y + s * 25 * f * d),
    ensures
        crate::exact::is_at(
            crate::tick::all_moved(players, motions, dt, now)[n].position,
            x + c * 25 * f * d,
            y + s * 25 * f * d,
            i + 1 + j + k,
        ),
{
    let p = players[n];
    let m = motions[n];
    let speed = Float64 { bits: PLAYER_SPEED };
    lemma_step_exact(m.cos, c, i, m.factor, f, j, dt, d, k);
    lemma_step_exact(m.sin, s, i, m.factor, f, j, dt, d, k);
    let dx = m.cos.times(speed).times(m.factor).times(dt);
    let dy = m.sin.times(speed).times(m.factor).times(dt);
    crate::exact::lemma_plus_exact(p.position.x, x, dx, c * 25 * f * d, i + 1 + j + k);
    crate::exact::lemma_plus_exact(p.position.y, y, dy, s * 25 * f * d, i + 1 + j + k);
}

/// A player with its heading turned to the other axis: right for up, up for right.
pub open spec fn mirrored(m: Motion) -> Motion {
    Motion { cos: m.sin, sin: m.cos, factor: m.factor }
}

/// The two axes are alike: who starts at the mirrored point and heads the mirrored way comes to the
/// mirrored point, whatever the numbers are.
pub proof fn lemma_axes_alike(p: PlayerView, q: PlayerView, motion: Motion, dt: Float64, now: u64)
    requires
        q.alive == p.alive,
        q.angle.nan() == p.angle.nan(),
        q.boost_until == p.boost_until,
        q.position == (Position { x: p.position.y, y: p.position.x }),
    ensures
        q.moved(mirrored(motion), dt, now).position.x == p.moved(motion, dt, now).position.y,
        q.moved(mirrored(motion), dt, now).position.y == p.moved(motion, dt, now).position.x,
{
}

/// A boost that lasts is worth half as much again of the factor, and one that is over is worth
/// nothing and is forgotten.
pub proof fn lemma_boost_is_half_as_fast_again(
    p: PlayerView,
    q: PlayerView,
    motion: Motion,
    dt: Float64,
    now: u64,
    f: int,
    j: nat,
)
    requires
        p.alive && q.alive,
        !p.angle.nan() && !q.angle.nan(),
        p.position == q.position,
        boost_lasts(p, now),
        !boost_lasts(q, now),
        crate::exact::is_parts(motion.factor, f, j),
        j <= 1000,
        crate::exact::few(3 * f),
    ensures
        q.moved(motion, dt, now).boost_until is None,
        p.moved(motion, dt, now).boost_until == p.boost_until,
        exists|factor: Float64|
            #![trigger crate::exact::is_parts(factor, f * 3, j + 1)]
            crate::exact::is_parts(factor, f * 3, j + 1) && p.moved(motion, dt, now).position
                == q.moved(Motion { factor, ..motion }, dt, now).position,
{
    crate::exact::lemma_constants();
    let factor = motion.factor.times(Float64 { bits: ONE_AND_A_HALF });
    crate::exact::lemma_times_exact(
        motion.factor,
        f,
        j,
        Float64 { bits: ONE_AND_A_HALF },
        3,
        1,
    );
    assert(crate::exact::is_parts(factor, f * 3, j + 1));
}

/// Who is dead or has no heading stays as it is; who moves keeps all but its place, the boost that
/// is over and the box around its trail.
pub proof fn lemma_only_movers_move(
    players: Seq<PlayerView>,
    motions: Seq<Motion>,
    dt: Float64,
    now: u64,
    i: int,
)
    requires
        0 <= i < players.len(),
        motions.len() == players.len(),
    ensures
        ({
            let p = players[i];
            let q = crate::tick::all_moved(players, motions, dt, now)[i];
            let from = crate::tick::all_left_from(players)[i];
            &&& crate::tick::all_moved(players, motions, dt, now).len() == players.len()
            &&& crate::tick::all_left_from(players).len() == players.len()
            &&& !p.alive || p.angle.nan() ==> q == p && from is None
            &&& p.alive && !p.angle.nan() ==> from == Some(p.position)
            &&& q.id == p.id && q.angle == p.angle && q.color == p.color
            &&& q.territory == p.territory && q.trail == p.trail
            &&& q.in_territory == p.in_territory && q.alive == p.alive
            &&& q.sprite_id == p.sprite_id && q.name == p.name
            &&& q.kill_count == p.kill_count && q.boost_points == p.boost_points
            &&& q.last_territory_version == p.last_territory_version
            &&& boost_lasts(p, now) ==> q.boost_until == p.boost_until
        }),
{
}

/// Out of its territory, who moves has its place and every corner of its trail in the box around
/// the trail.
pub proof fn lemma_trail_box_follows(p: PlayerView, motion: Motion, dt: Float64, now: u64, k: int)
    requires
        p.alive,
        !p.angle.nan(),
        !p.in_territory,
        0 <= k < p.trail.len(),
        forall|i: int|
            #![trigger p.trail[i]]
            0 <= i < p.trail.len() ==> !p.trail[i].x.nan() && !p.trail[i].y.nan(),
        !p.moved(motion, dt, now).position.x.nan(),
        !p.moved(motion, dt, now).position.y.nan(),
    ensures
        ({
            let q = p.moved(motion, dt, now);
            &&& q.trail_aabb matches Some(b) && b.min_x.value() <= q.position.x.value()
                <= b.max_x.value() && b.min_y.value() <= q.position.y.value() <= b.max_y.value()
                && b.min_x.value() <= p.trail[k].x.value() <= b.max_x.value() && b.min_y.value()
                <= p.trail[k].y.value() <= b.max_y.value()
        }),
{
    crate::geometry::lemma_enclosing_holds_each(p.trail, k);
}

}
