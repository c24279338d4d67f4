//! Whoever is in sight is found by a grid that is up to date: cells are wide enough.
use crate::float64::{Float64, INFINITY_BITS};
use crate::game::{GameView, SPATIAL_CELL_SIZE};
use crate::player::PlayerView;
use crate::protocol::{PlayerId, Position, VISIBILITY_RADIUS};
use vstd::arithmetic::power2::*;
use vstd::prelude::*;

verus! {

/// A quarter of one, in units.
spec fn quarter() -> nat {
    pow2(1072)
}

proof fn lemma_quarter()
    ensures
        crate::float64::unity() == 4 * quarter(),
        quarter() > 0,
{
    lemma_pow2_adds(2, 1072);
    lemma2_to64();
    lemma_pow2_pos(1072);
}

// ---------------------------------------------------------------------------------------------
// Cells
// ---------------------------------------------------------------------------------------------

spec fn side() -> Float64 {
    Float64 { bits: SPATIAL_CELL_SIZE }
}

proof fn lemma_side()
    ensures
        crate::float64::units(side().magnitude()) == 500 * crate::float64::unity(),
        !side().negative(),
        !side().nan(),
        !side().infinite(),
        side().magnitude() > 0,
{
    let n = SPATIAL_CELL_SIZE as nat;
    assert(n / 0x0010_0000_0000_0000 == 1031 && n % 0x0010_0000_0000_0000 == 0xf_4000_0000_0000);
    lemma_pow2_adds(1030, 44);
    lemma2_to64_rest();
    assert(pow2(44) == 0x1000_0000_0000);
    let p = pow2(1030);
    assert(0x1f_4000_0000_0000 * p == 500 * (p * 0x1000_0000_0000)) by (nonlinear_arith);
}

/// The number of cells from the middle of the board to a coordinate keeps the order of quarters
/// of a cell.
proof fn lemma_cells_ordered(x: Float64, m: int)
    requires
        !x.nan(),
        !x.infinite(),
        -0x10_0000_0000 < m < 0x10_0000_0000,
    ensures
        ({
            let q = x.over(side());
            &&& !q.nan()
            &&& x.value() <= 500 * (m * quarter()) ==> q.value() <= m * quarter()
            &&& x.value() >= 500 * (m * quarter()) ==> q.value() >= m * quarter()
        }),
{
    reveal(crate::float64::quotient);
    lemma_side();
    lemma_quarter();
    let size = if m < 0 {
        (-m) as nat
    } else {
        m as nat
    };
    let k = crate::rounding::lemma_small_multiple(size, 1072);
    let u = crate::float64::units(x.magnitude());
    let one = crate::float64::unity();
    let den = 500 * one;
    let num = u * one;
    let w = crate::float64::units(k);
    let n = crate::float64::rounded(num, den);
    crate::rounding::lemma_rounded_is_nearest(num, den);
    assert(m < 0 ==> m * quarter() == -w) by (nonlinear_arith)
        requires
            m < 0 ==> size == -m,
            w == size * quarter(),
    ;
    assert(m >= 0 ==> m * quarter() == w);
    assert(u <= 500 * w ==> num <= den * w) by (nonlinear_arith)
        requires
            num == u * one,
            den == 500 * one,
    ;
    assert(u >= 500 * w ==> num >= den * w) by (nonlinear_arith)
        requires
            num == u * one,
            den == 500 * one,
    ;
    if u <= 500 * w {
        crate::rounding::lemma_rounded_at_most(num, den, k);
        if n < k {
            crate::float64::lemma_units_ordered(n, k);
        }
    }
    if u >= 500 * w {
        crate::rounding::lemma_rounded_at_least(num, den, k);
        if k < n {
            crate::float64::lemma_units_ordered(k, n);
        }
    }
}

/// Two coordinates within sight of each other are in the same cell or in cells side by side.
proof fn lemma_cells_beside(x: Float64, y: Float64)
    requires
        x.minus(y).abs().le(Float64 { bits: VISIBILITY_RADIUS }),
    ensures
        crate::float64::floor_clipped(x.over(side())) <= crate::float64::floor_clipped(
            y.over(side()),
        ) + 1,
        crate::float64::floor_clipped(y.over(side())) <= crate::float64::floor_clipped(
            x.over(side()),
        ) + 1,
{
    lemma_near_exactly(x, y);
    lemma_not_two_cells_on(x, y);
    lemma_not_two_cells_on(y, x);
}

/// Numbers within sight of each other are less than 251 apart.
proof fn lemma_near_exactly(x: Float64, y: Float64)
    requires
        x.minus(y).abs().le(Float64 { bits: VISIBILITY_RADIUS }),
    ensures
        !x.nan(),
        !x.infinite(),
        !y.nan(),
        !y.infinite(),
        -251 * crate::float64::unity() < x.value() - y.value() < 251 * crate::float64::unity(),
{
    reveal(crate::float64::sum);
    crate::rounding::lemma_negated_parts(y);
    lemma_quarter();
    let sight = Float64 { bits: VISIBILITY_RADIUS };
    let s = VISIBILITY_RADIUS as nat;
    let one = crate::float64::unity();
    assert(crate::float64::units(s) == 250 * one) by {
        assert(s / 0x0010_0000_0000_0000 == 1030 && s % 0x0010_0000_0000_0000
            == 0xf_4000_0000_0000);
        lemma_pow2_adds(1029, 45);
        lemma2_to64_rest();
        assert(pow2(45) == 0x2000_0000_0000);
        let p = pow2(1029);
        assert(0x1f_4000_0000_0000 * p == 250 * (p * 0x2000_0000_0000)) by (nonlinear_arith);
    }
    crate::float64::lemma_units_ordered(s, INFINITY_BITS as nat);
    let exact = x.value() - y.value();
    assert(!x.nan() && !y.nan());
    if x.infinite() || y.infinite() {
        assert(x.minus(y).magnitude() >= INFINITY_BITS);
        assert(false);
    }
    assert(x.value() + y.negated().value() == exact);
    let size = if exact < 0 {
        (-exact) as nat
    } else {
        exact as nat
    };
    if size >= 251 * one {
        lemma_pow2_pos(1074);
        let k = crate::rounding::lemma_small_multiple(251, 1074);
        crate::rounding::lemma_rounded_is_nearest(size, 1);
        crate::rounding::lemma_rounded_at_least(size, 1, k);
        let n = crate::float64::rounded(size, 1);
        if k < n {
            crate::float64::lemma_units_ordered(k, n);
        }
        assert(x.minus(y).abs().magnitude() == n);
        assert(false);
    }
}

proof fn lemma_not_two_cells_on(x: Float64, y: Float64)
    requires
        !x.nan(),
        !x.infinite(),
        !y.nan(),
        !y.infinite(),
        y.value() - x.value() < 251 * crate::float64::unity(),
    ensures
        crate::float64::floor_clipped(y.over(side())) <= crate::float64::floor_clipped(
            x.over(side()),
        ) + 1,
{
    reveal(crate::float64::floor_clipped);
    lemma_quarter();
    let one = crate::float64::unity() as int;
    let q = quarter() as int;
    let a = x.over(side());
    let b = y.over(side());
    let c = crate::float64::floor_clipped(a);
    let d = crate::float64::floor_clipped(b);
    lemma_cells_ordered(x, 0);
    lemma_cells_ordered(y, 0);
    if d >= c + 2 {
        lemma_cells_ordered(x, 4 * (c + 1));
        lemma_cells_ordered(y, 4 * c + 7);
        // The first coordinate is short of the next cell.
        assert(a.value() / one <= c);
        assert(a.value() < (c + 1) * one) by (nonlinear_arith)
            requires
                a.value() / one <= c,
                one > 0,
        ;
        assert((4 * (c + 1)) * q == (c + 1) * one) by (nonlinear_arith)
            requires
                one == 4 * q,
        ;
        assert(x.value() < 500 * ((4 * (c + 1)) * q));
        // The second is at least in the one after.
        assert(b.value() / one >= d);
        assert(b.value() >= (c + 2) * one) by (nonlinear_arith)
            requires
                b.value() / one >= d,
                d >= c + 2,
                one > 0,
        ;
        assert((4 * c + 7) * q < (c + 2) * one) by (nonlinear_arith)
            requires
                one == 4 * q,
                q > 0,
        ;
        assert(y.value() > 500 * ((4 * c + 7) * q));
        assert(500 * ((4 * c + 7) * q) - 500 * ((4 * (c + 1)) * q) == 375 * one)
            by (nonlinear_arith)
            requires
                one == 4 * q,
        ;
        assert(false);
    }
}

// ---------------------------------------------------------------------------------------------
// The grid
// ---------------------------------------------------------------------------------------------

proof fn lemma_entered_in_its_cell(players: Seq<PlayerView>, i: int)
    requires
        0 <= i < players.len(),
        players[i].alive,
    ensures
        crate::spatial_hash::in_cell(
            crate::tick::entered(side(), players),
            crate::spatial_hash::cell_of(side(), players[i].position),
        ).contains(players[i].id),
    decreases players.len(),
{
    let n = players.len() - 1;
    let shorter = players.drop_last();
    let earlier = crate::tick::entered(side(), shorter);
    let all = crate::tick::entered(side(), players);
    let key = crate::spatial_hash::cell_of(side(), players[i].position);
    let before = crate::spatial_hash::in_cell(earlier, key);
    let after = crate::spatial_hash::in_cell(all, key);
    if i == n {
        assert(after.last() == players[i].id);
        assert(after[after.len() - 1] == players[i].id);
    } else {
        lemma_entered_in_its_cell(shorter, i);
        assert(shorter[i] == players[i]);
        let k = choose|k: int| 0 <= k < before.len() && before[k] == players[i].id;
        assert(after[k] == players[i].id);
    }
}

/// Whoever lives and is in sight of a point is among those whom a grid that is up to date finds
/// around the point.
pub proof fn lemma_in_sight_is_found(game: GameView, i: int, at: Position)
    requires
        game.cell_size == (Float64 { bits: SPATIAL_CELL_SIZE }),
        game.cells == crate::tick::entered(game.cell_size, game.players),
        0 <= i < game.players.len(),
        game.players[i].alive,
        crate::game::near(game.players[i].position, at, crate::game::sight()),
    ensures
        game.found_around(at).contains(game.players[i].id),
{
    let p = game.players[i].position;
    let key = crate::spatial_hash::cell_of(side(), p);
    let from = crate::spatial_hash::cell_of(side(), at);
    lemma_entered_in_its_cell(game.players, i);
    lemma_cells_beside(p.x, at.x);
    lemma_cells_beside(p.y, at.y);
    lemma_floor_fits(p.x.over(side()));
    lemma_floor_fits(p.y.over(side()));
    lemma_floor_fits(at.x.over(side()));
    lemma_floor_fits(at.y.over(side()));
    crate::spatial_hash::lemma_cell_is_nearby(game.cells, key, game.players[i].id, from);
}

proof fn lemma_floor_fits(a: Float64)
    ensures
        a.floor_i32() == crate::float64::floor_clipped(a),
{
    reveal(crate::float64::floor_clipped);
}

/// Right after the grid was brought up to date, whoever lives sees and is told of everyone alive
/// in its sight.
pub proof fn lemma_in_sight_is_told(
    game: GameView,
    i: int,
    at: Position,
    crown: Option<PlayerId>,
    now: u64,
)
    requires
        game.cell_size == (Float64 { bits: SPATIAL_CELL_SIZE }),
        game.cells == crate::tick::entered(game.cell_size, game.players),
        0 <= i < game.players.len(),
        game.players[i].alive,
        crate::game::near(game.players[i].position, at, crate::game::sight()),
    ensures
        crate::broadcast::visible(
            game.players,
            game.found_around(at),
            at,
            crown,
            now,
        ).contains(
            game.players[i].shown(crown == Some(game.players[i].id), now),
        ),
{
    lemma_in_sight_is_found(game, i, at);
    lemma_found_is_visible(game.players, i, game.found_around(at), at, crown, now);
}

proof fn lemma_found_is_visible(
    players: Seq<PlayerView>,
    i: int,
    found: Seq<PlayerId>,
    at: Position,
    crown: Option<PlayerId>,
    now: u64,
)
    requires
        0 <= i < players.len(),
        players[i].alive,
        found.contains(players[i].id),
        crate::game::near(players[i].position, at, crate::game::sight()),
    ensures
        crate::broadcast::visible(players, found, at, crown, now).contains(
            players[i].shown(crown == Some(players[i].id), now),
        ),
    decreases players.len(),
{
    let n = players.len() - 1;
    let shown = players[i].shown(crown == Some(players[i].id), now);
    let all = crate::broadcast::visible(players, found, at, crown, now);
    let earlier = crate::broadcast::visible(players.drop_last(), found, at, crown, now);
    if i == n {
        assert(all[all.len() - 1] == shown);
    } else {
        lemma_found_is_visible(players.drop_last(), i, found, at, crown, now);
        let k = choose|k: int| 0 <= k < earlier.len() && earlier[k] == shown;
        assert(all[k] == shown);
    }
}

}
