//! Trips out of a territory: where trails begin, bend and end, and what players ask for on the way.
use crate::float64::Float64;
use crate::game::{GameView, CORNER_DISTANCE_SQUARED};
use crate::geometry::{PolygonView, NEAR_START};
use crate::player::PlayerView;
use crate::protocol::{ClientMsgView, PlayerId, Position, ServerMsgView};
use vstd::arithmetic::power2::*;
use vstd::prelude::*;

verus! {

// ---------------------------------------------------------------------------------------------
// Over the edge
// ---------------------------------------------------------------------------------------------

/// Where a way meets a side of a territory, and how far along.
pub open spec fn met_at(
    from: Position,
    to: Position,
    territory: Seq<PolygonView>,
    g: int,
    k: int,
) -> Option<(Position, Float64)> {
    crate::geometry::meeting(from, to, territory[g].exterior[k], territory[g].exterior[k + 1])
}

/// Whether there is such a side of a territory.
pub open spec fn is_side(territory: Seq<PolygonView>, g: int, k: int) -> bool {
    0 <= g < territory.len() && 0 <= k < territory[g].exterior.len() - 1
}

/// Whether a point is where a way first goes over the edge of a territory: on a side that it meets,
/// and no later than on any other, unless within the first hundredth of the way.
pub open spec fn first_met(
    from: Position,
    to: Position,
    territory: Seq<PolygonView>,
    e: Position,
) -> bool {
    exists|g: int, k: int|
        #![trigger met_at(from, to, territory, g, k)]
        is_side(territory, g, k) && (met_at(from, to, territory, g, k) matches Some((p, t)) && p
            == e && (t.lt(Float64 { bits: NEAR_START }) || forall|h: int, j: int|
            #![trigger met_at(from, to, territory, h, j)]
            is_side(territory, h, j) ==> (met_at(from, to, territory, h, j) matches Some((_, u))
                ==> t.le(u))))
}

/// Whether a way meets no side of a territory.
pub open spec fn none_met(from: Position, to: Position, territory: Seq<PolygonView>) -> bool {
    forall|g: int, k: int|
        #![trigger met_at(from, to, territory, g, k)]
        is_side(territory, g, k) ==> met_at(from, to, territory, g, k) is None
}

spec fn is_listed(sides: Seq<(Position, Position)>, a: Position, b: Position) -> bool {
    exists|i: int| 0 <= i < sides.len() && #[trigger] sides[i] == (a, b)
}

proof fn lemma_sides(territory: Seq<PolygonView>)
    ensures
        forall|g: int, k: int|
            #![trigger territory[g].exterior[k]]
            is_side(territory, g, k) ==> is_listed(
                crate::geometry::sides(territory),
                territory[g].exterior[k],
                territory[g].exterior[k + 1],
            ),
        forall|i: int|
            0 <= i < crate::geometry::sides(territory).len() ==> is_a_side(
                territory,
                #[trigger] crate::geometry::sides(territory)[i],
            ),
    decreases territory.len(),
{
    if territory.len() > 0 {
        let shorter = territory.drop_last();
        lemma_sides(shorter);
        let n = territory.len() - 1;
        let last = territory.last().exterior;
        let earlier = crate::geometry::sides(shorter);
        let own = if last.len() == 0 {
            Seq::empty()
        } else {
            crate::geometry::ring_sides(last)
        };
        let all = crate::geometry::sides(territory);
        assert(all == earlier + own);
        assert forall|g: int, k: int|
            #![trigger territory[g].exterior[k]]
            is_side(territory, g, k) implies is_listed(
            all,
            territory[g].exterior[k],
            territory[g].exterior[k + 1],
        ) by {
            let a = territory[g].exterior[k];
            let b = territory[g].exterior[k + 1];
            if g < n {
                assert(is_side(shorter, g, k));
                assert(shorter[g].exterior[k] == a);
                assert(is_listed(earlier, a, b));
                let i = choose|i: int| 0 <= i < earlier.len() && #[trigger] earlier[i] == (a, b);
                assert(all[i] == (a, b));
            } else {
                assert(own[k] == (a, b));
                assert(all[earlier.len() + k] == (a, b));
            }
        }
        assert forall|i: int| 0 <= i < all.len() implies is_a_side(
            territory,
            #[trigger] all[i],
        ) by {
            if i < earlier.len() {
                assert(all[i] == earlier[i]);
                assert(is_a_side(shorter, earlier[i]));
                let (g, k) = choose|g: int, k: int|
                    #![trigger shorter[g].exterior[k]]
                    is_side(shorter, g, k) && earlier[i] == (
                        shorter[g].exterior[k],
                        shorter[g].exterior[k + 1],
                    );
                assert(is_side(territory, g, k));
                assert(territory[g].exterior[k] == all[i].0);
            } else {
                let k = i - earlier.len();
                assert(all[i] == own[k]);
                assert(is_side(territory, n, k));
                assert(territory[n].exterior[k] == all[i].0);
            }
        }
    }
}

spec fn is_a_side(territory: Seq<PolygonView>, side: (Position, Position)) -> bool {
    exists|g: int, k: int|
        #![trigger territory[g].exterior[k]]
        is_side(territory, g, k) && side == (
            territory[g].exterior[k],
            territory[g].exterior[k + 1],
        )
}

proof fn lemma_listed_met(territory: Seq<PolygonView>, g: int, k: int) -> (m: int)
    requires
        is_side(territory, g, k),
    ensures
        0 <= m < crate::geometry::sides(territory).len(),
        crate::geometry::sides(territory)[m] == (
            territory[g].exterior[k],
            territory[g].exterior[k + 1],
        ),
{
    let all = crate::geometry::sides(territory);
    let a = territory[g].exterior[k];
    let b = territory[g].exterior[k + 1];
    lemma_sides(territory);
    assert(is_listed(all, a, b));
    choose|m: int| 0 <= m < all.len() && #[trigger] all[m] == (a, b)
}

proof fn lemma_met_listed(territory: Seq<PolygonView>, i: int) -> (found: (int, int))
    requires
        0 <= i < crate::geometry::sides(territory).len(),
    ensures
        is_side(territory, found.0, found.1),
        crate::geometry::sides(territory)[i] == (
            territory[found.0].exterior[found.1],
            territory[found.0].exterior[found.1 + 1],
        ),
{
    let all = crate::geometry::sides(territory);
    lemma_sides(territory);
    assert(is_a_side(territory, all[i]));
    choose|g: int, k: int|
        #![trigger territory[g].exterior[k]]
        is_side(territory, g, k) && all[i] == (
            territory[g].exterior[k],
            territory[g].exterior[k + 1],
        )
}

#[verifier::rlimit(50)]
proof fn lemma_boundary_point(from: Position, to: Position, territory: Seq<PolygonView>)
    ensures
        match crate::geometry::boundary_point(from, to, territory) {
            Some(e) => first_met(from, to, territory, e),
            None => none_met(from, to, territory),
        },
{
    let all = crate::geometry::sides(territory);
    crate::geometry::lemma_boundary_point_is_first(from, to, territory);
    match crate::geometry::boundary_point(from, to, territory) {
        Some(e) => {
            let (i, t) = crate::geometry::lemma_first_side_crossed(from, to, territory);
            let (g, k) = lemma_met_listed(territory, i);
            assert(met_at(from, to, territory, g, k) == Some((e, t)));
            assert(is_side(territory, g, k));
            if !t.lt(Float64 { bits: NEAR_START }) {
                assert forall|h: int, j: int|
                    #![trigger met_at(from, to, territory, h, j)]
                    is_side(territory, h, j) implies (met_at(
                    from,
                    to,
                    territory,
                    h,
                    j,
                ) matches Some((_, u)) ==> t.le(u)) by {
                    let m = lemma_listed_met(territory, h, j);
                    assert(crate::geometry::meeting(from, to, all[m].0, all[m].1) == met_at(
                        from,
                        to,
                        territory,
                        h,
                        j,
                    ));
                }
            }
        },
        None => {
            assert forall|h: int, j: int|
                #![trigger met_at(from, to, territory, h, j)]
                is_side(territory, h, j) implies met_at(from, to, territory, h, j) is None by {
                let m = lemma_listed_met(territory, h, j);
                assert(crate::geometry::meeting(from, to, all[m].0, all[m].1) is None);
            }
        },
    }
}

/// Whether a point is where a player goes over the edge of its territory: where its way first meets
/// a side of it, or where the player is if it meets none or did not move.
pub open spec fn at_the_edge(p: PlayerView, before_move: Option<Position>, e: Position) -> bool {
    match before_move {
        None => e == p.position,
        Some(from) => if none_met(from, p.position, p.territory) {
            e == p.position
        } else {
            first_met(from, p.position, p.territory, e)
        },
    }
}

proof fn lemma_at_the_edge(p: PlayerView, before_move: Option<Position>)
    ensures
        at_the_edge(p, before_move, p.edge(before_move)),
{
    if let Some(from) = before_move {
        lemma_boundary_point(from, p.position, p.territory);
        if let Some(e) = crate::geometry::boundary_point(from, p.position, p.territory) {
            let (g, k) = choose|g: int, k: int|
                #![trigger met_at(from, p.position, p.territory, g, k)]
                is_side(p.territory, g, k) && (met_at(
                    from,
                    p.position,
                    p.territory,
                    g,
                    k,
                ) matches Some((q, t)) && q == e && (t.lt(Float64 { bits: NEAR_START }) || forall|
                    h: int,
                    j: int,
                |
                    #![trigger met_at(from, p.position, p.territory, h, j)]
                    is_side(p.territory, h, j) ==> (met_at(
                        from,
                        p.position,
                        p.territory,
                        h,
                        j,
                    ) matches Some((_, u)) ==> t.le(u))));
            assert(met_at(from, p.position, p.territory, g, k) is Some);
        }
    }
}

/// Whether a player is the same but for its trail and whether it is in its territory.
pub open spec fn same_traveller(p: PlayerView, q: PlayerView) -> bool {
    q == (PlayerView {
        trail: q.trail,
        trail_aabb: q.trail_aabb,
        in_territory: q.in_territory,
        ..p
    })
}

/// Who leaves its territory begins a trail at the edge; who comes back with a trail of two corners
/// or more ends it at the edge; who comes back with less has none; and all others stay as they are.
pub proof fn lemma_trails_begin_and_end_at_the_edge(
    players: Seq<PlayerView>,
    olds: Seq<Option<Position>>,
    inside: Seq<bool>,
    i: int,
)
    requires
        0 <= i < players.len(),
        olds.len() == players.len(),
        inside.len() == players.len(),
    ensures
        ({
            let p = players[i];
            let q = crate::tick::all_placed(players, olds, inside)[i];
            &&& crate::tick::all_placed(players, olds, inside).len() == players.len()
            &&& same_traveller(p, q)
            &&& !p.alive || p.in_territory == inside[i] ==> q == p
            &&& p.alive && p.in_territory && !inside[i] ==> {
                &&& !q.in_territory
                &&& q.trail.len() == 1
                &&& at_the_edge(p, olds[i], q.trail[0])
                &&& q.trail_aabb is Some
            }
            &&& p.alive && !p.in_territory && inside[i] ==> q.in_territory && q.trail_aabb is None
            &&& p.alive && !p.in_territory && inside[i] && p.trail.len() >= 2 ==> {
                &&& q.trail.len() == p.trail.len() + 1
                &&& forall|k: int| 0 <= k < p.trail.len() ==> #[trigger] q.trail[k] == p.trail[k]
                &&& at_the_edge(p, olds[i], q.trail[p.trail.len() as int])
            }
            &&& p.alive && !p.in_territory && inside[i] && p.trail.len() < 2 ==> q.trail.len() == 0
        }),
{
    lemma_at_the_edge(players[i], olds[i]);
}

proof fn lemma_returning(players: Seq<PlayerView>, inside: Seq<bool>, n: int)
    requires
        0 <= n <= players.len(),
        crate::spoils::distinct_ids(players),
    ensures
        ({
            let back = crate::tick::returning(players.take(n), inside);
            &&& back.no_duplicates()
            &&& forall|i: int|
                #![trigger players[i]]
                0 <= i < n ==> back.contains(players[i].id) == (players[i].alive
                    && !players[i].in_territory && inside[i] && players[i].trail.len() >= 2)
            &&& forall|k: int|
                0 <= k < back.len() ==> exists|i: int|
                    0 <= i < n && (#[trigger] players[i]).id == #[trigger] back[k]
        }),
    decreases n,
{
    if n > 0 {
        lemma_returning(players, inside, n - 1);
        assert(players.take(n).drop_last() =~= players.take(n - 1));
        let earlier = crate::tick::returning(players.take(n - 1), inside);
        let back = crate::tick::returning(players.take(n), inside);
        let p = players[n - 1];
        assert(!earlier.contains(p.id)) by {
            if earlier.contains(p.id) {
                let k = choose|k: int| 0 <= k < earlier.len() && earlier[k] == p.id;
                let i = choose|i: int| 0 <= i < n - 1 && (#[trigger] players[i]).id == earlier[k];
                assert(players[i].id != players[n - 1].id);
            }
        }
        if p.alive && !p.in_territory && inside[n - 1] && p.trail.len() >= 2 {
            assert(back == earlier.push(p.id));
            assert(back[earlier.len() as int] == p.id);
        } else {
            assert(back == earlier);
        }
        assert forall|i: int| #![trigger players[i]] 0 <= i < n implies back.contains(
            players[i].id,
        ) == (players[i].alive && !players[i].in_territory && inside[i] && players[i].trail.len()
            >= 2) by {
            if i < n - 1 {
                assert(players[i].id != players[n - 1].id);
                if earlier.contains(players[i].id) {
                    let k = choose|k: int| 0 <= k < earlier.len() && earlier[k] == players[i].id;
                    assert(back[k] == players[i].id);
                }
                if back.contains(players[i].id) {
                    let k = choose|k: int| 0 <= k < back.len() && back[k] == players[i].id;
                    if k < earlier.len() {
                        assert(earlier[k] == players[i].id);
                    }
                }
            }
        }
        assert forall|k: int| 0 <= k < back.len() implies exists|i: int|
            0 <= i < n && (#[trigger] players[i]).id == #[trigger] back[k] by {
            if k < earlier.len() {
                assert(back[k] == earlier[k]);
                let i = choose|i: int| 0 <= i < n - 1 && (#[trigger] players[i]).id == earlier[k];
                assert(players[i].id == back[k]);
            } else {
                assert(players[n - 1].id == back[k]);
            }
        }
    }
}

/// Those who capture are just those who live, were outside, are inside again, and come with a trail
/// of two corners or more; each of them once.
pub proof fn lemma_who_comes_back_captures(players: Seq<PlayerView>, inside: Seq<bool>, i: int)
    requires
        crate::spoils::distinct_ids(players),
        inside.len() == players.len(),
        0 <= i < players.len(),
    ensures
        crate::tick::returning(players, inside).no_duplicates(),
        crate::tick::returning(players, inside).contains(players[i].id) == (players[i].alive
            && !players[i].in_territory && inside[i] && players[i].trail.len() >= 2),
{
    let n = players.len() as int;
    assert(players.take(n) =~= players);
    lemma_returning(players, inside, n);
}

// ---------------------------------------------------------------------------------------------
// What players ask for
// ---------------------------------------------------------------------------------------------

proof fn lemma_found_at(players: Seq<PlayerView>, i: int)
    requires
        crate::spoils::distinct_ids(players),
        0 <= i < players.len(),
    ensures
        crate::game::index_of(players, players[i].id) == Some(i),
{
    crate::game::lemma_index_of(players, players[i].id);
    let f = crate::game::index_of(players, players[i].id).unwrap();
    if f < i {
        assert(players[f].id != players[i].id);
    } else if i < f {
        assert(players[i].id != players[f].id);
    }
}

/// Whether two games are the same but for the player at one place in the list.
pub open spec fn same_but_one(a: GameView, b: GameView, i: int) -> bool {
    &&& b == (GameView { players: b.players, ..a })
    &&& b.players.len() == a.players.len()
    &&& forall|j: int|
        0 <= j < a.players.len() && j != i ==> #[trigger] b.players[j] == a.players[j]
}

/// Who steers heads the way it asks for, and so does nobody else. Its trail is as it was, or has
/// its place as one corner more; and that only of the living, outside their territories, with a
/// trail and a heading.
pub proof fn lemma_steering(game: GameView, i: int, angle: Float64, now: u64)
    requires
        crate::spoils::distinct_ids(game.players),
        0 <= i < game.players.len(),
    ensures
        ({
            let p = game.players[i];
            let after = game.told(p.id, ClientMsgView::ChangeDirection(angle), now);
            let q = after.players[i];
            &&& same_but_one(game, after, i)
            &&& !p.alive ==> q == p
            &&& p.alive ==> q.angle == angle && q == (PlayerView {
                angle,
                trail: q.trail,
                trail_aabb: q.trail_aabb,
                ..p
            })
            &&& q.trail == p.trail || q.trail == p.trail.push(p.position)
            &&& p.in_territory || p.trail.len() == 0 || p.angle.nan() ==> q.trail == p.trail
            &&& q.trail == p.trail ==> q.trail_aabb == p.trail_aabb
        }),
{
    lemma_found_at(game.players, i);
    let p = game.players[i];
    assert(p.trail.push(p.position).len() != p.trail.len());
}

/// Out of its territory, who steers leaves a corner just if it is more than a half from the last:
/// exactly, where nothing is rounded.
pub proof fn lemma_corners_are_half_apart(
    p: PlayerView,
    angle: Float64,
    x: int,
    y: int,
    a: int,
    b: int,
    k: nat,
)
    requires
        p.alive,
        !p.in_territory,
        p.trail.len() > 0,
        !p.angle.nan(),
        1 <= k <= 400,
        crate::exact::is_at(p.position, x, y, k),
        crate::exact::is_at(p.trail.last(), a, b, k),
        -0x80_0000 <= x - a <= 0x80_0000,
        -0x80_0000 <= y - b <= 0x80_0000,
    ensures
        (p.steered(angle).trail.len() > p.trail.len()) == ((x - a) * (x - a) + (y - b) * (y - b)
            > pow2((2 * k - 2) as nat)),
        p.steered(angle).trail.len() > p.trail.len() ==> p.steered(angle).trail == p.trail.push(
            p.position,
        ),
{
    let last = p.trail.last();
    let dx = p.position.x.minus(last.x);
    let dy = p.position.y.minus(last.y);
    let c = x - a;
    let d = y - b;
    let quarter = Float64 { bits: CORNER_DISTANCE_SQUARED };
    crate::exact::lemma_constants();
    crate::exact::lemma_minus_exact(p.position.x, x, last.x, a, k);
    crate::exact::lemma_minus_exact(p.position.y, y, last.y, b, k);
    crate::places::lemma_small_square(c);
    crate::places::lemma_small_square(d);
    crate::exact::lemma_times_exact(dx, c, k, dx, c, k);
    crate::exact::lemma_times_exact(dy, d, k, dy, d, k);
    crate::exact::lemma_plus_exact(dx.times(dx), c * c, dy.times(dy), d * d, k + k);
    crate::exact::lemma_finer(quarter, 1, 2, (2 * k - 2) as nat);
    crate::exact::lemma_order_exact(
        quarter,
        pow2((2 * k - 2) as nat) as int,
        dx.times(dx).plus(dy.times(dy)),
        c * c + d * d,
        k + k,
    );
}

/// A ping is answered to who sent it, with the time that it brought, and changes nothing else.
pub proof fn lemma_ping_is_answered(game: GameView, i: int, timestamp: Float64, now: u64)
    requires
        0 <= i < game.players.len(),
    ensures
        ({
            let id = game.players[i].id;
            let after = game.told(id, ClientMsgView::Ping(timestamp), now);
            let n = game.outbox.len() as int;
            &&& after == (GameView { outbox: after.outbox, ..game })
            &&& after.outbox.len() == n + 1
            &&& forall|k: int| 0 <= k < n ==> #[trigger] after.outbox[k] == game.outbox[k]
            &&& after.outbox[n].recipients == seq![id]
            &&& after.outbox[n].msg == ServerMsgView::Pong(timestamp)
        }),
{
    crate::game::lemma_index_of(game.players, game.players[i].id);
}

/// A player has the sprite and the name that it asks for, of a long name the first twenty
/// characters.
pub proof fn lemma_dressing(game: GameView, i: int, sprite_id: u32, name: Seq<char>, now: u64)
    requires
        crate::spoils::distinct_ids(game.players),
        0 <= i < game.players.len(),
    ensures
        ({
            let p = game.players[i];
            let dressed = game.told(p.id, ClientMsgView::SetSprite(sprite_id), now);
            let named = game.told(p.id, ClientMsgView::SetName(name), now);
            &&& same_but_one(game, dressed, i)
            &&& dressed.players[i] == (PlayerView { sprite_id, ..p })
            &&& same_but_one(game, named, i)
            &&& named.players[i] == (PlayerView { name: named.players[i].name, ..p })
            &&& named.players[i].name.len() == if name.len() < 20 {
                name.len()
            } else {
                20
            }
            &&& named.players[i].name.is_prefix_of(name)
        }),
{
    lemma_found_at(game.players, i);
}

/// A boost takes one point and lasts five seconds from now; without a point nothing happens.
pub proof fn lemma_boost_takes_a_point(game: GameView, i: int, now: u64)
    requires
        crate::spoils::distinct_ids(game.players),
        0 <= i < game.players.len(),
        now + 5_000_000_000 <= u64::MAX,
    ensures
        ({
            let p = game.players[i];
            let after = game.told(p.id, ClientMsgView::ActivateBoost, now);
            let q = after.players[i];
            &&& same_but_one(game, after, i)
            &&& p.boost_points == 0 ==> q == p
            &&& p.boost_points > 0 ==> {
                &&& q.boost_points == p.boost_points - 1
                &&& forall|t: u64|
                    #![trigger crate::motion::boost_lasts(q, t)]
                    crate::motion::boost_lasts(q, t) == (t < now + 5_000_000_000)
                &&& q == (PlayerView {
                    boost_points: q.boost_points,
                    boost_until: q.boost_until,
                    ..p
                })
            }
        }),
{
    lemma_found_at(game.players, i);
}

/// Whatever a stranger asks for, nothing happens.
pub proof fn lemma_strangers_change_nothing(
    game: GameView,
    id: PlayerId,
    msg: ClientMsgView,
    now: u64,
)
    requires
        !crate::spoils::there(game.players, id),
    ensures
        game.told(id, msg, now) == game,
{
    crate::game::lemma_index_of(game.players, id);
}

}
