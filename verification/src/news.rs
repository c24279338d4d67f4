//! Comings and goings: what newcomers start with, and who hears of what.
use crate::float64::Float64;
use crate::game::{GameView, PacketView};
use crate::geometry::PolygonView;
use crate::player::PlayerView;
use crate::protocol::{PlayerId, Position, ServerMsgView, STARTING_TERRITORY_RADIUS};
use vstd::arithmetic::power2::*;
use vstd::prelude::*;

verus! {

// ---------------------------------------------------------------------------------------------
// Who hears of changed territories
// ---------------------------------------------------------------------------------------------

/// Whether one point is at most 375 from another along each axis, as differences are rounded.
pub open spec fn in_earshot(p: Position, from: Position) -> bool {
    &&& !p.x.minus(from.x).nan() && !p.y.minus(from.y).nan()
    &&& -375 * pow2(1074) <= p.x.minus(from.x).value() <= 375 * pow2(1074)
    &&& -375 * pow2(1074) <= p.y.minus(from.y).value() <= 375 * pow2(1074)
}

proof fn lemma_in_earshot(p: Position, from: Position)
    ensures
        crate::game::near(p, from, crate::game::far_sight()) == in_earshot(p, from),
{
    crate::exact::lemma_constants();
    crate::exact::lemma_times_exact(
        crate::game::sight(),
        250,
        0,
        Float64 { bits: crate::game::ONE_AND_A_HALF },
        3,
        1,
    );
    lemma_pow2_unfold(1074);
    let a = p.x.minus(from.x);
    let b = p.y.minus(from.y);
    assert(a.abs().value() == crate::float64::units(a.magnitude()));
    assert(b.abs().value() == crate::float64::units(b.magnitude()));
    assert(crate::game::far_sight().value() == 375 * pow2(1074));
}

/// Of some players those who are told of the territories have seen them as they are, and the others
/// are as they were.
pub proof fn lemma_snapshots_reach(game: GameView, ids: Seq<PlayerId>, j: int)
    requires
        crate::spoils::distinct_ids(game.players),
        0 <= j < game.players.len(),
    ensures
        ({
            let after = game.snapshots_sent(ids);
            &&& after.players.len() == game.players.len()
            &&& after.territory_version == game.territory_version
            &&& ids.contains(game.players[j].id) ==> after.players[j] == (PlayerView {
                last_territory_version: game.territory_version,
                ..game.players[j]
            })
            &&& !ids.contains(game.players[j].id) ==> after.players[j] == game.players[j]
        }),
    decreases ids.len(),
{
    if ids.len() > 0 {
        let rest = ids.drop_last();
        lemma_snapshots_reach(game, rest, j);
        crate::capture::lemma_snapshots_keep(game, rest);
        let earlier = game.snapshots_sent(rest);
        let after = earlier.snapshot_sent(ids.last());
        let id = game.players[j].id;
        assert forall|a: int, b: int| 0 <= a < b < earlier.players.len() implies (
        #[trigger] earlier.players[a]).id != (#[trigger] earlier.players[b]).id by {
            assert(game.players[a].id != game.players[b].id);
            assert(earlier.players[a].id == game.players[a].id);
            assert(earlier.players[b].id == game.players[b].id);
        }
        crate::game::lemma_index_of(earlier.players, ids.last());
        if ids.last() == id {
            assert(ids[ids.len() - 1] == id);
            assert(earlier.players[j].id == id);
            let f = crate::game::index_of(earlier.players, id).unwrap();
            if f < j {
                assert(earlier.players[f].id != earlier.players[j].id);
            } else if j < f {
                assert(earlier.players[j].id != earlier.players[f].id);
            }
        }
        if rest.contains(id) {
            let k = choose|k: int| 0 <= k < rest.len() && rest[k] == id;
            assert(ids[k] == id);
        }
        if ids.contains(id) {
            let k = choose|k: int| 0 <= k < ids.len() && ids[k] == id;
            if k < rest.len() {
                assert(rest[k] == id);
            }
        }
    }
}

/// The living among some players whom the grid finds, those in earshot of a point.
pub proof fn lemma_ids_near_among(
    players: Seq<PlayerView>,
    candidates: Seq<PlayerId>,
    at: Position,
    n: int,
    j: int,
)
    requires
        crate::spoils::distinct_ids(players),
        0 <= n <= players.len(),
        0 <= j < players.len(),
    ensures
        crate::game::ids_near_among(
            players.take(n),
            candidates,
            at,
            crate::game::far_sight(),
        ).contains(players[j].id) == (j < n && players[j].alive && candidates.contains(
            players[j].id,
        ) && in_earshot(players[j].position, at)),
    decreases n,
{
    if n > 0 {
        lemma_ids_near_among(players, candidates, at, n - 1, j);
        assert(players.take(n).drop_last() =~= players.take(n - 1));
        let earlier = crate::game::ids_near_among(
            players.take(n - 1),
            candidates,
            at,
            crate::game::far_sight(),
        );
        let all = crate::game::ids_near_among(
            players.take(n),
            candidates,
            at,
            crate::game::far_sight(),
        );
        lemma_in_earshot(players[n - 1].position, at);
        let id = players[j].id;
        if j < n - 1 {
            assert(players[j].id != players[n - 1].id);
        } else if j > n - 1 {
            assert(players[n - 1].id != players[j].id);
        }
        if earlier.contains(id) {
            let k = choose|k: int| 0 <= k < earlier.len() && earlier[k] == id;
            assert(all[k] == id);
        }
        if all.contains(id) {
            let k = choose|k: int| 0 <= k < all.len() && all[k] == id;
            if k < earlier.len() {
                assert(earlier[k] == id);
            }
        }
        if all.len() > earlier.len() {
            assert(all[all.len() - 1] == players[n - 1].id);
        }
    }
}

proof fn lemma_ids_near(players: Seq<PlayerView>, at: Position, n: int, j: int)
    requires
        crate::spoils::distinct_ids(players),
        0 <= n <= players.len(),
        0 <= j < players.len(),
    ensures
        crate::game::ids_near(players.take(n), at, crate::game::far_sight()).contains(
            players[j].id,
        ) == (j < n && players[j].alive && in_earshot(players[j].position, at)),
    decreases n,
{
    if n > 0 {
        lemma_ids_near(players, at, n - 1, j);
        assert(players.take(n).drop_last() =~= players.take(n - 1));
        let earlier = crate::game::ids_near(players.take(n - 1), at, crate::game::far_sight());
        let all = crate::game::ids_near(players.take(n), at, crate::game::far_sight());
        lemma_in_earshot(players[n - 1].position, at);
        let id = players[j].id;
        if j < n - 1 {
            assert(players[j].id != players[n - 1].id);
        } else if j > n - 1 {
            assert(players[n - 1].id != players[j].id);
        }
        if earlier.contains(id) {
            let k = choose|k: int| 0 <= k < earlier.len() && earlier[k] == id;
            assert(all[k] == id);
        }
        if all.contains(id) {
            let k = choose|k: int| 0 <= k < all.len() && all[k] == id;
            if k < earlier.len() {
                assert(earlier[k] == id);
            }
        }
        if all.len() > earlier.len() {
            assert(all[all.len() - 1] == players[n - 1].id);
        }
    }
}

/// A change at a player's place is news to just the living whom the grid finds around it at most
/// 375 away along each axis: they have then seen the territories as they are.
pub proof fn lemma_news_spreads_around(game: GameView, i: int, j: int)
    requires
        crate::spoils::distinct_ids(game.players),
        0 <= i < game.players.len(),
        0 <= j < game.players.len(),
    ensures
        ({
            let at = game.players[i].position;
            let after = game.told_around(game.players[i].id);
            let p = game.players[j];
            &&& after.players.len() == game.players.len()
            &&& if p.alive && game.found_around(at).contains(p.id) && in_earshot(p.position, at) {
                after.players[j] == (PlayerView {
                    last_territory_version: game.territory_version,
                    ..p
                })
            } else {
                after.players[j] == p
            }
        }),
{
    let id = game.players[i].id;
    crate::game::lemma_index_of(game.players, id);
    let f = crate::game::index_of(game.players, id).unwrap();
    if f < i {
        assert(game.players[f].id != game.players[i].id);
    } else if i < f {
        assert(game.players[i].id != game.players[f].id);
    }
    let at = game.players[i].position;
    let n = game.players.len() as int;
    assert(game.players.take(n) =~= game.players);
    lemma_ids_near_among(game.players, game.found_around(at), at, n, j);
    lemma_snapshots_reach(
        game,
        crate::game::ids_near_among(
            game.players,
            game.found_around(at),
            at,
            crate::game::far_sight(),
        ),
        j,
    );
}

/// Who leaves is gone, and that is news to just the living at most 375 away along each axis; all
/// who stay keep what they have.
pub proof fn lemma_leaving_is_news(game: GameView, i: int, j: int)
    requires
        crate::spoils::distinct_ids(game.players),
        0 <= i < game.players.len(),
        0 <= j < game.players.len(),
        j != i,
        game.territory_version < u64::MAX,
    ensures
        ({
            let at = game.players[i].position;
            let after = game.disconnected(game.players[i].id);
            let p = game.players[j];
            let q = after.players[if j < i {
                j
            } else {
                j - 1
            }];
            &&& after.players.len() == game.players.len() - 1
            &&& after.territory_version == game.territory_version + 1
            &&& !crate::spoils::there(after.players, game.players[i].id)
            &&& if p.alive && in_earshot(p.position, at) {
                q == (PlayerView { last_territory_version: after.territory_version, ..p })
            } else {
                q == p
            }
        }),
{
    let id = game.players[i].id;
    crate::game::lemma_index_of(game.players, id);
    let f = crate::game::index_of(game.players, id).unwrap();
    if f < i {
        assert(game.players[f].id != game.players[i].id);
    } else if i < f {
        assert(game.players[i].id != game.players[f].id);
    }
    let at = game.players[i].position;
    let gone = game.without(id).territories_changed();
    assert forall|a: int, b: int| 0 <= a < b < gone.players.len() implies (
    #[trigger] gone.players[a]).id != (#[trigger] gone.players[b]).id by {
        let c = if a < i {
            a
        } else {
            a + 1
        };
        let d = if b < i {
            b
        } else {
            b + 1
        };
        assert(game.players[c].id != game.players[d].id);
    }
    let m = if j < i {
        j
    } else {
        j - 1
    };
    let n = gone.players.len() as int;
    assert(gone.players[m] == game.players[j]);
    assert(gone.players.take(n) =~= gone.players);
    lemma_ids_near(gone.players, at, n, m);
    let ids = crate::game::ids_near(gone.players, at, crate::game::far_sight());
    lemma_snapshots_reach(gone, ids, m);
    crate::capture::lemma_snapshots_keep(gone, ids);
    let after = game.disconnected(id);
    if crate::spoils::there(after.players, id) {
        let k = choose|k: int| 0 <= k < after.players.len() && after.players[k].id == id;
        let c = if k < i {
            k
        } else {
            k + 1
        };
        assert(gone.players[k] == game.players[c]);
        assert(after.players[k].id == gone.players[k].id);
        if c < i {
            assert(game.players[c].id != game.players[i].id);
        } else {
            assert(game.players[i].id != game.players[c].id);
        }
    }
}

// ---------------------------------------------------------------------------------------------
// Who hears of a death
// ---------------------------------------------------------------------------------------------

/// The witnesses of a death at a point are the living found there who have it in view.
pub proof fn lemma_witnesses(
    players: Seq<PlayerView>,
    found: Seq<PlayerId>,
    at: Position,
    j: int,
)
    requires
        crate::spoils::distinct_ids(players),
        0 <= j < players.len(),
    ensures
        crate::game::witnesses(players, found, at).contains(players[j].id) == (found.contains(
            players[j].id,
        ) && players[j].alive && crate::reports::in_view(players[j].position, at)),
    decreases found.len(),
{
    if found.len() > 0 {
        let rest = found.drop_last();
        lemma_witnesses(players, rest, at, j);
        let earlier = crate::game::witnesses(players, rest, at);
        let all = crate::game::witnesses(players, found, at);
        let id = players[j].id;
        crate::reports::lemma_in_view(players[j].position, at);
        crate::game::lemma_index_of(players, found.last());
        if found.last() == id {
            assert(found[found.len() - 1] == id);
            let f = crate::game::index_of(players, id).unwrap();
            if f < j {
                assert(players[f].id != players[j].id);
            } else if j < f {
                assert(players[j].id != players[f].id);
            }
        }
        if rest.contains(id) {
            let k = choose|k: int| 0 <= k < rest.len() && rest[k] == id;
            assert(found[k] == id);
        }
        if found.contains(id) {
            let k = choose|k: int| 0 <= k < found.len() && found[k] == id;
            if k < rest.len() {
                assert(rest[k] == id);
            }
        }
        if earlier.contains(id) {
            let k = choose|k: int| 0 <= k < earlier.len() && earlier[k] == id;
            assert(all[k] == id);
        }
        if all.contains(id) {
            let k = choose|k: int| 0 <= k < all.len() && all[k] == id;
            if k < earlier.len() {
                assert(earlier[k] == id);
            }
        }
        if all.len() > earlier.len() {
            assert(all[all.len() - 1] == found.last());
        }
    }
}

/// Whether a packet brings one player the news of a death.
pub open spec fn tells_death(
    packet: PacketView,
    to: PlayerId,
    victim: PlayerId,
    killer: Option<PlayerId>,
) -> bool {
    packet.recipients == seq![to] && packet.msg == (ServerMsgView::PlayerKilled {
        player_id: victim,
        killer_id: killer,
    })
}

/// Whether the packets from a place on bring one player the news of a death.
pub open spec fn death_told(
    packets: Seq<PacketView>,
    from: int,
    to: PlayerId,
    victim: PlayerId,
    killer: Option<PlayerId>,
) -> bool {
    exists|k: int|
        from <= k < packets.len() && tells_death(#[trigger] packets[k], to, victim, killer)
}

proof fn lemma_sent_to_each(
    game: GameView,
    ids: Seq<PlayerId>,
    victim: PlayerId,
    killer: Option<PlayerId>,
    to: PlayerId,
)
    requires
        crate::spoils::there(game.players, to),
    ensures
        ({
            let msg = ServerMsgView::PlayerKilled { player_id: victim, killer_id: killer };
            let after = game.sent_to_each(ids, msg);
            &&& after == (GameView { outbox: after.outbox, ..game })
            &&& game.outbox.is_prefix_of(after.outbox)
            &&& death_told(after.outbox, game.outbox.len() as int, to, victim, killer)
                == ids.contains(to)
        }),
    decreases ids.len(),
{
    let msg = ServerMsgView::PlayerKilled { player_id: victim, killer_id: killer };
    let n = game.outbox.len() as int;
    if ids.len() > 0 {
        let rest = ids.drop_last();
        lemma_sent_to_each(game, rest, victim, killer, to);
        let earlier = game.sent_to_each(rest, msg);
        let after = game.sent_to_each(ids, msg);
        crate::game::lemma_index_of(earlier.players, ids.last());
        crate::game::lemma_index_of(earlier.players, to);
        if rest.contains(to) {
            let k = choose|k: int| 0 <= k < rest.len() && rest[k] == to;
            assert(ids[k] == to);
            let m = choose|m: int|
                n <= m < earlier.outbox.len() && tells_death(
                    #[trigger] earlier.outbox[m],
                    to,
                    victim,
                    killer,
                );
            assert(after.outbox[m] == earlier.outbox[m]);
        }
        if ids.last() == to {
            assert(ids[ids.len() - 1] == to);
            assert(tells_death(after.outbox[earlier.outbox.len() as int], to, victim, killer));
        }
        if ids.contains(to) {
            let k = choose|k: int| 0 <= k < ids.len() && ids[k] == to;
            if k < rest.len() {
                assert(rest[k] == to);
            }
        }
        if death_told(after.outbox, n, to, victim, killer) {
            let m = choose|m: int|
                n <= m < after.outbox.len() && tells_death(
                    #[trigger] after.outbox[m],
                    to,
                    victim,
                    killer,
                );
            if m < earlier.outbox.len() {
                assert(after.outbox[m] == earlier.outbox[m]);
            } else {
                assert(after.outbox[m].recipients[0] == ids.last());
                assert(seq![to][0] == to);
            }
        }
    }
}

proof fn lemma_snapshots_tell_no_death(
    game: GameView,
    ids: Seq<PlayerId>,
    from: int,
    to: PlayerId,
    victim: PlayerId,
    killer: Option<PlayerId>,
)
    requires
        0 <= from <= game.outbox.len(),
    ensures
        game.outbox.is_prefix_of(game.snapshots_sent(ids).outbox),
        death_told(game.snapshots_sent(ids).outbox, from, to, victim, killer) == death_told(
            game.outbox,
            from,
            to,
            victim,
            killer,
        ),
    decreases ids.len(),
{
    if ids.len() > 0 {
        let rest = ids.drop_last();
        lemma_snapshots_tell_no_death(game, rest, from, to, victim, killer);
        let earlier = game.snapshots_sent(rest);
        let after = earlier.snapshot_sent(ids.last());
        assert(earlier.outbox.is_prefix_of(after.outbox));
        if death_told(earlier.outbox, from, to, victim, killer) {
            let m = choose|m: int|
                from <= m < earlier.outbox.len() && tells_death(
                    #[trigger] earlier.outbox[m],
                    to,
                    victim,
                    killer,
                );
            assert(after.outbox[m] == earlier.outbox[m]);
        }
        if death_told(after.outbox, from, to, victim, killer) {
            let m = choose|m: int|
                from <= m < after.outbox.len() && tells_death(
                    #[trigger] after.outbox[m],
                    to,
                    victim,
                    killer,
                );
            if m < earlier.outbox.len() {
                assert(after.outbox[m] == earlier.outbox[m]);
            }
        }
    }
}

/// A death is told to just the living whom the grid finds around its place and who have it in view,
/// the victim among them, with the name of the killer.
pub proof fn lemma_death_is_news(
    game: GameView,
    v: int,
    killer: Option<PlayerId>,
    j: int,
)
    requires
        crate::spoils::distinct_ids(game.players),
        0 <= v < game.players.len(),
        0 <= j < game.players.len(),
    ensures
        ({
            let victim = game.players[v].id;
            let at = game.players[v].position;
            let p = game.players[j];
            death_told(
                game.killed(victim, killer).outbox,
                game.outbox.len() as int,
                p.id,
                victim,
                killer,
            ) == (p.alive && game.found_around(at).contains(p.id) && crate::reports::in_view(
                p.position,
                at,
            ))
        }),
{
    let victim = game.players[v].id;
    crate::game::lemma_index_of(game.players, victim);
    let f = crate::game::index_of(game.players, victim).unwrap();
    if f < v {
        assert(game.players[f].id != game.players[v].id);
    } else if v < f {
        assert(game.players[v].id != game.players[f].id);
    }
    let at = game.players[v].position;
    let credited = game.kill_credited(killer);
    if let Some(id) = killer {
        crate::game::lemma_index_of(game.players, id);
    }
    assert forall|k: int| 0 <= k < game.players.len() implies (#[trigger] credited.players[k]).id
        == game.players[k].id && credited.players[k].alive == game.players[k].alive
        && credited.players[k].position == game.players[k].position by {
    }
    assert forall|a: int, b: int| 0 <= a < b < credited.players.len() implies (
    #[trigger] credited.players[a]).id != (#[trigger] credited.players[b]).id by {
        assert(game.players[a].id != game.players[b].id);
    }
    let seen_by = crate::game::witnesses(credited.players, game.found_around(at), at);
    let msg = ServerMsgView::PlayerKilled { player_id: victim, killer_id: killer };
    lemma_witnesses(credited.players, game.found_around(at), at, j);
    let id = game.players[j].id;
    assert(credited.players[j].id == id);
    lemma_sent_to_each(credited, seen_by, victim, killer, id);
    let told = credited.sent_to_each(seen_by, msg);
    let changed = told.without(victim).territories_changed();
    lemma_snapshots_tell_no_death(
        changed,
        crate::game::without_id(seen_by, victim),
        game.outbox.len() as int,
        id,
        victim,
        killer,
    );
    assert(changed.outbox == told.outbox);
}

// ---------------------------------------------------------------------------------------------
// Newcomers
// ---------------------------------------------------------------------------------------------

/// Whether the corners of a square are `r` parts off a point, once around and closed.
pub open spec fn is_square(corners: Seq<Position>, x: int, y: int, r: nat, k: nat) -> bool {
    &&& corners.len() == 5
    &&& crate::exact::is_at(corners[0], x - r, y - r, k)
    &&& crate::exact::is_at(corners[1], x + r, y - r, k)
    &&& crate::exact::is_at(corners[2], x + r, y + r, k)
    &&& crate::exact::is_at(corners[3], x - r, y + r, k)
    &&& crate::exact::is_at(corners[4], x - r, y - r, k)
}

/// The square that a player starts with is five wide, around its place: exactly, where nothing is
/// rounded.
pub proof fn lemma_starting_square_is_five_wide(at: Position, x: int, y: int, k: nat)
    requires
        1 <= k <= 20,
        crate::exact::is_at(at, x, y, k),
        -0x8_0000_0000_0000 <= x <= 0x8_0000_0000_0000,
        -0x8_0000_0000_0000 <= y <= 0x8_0000_0000_0000,
    ensures
        is_square(
            crate::game::starting_square(at),
            x,
            y,
            5 * pow2((k - 1) as nat),
            k,
        ),
{
    let r = Float64 { bits: STARTING_TERRITORY_RADIUS };
    let n = 5 * pow2((k - 1) as nat);
    crate::exact::lemma_constants();
    lemma2_to64();
    if k - 1 < 20 {
        lemma_pow2_strictly_increases((k - 1) as nat, 20);
    }
    crate::exact::lemma_finer(r, 5, 1, (k - 1) as nat);
    crate::exact::lemma_minus_exact(at.x, x, r, n as int, k);
    crate::exact::lemma_minus_exact(at.y, y, r, n as int, k);
    crate::exact::lemma_plus_exact(at.x, x, r, n as int, k);
    crate::exact::lemma_plus_exact(at.y, y, r, n as int, k);
}

/// Who joins starts alive, standing, in its square, without trail, kills or boosts, and named by
/// its number; the others keep all but the ground that it takes of them.
pub proof fn lemma_newcomer_starts_with_nothing(
    game: GameView,
    at: Position,
    left: Seq<Option<Seq<PolygonView>>>,
    areas: Seq<Float64>,
    i: int,
)
    requires
        game.next_id < u64::MAX,
        game.territory_version < u64::MAX,
        left.len() == game.players.len(),
        0 <= i <= game.players.len(),
    ensures
        ({
            let n = game.players.len() as int;
            let after = game.connected(at, left, areas);
            let q = after.players[i];
            &&& after.players.len() == n + 1
            &&& after.territory_version == game.territory_version + 1
            &&& i < n ==> q == (PlayerView {
                territory: match left[i] {
                    Some(t) => t,
                    None => game.players[i].territory,
                },
                last_territory_version: q.last_territory_version,
                ..game.players[i]
            })
            &&& i == n ==> {
                &&& q.id == game.next_id && q.position == at && q.angle.nan()
                &&& q.alive && q.in_territory && q.trail.len() == 0 && q.trail_aabb is None
                &&& q.kill_count == 0 && q.boost_points == 0 && q.boost_until is None
                &&& q.sprite_id == 0
                &&& q.name == "Player "@ + crate::text::decimal(game.next_id as nat)
                &&& q.territory.len() == 1 && q.territory[0].interiors.len() == 0
                &&& q.territory[0].exterior == crate::game::starting_square(at)
            }
        }),
{
    let id = game.next_id;
    let n = game.players.len() as int;
    let joined = game.joined(at, left);
    assert(joined.players[n].id == id);
    crate::game::lemma_index_of(joined.players, id);
    let welcomed = joined.sent(
        id,
        ServerMsgView::Welcome {
            player_id: id,
            position: at,
            angle: Float64 { bits: crate::game::STOPPED },
            color: crate::game::color_of(id),
        },
    );
    let one = seq![id];
    assert(one.drop_last() =~= Seq::empty());
    assert(welcomed.snapshots_sent(one.drop_last()) == welcomed);
    assert(welcomed.snapshots_sent(one) == welcomed.snapshot_sent(id));
    crate::capture::lemma_snapshots_keep(welcomed, one);
    let seen = welcomed.snapshot_sent(id);
    crate::game::lemma_index_of(seen.players, id);
    let told = seen.told_around(id);
    if let Some(c) = crate::game::index_of(seen.players, id) {
        let center = seen.players[c].position;
        crate::capture::lemma_snapshots_keep(
            seen,
            crate::game::ids_near_among(
                seen.players,
                seen.found_around(center),
                center,
                crate::game::far_sight(),
            ),
        );
    }
    let after = game.connected(at, left, areas);
    assert(after.players == told.players);
    assert(seen.players[i] == (PlayerView {
        last_territory_version: seen.players[i].last_territory_version,
        ..welcomed.players[i]
    }));
    assert(told.players[i] == (PlayerView {
        last_territory_version: told.players[i].last_territory_version,
        ..seen.players[i]
    }));
    assert(welcomed.players[i] == joined.players[i]);
}

}
