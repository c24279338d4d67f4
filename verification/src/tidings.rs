//! Who has seen the territories after a death, a capture, an arrival or a broadcast.
use crate::capture::CaptureOutcome;
use crate::float64::Float64;
use crate::game::{GameView, PacketView};
use crate::geometry::PolygonView;
use crate::player::PlayerView;
use crate::protocol::{PlayerId, Position, ServerMsgView};
use vstd::prelude::*;

verus! {

/// In a list of players of different ids one is found where it is.
proof fn lemma_found_at(players: Seq<PlayerView>, i: int)
    requires
        crate::spoils::distinct_ids(players),
        0 <= i < players.len(),
    ensures
        crate::game::index_of(players, players[i].id) == Some(i),
{
    crate::game::lemma_index_of(players, players[i].id);
    let f = crate::game::index_of(players, players[i].id).unwrap();
    if f < i {
        assert(players[f].id != players[i].id);
    } else if i < f {
        assert(players[i].id != players[f].id);
    }
}

// ---------------------------------------------------------------------------------------------
// Deaths
// ---------------------------------------------------------------------------------------------

proof fn lemma_without_id(ids: Seq<PlayerId>, id: PlayerId, other: PlayerId)
    ensures
        crate::game::without_id(ids, id).contains(other) == (other != id && ids.contains(other)),
    decreases ids.len(),
{
    if ids.len() > 0 {
        let rest = ids.drop_last();
        lemma_without_id(rest, id, other);
        let fewer = crate::game::without_id(rest, id);
        let all = crate::game::without_id(ids, id);
        if rest.contains(other) {
            let k = choose|k: int| 0 <= k < rest.len() && rest[k] == other;
            assert(ids[k] == other);
        }
        if ids.contains(other) {
            let k = choose|k: int| 0 <= k < ids.len() && ids[k] == other;
            if k < rest.len() {
                assert(rest[k] == other);
            }
        }
        if fewer.contains(other) {
            let k = choose|k: int| 0 <= k < fewer.len() && fewer[k] == other;
            assert(all[k] == other);
        }
        if all.contains(other) {
            let k = choose|k: int| 0 <= k < all.len() && all[k] == other;
            if k < fewer.len() {
                assert(fewer[k] == other);
            }
        }
        if ids.last() != id {
            assert(all[all.len() - 1] == ids.last());
        }
        assert(ids[ids.len() - 1] == ids.last());
    }
}

/// Who has the place of a death in view, is alive and found there by the grid sees the territory of
/// the victim disappear; to the others it is as it was, until they are told.
pub proof fn lemma_death_is_seen(game: GameView, v: int, killer: Option<PlayerId>, j: int)
    requires
        crate::spoils::distinct_ids(game.players),
        0 <= v < game.players.len(),
        0 <= j < game.players.len(),
        j != v,
        game.territory_version < u64::MAX,
    ensures
        ({
            let at = game.players[v].position;
            let after = game.killed(game.players[v].id, killer);
            let p = game.players[j];
            let q = after.players[if j < v {
                j
            } else {
                j - 1
            }];
            &&& after.players.len() == game.players.len() - 1
            &&& after.territory_version == game.territory_version + 1
            &&& q.id == p.id
            &&& q.last_territory_version == if p.alive && game.found_around(at).contains(p.id)
                && crate::reports::in_view(p.position, at) {
                after.territory_version
            } else {
                p.last_territory_version
            }
        }),
{
    let victim = game.players[v].id;
    lemma_found_at(game.players, v);
    let at = game.players[v].position;
    let credited = game.kill_credited(killer);
    if let Some(id) = killer {
        crate::game::lemma_index_of(game.players, id);
    }
    assert forall|k: int| 0 <= k < game.players.len() implies (#[trigger] credited.players[k]).id
        == game.players[k].id && credited.players[k].alive == game.players[k].alive
        && credited.players[k].position == game.players[k].position
        && credited.players[k].last_territory_version
        == game.players[k].last_territory_version by {
    }
    assert forall|a: int, b: int| 0 <= a < b < credited.players.len() implies (
    #[trigger] credited.players[a]).id != (#[trigger] credited.players[b]).id by {
        assert(game.players[a].id != game.players[b].id);
    }
    let seen_by = crate::game::witnesses(credited.players, game.found_around(at), at);
    let msg = ServerMsgView::PlayerKilled { player_id: victim, killer_id: killer };
    crate::news::lemma_witnesses(credited.players, game.found_around(at), at, j);
    let id = game.players[j].id;
    assert(credited.players[j].id == id);
    let told = credited.sent_to_each(seen_by, msg);
    crate::capture::lemma_sent_keeps(credited, seen_by, msg);
    assert(told.players[v].id == victim);
    lemma_found_at(told.players, v);
    let gone = told.without(victim).territories_changed();
    let m = if j < v {
        j
    } else {
        j - 1
    };
    assert(gone.players[m] == credited.players[j]);
    assert forall|a: int, b: int| 0 <= a < b < gone.players.len() implies (
    #[trigger] gone.players[a]).id != (#[trigger] gone.players[b]).id by {
        let c = if a < v {
            a
        } else {
            a + 1
        };
        let d = if b < v {
            b
        } else {
            b + 1
        };
        assert(gone.players[a] == credited.players[c]);
        assert(gone.players[b] == credited.players[d]);
        assert(credited.players[c].id != credited.players[d].id);
    }
    if j < v {
        assert(game.players[j].id != game.players[v].id);
    } else {
        assert(game.players[v].id != game.players[j].id);
    }
    lemma_without_id(seen_by, victim, id);
    crate::news::lemma_snapshots_reach(gone, crate::game::without_id(seen_by, victim), m);
}

// ---------------------------------------------------------------------------------------------
// Captures
// ---------------------------------------------------------------------------------------------

proof fn lemma_none_caught(
    players: Seq<PlayerView>,
    id: PlayerId,
    outcome: CaptureOutcome,
    n: int,
)
    requires
        forall|k: int|
            #![trigger players[k]]
            0 <= k < n ==> !crate::spoils::caught(players, id, outcome, k),
    ensures
        crate::spoils::count_caught(players, id, outcome, n) == 0,
    decreases n,
{
    if n > 0 {
        lemma_none_caught(players, id, outcome, n - 1);
        assert(!crate::spoils::caught(players, id, outcome, n - 1)) by {
            let p = players[n - 1];
        }
    }
}

/// A capture that nobody dies of is seen by just the living whom the grid finds around who made it
/// at most 375 away along each axis.
pub proof fn lemma_capture_is_seen(game: GameView, i: int, outcome: CaptureOutcome, j: int)
    requires
        crate::spoils::distinct_ids(game.players),
        0 <= i < game.players.len(),
        0 <= j < game.players.len(),
        game.territory_version < u64::MAX,
        crate::capture::area_captured(game, game.players[i].id) is Some,
        outcome.covers(game.players.len()),
        forall|k: int|
            #![trigger game.players[k]]
            0 <= k < game.players.len() ==> !crate::spoils::caught(
                game.players,
                game.players[i].id,
                outcome,
                k,
            ),
    ensures
        ({
            let at = game.players[i].position;
            let after = game.territory_captured(game.players[i].id, outcome);
            let p = game.players[j];
            let q = after.players[j];
            &&& after.players.len() == game.players.len()
            &&& after.territory_version == game.territory_version + 1
            &&& q.id == p.id
            &&& q.last_territory_version == if p.alive && game.found_around(at).contains(p.id)
                && crate::news::in_earshot(p.position, at) {
                after.territory_version
            } else {
                p.last_territory_version
            }
        }),
{
    let id = game.players[i].id;
    let n = game.players.len() as int;
    lemma_found_at(game.players, i);
    lemma_none_caught(game.players, id, outcome, n);
    assert(game.players.take(n) =~= game.players);
    crate::spoils::lemma_stranded(game.players, id, outcome, n);
    let left = crate::game::shapes(outcome.left@);
    let cut = GameView { players: crate::game::carved(game.players, left), ..game };
    let changed = cut.with_player(
        i,
        PlayerView { territory: outcome.territory@, ..cut.players[i] }.without_trail(),
    ).territories_changed();
    assert forall|k: int| 0 <= k < n implies (#[trigger] changed.players[k]).id
        == game.players[k].id && changed.players[k].alive == game.players[k].alive
        && changed.players[k].position == game.players[k].position
        && changed.players[k].last_territory_version
        == game.players[k].last_territory_version by {
    }
    assert forall|a: int, b: int| 0 <= a < b < changed.players.len() implies (
    #[trigger] changed.players[a]).id != (#[trigger] changed.players[b]).id by {
        assert(game.players[a].id != game.players[b].id);
    }
    assert(changed.players[i].id == id);
    crate::news::lemma_news_spreads_around(changed, i, j);
    let after = game.territory_captured(id, outcome);
    assert(after == changed.told_around(id));
    let at = game.players[i].position;
    lemma_found_at(changed.players, i);
    crate::capture::lemma_snapshots_keep(
        changed,
        crate::game::ids_near_among(
            changed.players,
            changed.found_around(at),
            at,
            crate::game::far_sight(),
        ),
    );
}

// ---------------------------------------------------------------------------------------------
// Arrivals
// ---------------------------------------------------------------------------------------------

proof fn lemma_snapshots_add(game: GameView, ids: Seq<PlayerId>)
    ensures
        game.outbox.is_prefix_of(game.snapshots_sent(ids).outbox),
    decreases ids.len(),
{
    if ids.len() > 0 {
        lemma_snapshots_add(game, ids.drop_last());
        let earlier = game.snapshots_sent(ids.drop_last());
        assert(earlier.outbox.is_prefix_of(earlier.snapshot_sent(ids.last()).outbox));
    }
}

/// Who joins is first welcomed at its place, then shown the territories and last told the
/// leaderboards. Of the others, just the living whom the grid finds around that place at most 375
/// away along each axis see the new territory.
pub proof fn lemma_arrival_is_seen(
    game: GameView,
    at: Position,
    left: Seq<Option<Seq<PolygonView>>>,
    areas: Seq<Float64>,
    j: int,
)
    requires
        crate::spoils::distinct_ids(game.players),
        !crate::spoils::there(game.players, game.next_id),
        game.next_id < u64::MAX,
        game.territory_version < u64::MAX,
        left.len() == game.players.len(),
        0 <= j < game.players.len(),
    ensures
        ({
            let n = game.players.len() as int;
            let m = game.outbox.len() as int;
            let id = game.next_id;
            let after = game.connected(at, left, areas);
            let p = game.players[j];
            &&& m + 3 <= after.outbox.len()
            &&& forall|k: int| 0 <= k < m ==> #[trigger] after.outbox[k] == game.outbox[k]
            &&& after.outbox[m].recipients == seq![id]
            &&& after.outbox[m].msg matches ServerMsgView::Welcome {
                player_id,
                position,
                angle,
                color,
            } && player_id == id && position == at && angle.nan() && color
                == after.players[n].color
            &&& after.outbox[m + 1].recipients == seq![id]
            &&& after.outbox[m + 1].msg is TerritorySnapshot
            &&& after.outbox.last() == (PacketView {
                recipients: seq![id],
                msg: ServerMsgView::Leaderboard(crate::ranking::leaderboard(after.players, areas)),
            })
            &&& after.players[n].last_territory_version == after.territory_version
            &&& after.players[j].last_territory_version == if p.alive && game.found_around(
                at,
            ).contains(p.id) && crate::news::in_earshot(p.position, at) {
                after.territory_version
            } else {
                p.last_territory_version
            }
        }),
{
    let id = game.next_id;
    let n = game.players.len() as int;
    let joined = game.joined(at, left);
    assert forall|k: int| 0 <= k < n implies (#[trigger] joined.players[k]).id
        == game.players[k].id && joined.players[k].alive == game.players[k].alive
        && joined.players[k].position == game.players[k].position
        && joined.players[k].last_territory_version
        == game.players[k].last_territory_version by {
    }
    assert forall|a: int, b: int| 0 <= a < b < joined.players.len() implies (
    #[trigger] joined.players[a]).id != (#[trigger] joined.players[b]).id by {
        if b < n {
            assert(game.players[a].id != game.players[b].id);
        } else {
            assert(game.players[a].id == joined.players[a].id);
        }
    }
    assert(joined.players[n].id == id);
    lemma_found_at(joined.players, n);
    let welcomed = joined.sent(
        id,
        ServerMsgView::Welcome {
            player_id: id,
            position: at,
            angle: Float64 { bits: crate::game::STOPPED },
            color: crate::game::color_of(id),
        },
    );
    let one = seq![id];
    assert(one.drop_last() =~= Seq::empty());
    assert(welcomed.snapshots_sent(one.drop_last()) == welcomed);
    assert(welcomed.snapshots_sent(one) == welcomed.snapshot_sent(id));
    assert(one[0] == id);
    assert(one.contains(id));
    crate::news::lemma_snapshots_reach(welcomed, one, n);
    crate::news::lemma_snapshots_reach(welcomed, one, j);
    assert(game.players[j].id != id);
    assert(!one.contains(game.players[j].id));
    crate::capture::lemma_snapshots_keep(welcomed, one);
    let seen = welcomed.snapshot_sent(id);
    assert forall|a: int, b: int| 0 <= a < b < seen.players.len() implies (
    #[trigger] seen.players[a]).id != (#[trigger] seen.players[b]).id by {
        assert(joined.players[a].id != joined.players[b].id);
        assert(seen.players[a].id == joined.players[a].id);
        assert(seen.players[b].id == joined.players[b].id);
    }
    assert(seen.players[n].id == id);
    lemma_found_at(seen.players, n);
    crate::news::lemma_news_spreads_around(seen, n, n);
    crate::news::lemma_news_spreads_around(seen, n, j);
    let told = seen.told_around(id);
    let after = game.connected(at, left, areas);
    assert(after.players == told.players);
    let near = crate::game::ids_near_among(
        seen.players,
        seen.found_around(at),
        at,
        crate::game::far_sight(),
    );
    crate::capture::lemma_snapshots_keep(seen, near);
    lemma_snapshots_add(seen, near);
    let m = game.outbox.len() as int;
    assert(seen.outbox.len() == m + 2);
    assert(told.players[n].id == id);
    crate::game::lemma_index_of(told.players, id);
    assert forall|k: int| 0 <= k < m + 2 implies #[trigger] after.outbox[k]
        == seen.outbox[k] by {
        assert(told.outbox[k] == seen.outbox[k]);
    }
}

// ---------------------------------------------------------------------------------------------
// Broadcasts
// ---------------------------------------------------------------------------------------------

/// Whether one of some viewers has an id.
spec fn views(to: Seq<(PlayerId, Position)>, id: PlayerId) -> bool {
    exists|k: int| 0 <= k < to.len() && (#[trigger] to[k]).0 == id
}

proof fn lemma_viewers_alive(players: Seq<PlayerView>, n: int, j: int)
    requires
        crate::spoils::distinct_ids(players),
        0 <= n <= players.len(),
        0 <= j < players.len(),
    ensures
        views(crate::broadcast::viewers(players.take(n)), players[j].id) == (j < n
            && players[j].alive),
    decreases n,
{
    if n > 0 {
        lemma_viewers_alive(players, n - 1, j);
        assert(players.take(n).drop_last() =~= players.take(n - 1));
        let fewer = crate::broadcast::viewers(players.take(n - 1));
        let all = crate::broadcast::viewers(players.take(n));
        let id = players[j].id;
        if j < n - 1 {
            assert(players[j].id != players[n - 1].id);
        } else if j > n - 1 {
            assert(players[n - 1].id != players[j].id);
        }
        if views(fewer, id) {
            let k = choose|k: int| 0 <= k < fewer.len() && (#[trigger] fewer[k]).0 == id;
            assert(all[k] == fewer[k]);
        }
        if views(all, id) {
            let k = choose|k: int| 0 <= k < all.len() && (#[trigger] all[k]).0 == id;
            if k < fewer.len() {
                assert(fewer[k] == all[k]);
            }
        }
        if players[n - 1].alive {
            assert(all[all.len() - 1].0 == players[n - 1].id);
        }
    }
}

proof fn lemma_viewers_have_seen(
    game: GameView,
    to: Seq<(PlayerId, Position)>,
    crown: Option<PlayerId>,
    territories: bool,
    now: u64,
    j: int,
)
    requires
        crate::spoils::distinct_ids(game.players),
        0 <= j < game.players.len(),
    ensures
        ({
            let after = game.viewers_told(to, crown, territories, now);
            &&& crate::capture::same_but_seen(after, game)
            &&& after.players[j].last_territory_version == if territories && views(
                to,
                game.players[j].id,
            ) {
                game.territory_version
            } else {
                game.players[j].last_territory_version
            }
            &&& game.outbox.len() <= after.outbox.len()
            &&& forall|k: int|
                game.outbox.len() <= k < after.outbox.len() ==> !((
                #[trigger] after.outbox[k]).msg is Leaderboard)
        }),
    decreases to.len(),
{
    if to.len() > 0 {
        let rest = to.drop_last();
        lemma_viewers_have_seen(game, rest, crown, territories, now, j);
        let earlier = game.viewers_told(rest, crown, territories, now);
        let after = game.viewers_told(to, crown, territories, now);
        let id = game.players[j].id;
        assert(earlier.players[j].id == id);
        assert forall|a: int, b: int| 0 <= a < b < earlier.players.len() implies (
        #[trigger] earlier.players[a]).id != (#[trigger] earlier.players[b]).id by {
            assert(game.players[a].id != game.players[b].id);
            assert(earlier.players[a].id == game.players[a].id);
            assert(earlier.players[b].id == game.players[b].id);
        }
        crate::game::lemma_index_of(earlier.players, to.last().0);
        lemma_found_at(earlier.players, j);
        if views(rest, id) {
            let k = choose|k: int| 0 <= k < rest.len() && (#[trigger] rest[k]).0 == id;
            assert(to[k] == rest[k]);
        }
        if views(to, id) {
            let k = choose|k: int| 0 <= k < to.len() && (#[trigger] to[k]).0 == id;
            if k < rest.len() {
                assert(rest[k] == to[k]);
            }
        }
        assert(to[to.len() - 1] == to.last());
        assert forall|k: int| game.outbox.len() <= k < after.outbox.len() implies !((
        #[trigger] after.outbox[k]).msg is Leaderboard) by {
            if k < earlier.outbox.len() {
                assert(after.outbox[k] == earlier.outbox[k]);
            }
        }
    }
}

/// Whether a packet tells all of some players the leaderboards.
pub open spec fn tells_boards(
    packet: PacketView,
    players: Seq<PlayerView>,
    areas: Seq<Float64>,
) -> bool {
    &&& packet.recipients.len() == players.len()
    &&& forall|k: int|
        #![trigger packet.recipients[k]]
        0 <= k < players.len() ==> packet.recipients[k] == players[k].id
    &&& packet.msg == ServerMsgView::Leaderboard(crate::ranking::leaderboard(players, areas))
}

/// On every two hundredth tick the living have seen the territories as they are, and on the others
/// nobody sees more than before; on every fortieth all players, the dead too, are told the
/// leaderboards, last of all and once, and on the others nobody is.
pub proof fn lemma_broadcasts_are_due(game: GameView, areas: Seq<Float64>, now: u64, j: int)
    requires
        crate::spoils::distinct_ids(game.players),
        0 <= j < game.players.len(),
    ensures
        ({
            let after = game.broadcasted(areas, now);
            let p = game.players[j];
            let q = after.players[j];
            let n = after.outbox.len() as int;
            &&& after.players.len() == game.players.len()
            &&& q == (PlayerView { last_territory_version: q.last_territory_version, ..p })
            &&& q.last_territory_version == if game.tick_count % 200 == 0 && p.alive {
                game.territory_version
            } else {
                p.last_territory_version
            }
            &&& forall|k: int|
                game.outbox.len() <= k < n && (#[trigger] after.outbox[k]).msg is Leaderboard ==> k
                    == n - 1 && game.tick_count % 40 == 0
            &&& game.tick_count % 40 == 0 ==> n > game.outbox.len() && tells_boards(
                after.outbox[n - 1],
                after.players,
                areas,
            )
        }),
{
    let crown = crate::ranking::first_by_area(game.players, areas);
    let to = crate::broadcast::viewers(game.players);
    let n = game.players.len() as int;
    assert(game.players.take(n) =~= game.players);
    lemma_viewers_alive(game.players, n, j);
    let due = game.tick_count % 200 == 0;
    lemma_viewers_have_seen(game, to, crown, due, now, j);
    let told = game.viewers_told(to, crown, due, now);
    let after = game.broadcasted(areas, now);
    assert(after.players == told.players);
    assert forall|k: int|
        game.outbox.len() <= k < after.outbox.len() && (
        #[trigger] after.outbox[k]).msg is Leaderboard implies k == after.outbox.len() - 1
        && game.tick_count % 40 == 0 by {
        if k < told.outbox.len() {
            assert(after.outbox[k] == told.outbox[k]);
        }
    }
}

}
