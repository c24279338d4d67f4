//! What a client knows after each message, field by field.
use crate::client::{ClientView, RemotePlayerView, TerritoryRingView};
use crate::float64::Float64;
use crate::protocol::{PlayerId, PlayerStateView, Position, RingView, ServerMsgView};
use vstd::prelude::*;

verus! {

/// Whether a client knows a player as it was told of it.
pub open spec fn known_as(p: RemotePlayerView, ps: PlayerStateView, now: Float64) -> bool {
    &&& p.id == ps.id
    &&& p.position == ps.position
    &&& p.angle == ps.angle
    &&& p.color == ps.color
    &&& p.trail == ps.trail
    &&& p.sprite_id == ps.sprite_id
    &&& p.has_crown == ps.has_crown
    &&& p.server_time == now
}

/// Whether some players hold one who is known as it was told of.
pub open spec fn knows(players: Seq<RemotePlayerView>, ps: PlayerStateView, now: Float64) -> bool {
    exists|i: int| 0 <= i < players.len() && known_as(#[trigger] players[i], ps, now)
}

proof fn lemma_all_told_known(
    players: Seq<RemotePlayerView>,
    told: Seq<PlayerStateView>,
    now: Float64,
    n: int,
)
    requires
        crate::client::distinct(players),
        0 <= n <= told.len(),
        forall|a: int, b: int|
            0 <= a < b < told.len() ==> (#[trigger] told[a]).id != (#[trigger] told[b]).id,
    ensures
        ({
            let after = crate::client::all_told(players, told.take(n), now);
            &&& forall|k: int| 0 <= k < n ==> knows(after, #[trigger] told[k], now)
            &&& forall|i: int|
                #![trigger players[i]]
                0 <= i < players.len() && (forall|k: int|
                    0 <= k < n ==> (#[trigger] told[k]).id != players[i].id) ==> after.contains(
                    players[i],
                )
        }),
    decreases n,
{
    if n == 0 {
        assert(told.take(0) =~= Seq::empty());
    } else {
        lemma_all_told_known(players, told, now, n - 1);
        assert(told.take(n).drop_last() =~= told.take(n - 1));
        let before = crate::client::all_told(players, told.take(n - 1), now);
        let after = crate::client::all_told(players, told.take(n), now);
        let ps = told[n - 1];
        crate::client::lemma_all_told(players, told.take(n - 1), now);
        crate::client::lemma_place_of(before, ps.id);
        match crate::client::place_of(before, ps.id) {
            Some(i) => {
                assert(known_as(after[i], ps, now));
            },
            None => {
                assert(known_as(after[before.len() as int], ps, now));
            },
        }
        assert forall|k: int| 0 <= k < n implies knows(after, #[trigger] told[k], now) by {
            if k < n - 1 {
                assert(told[k].id != told[n - 1].id);
                let i = choose|i: int|
                    0 <= i < before.len() && known_as(#[trigger] before[i], told[k], now);
                assert(after[i] == before[i]);
            }
        }
        assert forall|i: int|
            #![trigger players[i]]
            0 <= i < players.len() && (forall|k: int|
                0 <= k < n ==> (#[trigger] told[k]).id != players[i].id) implies after.contains(
            players[i],
        ) by {
            assert(told[n - 1].id != players[i].id);
            assert(before.contains(players[i]));
            let m = choose|m: int| 0 <= m < before.len() && before[m] == players[i];
            assert(after[m] == before[m]);
        }
    }
}

/// After a tick a client knows everyone who was told of just as it was told, at the time at which
/// it was, and its own player as before if that was not told of. Nothing else changes but the time
/// of the last tick.
pub proof fn lemma_tick_is_taken_in(
    client: ClientView,
    told: Seq<PlayerStateView>,
    board_radius: Float64,
    now: Float64,
    k: int,
)
    requires
        crate::client::distinct(client.players),
        forall|a: int, b: int|
            0 <= a < b < told.len() ==> (#[trigger] told[a]).id != (#[trigger] told[b]).id,
        0 <= k < told.len(),
    ensures
        ({
            let after = client.after(ServerMsgView::Tick { players: told, board_radius }, now);
            &&& knows(after.players, told[k], now)
            &&& after.last_tick_time == now
            &&& after == (ClientView {
                players: after.players,
                last_tick_time: after.last_tick_time,
                ..client
            })
        }),
{
    let n = told.len() as int;
    assert(told.take(n) =~= told);
    lemma_all_told_known(client.players, told, now, n);
    let known = crate::client::all_told(client.players, told, now);
    assert(knows(known, told[k], now));
    if let Some(me) = client.player_id {
        crate::client::lemma_all_told(client.players, told, now);
        crate::client::lemma_still_seen(known, told, me);
        let i = choose|i: int| 0 <= i < known.len() && known_as(#[trigger] known[i], told[k], now);
        assert(crate::client::mentions(told, known[i].id));
        let seen = crate::client::still_seen(known, told, me);
        assert(seen.contains(known[i]));
        let j = choose|j: int| 0 <= j < seen.len() && seen[j] == known[i];
        assert(known_as(seen[j], told[k], now));
    }
}

proof fn lemma_own_stays(
    players: Seq<RemotePlayerView>,
    told: Seq<PlayerStateView>,
    me: PlayerId,
    p: RemotePlayerView,
)
    requires
        players.contains(p),
        p.id == me,
    ensures
        crate::client::still_seen(players, told, me).contains(p),
    decreases players.len(),
{
    let i = choose|i: int| 0 <= i < players.len() && players[i] == p;
    let shorter = players.drop_last();
    let earlier = crate::client::still_seen(shorter, told, me);
    let seen = crate::client::still_seen(players, told, me);
    if i < shorter.len() {
        assert(shorter[i] == p);
        lemma_own_stays(shorter, told, me, p);
        let k = choose|k: int| 0 <= k < earlier.len() && earlier[k] == p;
        assert(seen[k] == p);
    } else {
        assert(seen[seen.len() - 1] == p);
    }
}

/// A client does not forget its own player for not being told of it.
pub proof fn lemma_own_player_is_kept(
    client: ClientView,
    told: Seq<PlayerStateView>,
    board_radius: Float64,
    now: Float64,
    i: int,
)
    requires
        crate::client::distinct(client.players),
        forall|a: int, b: int|
            0 <= a < b < told.len() ==> (#[trigger] told[a]).id != (#[trigger] told[b]).id,
        0 <= i < client.players.len(),
        client.player_id == Some(client.players[i].id),
        forall|k: int| 0 <= k < told.len() ==> (#[trigger] told[k]).id != client.players[i].id,
    ensures
        client.after(
            ServerMsgView::Tick { players: told, board_radius },
            now,
        ).players.contains(client.players[i]),
{
    let n = told.len() as int;
    assert(told.take(n) =~= told);
    lemma_all_told_known(client.players, told, now, n);
    let known = crate::client::all_told(client.players, told, now);
    lemma_own_stays(known, told, client.players[i].id, client.players[i]);
}

/// A welcome makes a client know its own player, where it is told to be, and nothing else.
pub proof fn lemma_welcome_starts_over(
    client: ClientView,
    player_id: PlayerId,
    position: Position,
    angle: Float64,
    color: [u8; 3],
    now: Float64,
)
    ensures
        ({
            let after = client.after(
                ServerMsgView::Welcome { player_id, position, angle, color },
                now,
            );
            &&& after.player_id == Some(player_id)
            &&& after.alive
            &&& after.territory.len() == 0
            &&& after.players.len() == 1
            &&& after.players[0].id == player_id
            &&& after.players[0].position == position
            &&& after.players[0].angle == angle
            &&& after.players[0].color == color
            &&& after.players[0].trail.len() == 0
            &&& after.players[0].sprite_id == client.my_sprite_id
            &&& after.players[0].server_time == now
            &&& !after.players[0].has_crown
            &&& after == (ClientView {
                player_id: after.player_id,
                alive: after.alive,
                territory: after.territory,
                players: after.players,
                ..client
            })
        }),
{
}

/// Whether an outline is the one that was sent.
pub open spec fn ring_as(r: TerritoryRingView, d: RingView) -> bool {
    &&& r.color == d.color
    &&& r.sprite_id == d.sprite_id
    &&& r.points == d.points
}

/// A snapshot replaces what a client knows of territories by the outlines that it brings, in order,
/// each in a box that holds all its corners.
pub proof fn lemma_snapshot_is_taken_in(
    client: ClientView,
    rings: Seq<RingView>,
    now: Float64,
    i: int,
    k: int,
)
    requires
        0 <= i < rings.len(),
        0 <= k < rings[i].points.len(),
        forall|j: int|
            0 <= j < rings[i].points.len() ==> crate::trails::is_place(
                #[trigger] rings[i].points[j],
            ),
    ensures
        ({
            let after = client.after(ServerMsgView::TerritorySnapshot(rings), now);
            &&& after.territory.len() == rings.len()
            &&& ring_as(after.territory[i], rings[i])
            &&& crate::boxes::in_box(rings[i].points[k], after.territory[i].bounds)
            &&& after == (ClientView { territory: after.territory, ..client })
        }),
{
    let points = rings[i].points;
    assert forall|j: int|
        #![trigger points[j]]
        0 <= j < points.len() implies !points[j].x.is_nan() && !points[j].y.is_nan() by {
        assert(crate::trails::is_place(rings[i].points[j]));
    }
    crate::geometry::lemma_enclosing_holds_each(points, k);
    let after = client.after(ServerMsgView::TerritorySnapshot(rings), now);
    assert(after.territory[i] == crate::client::received(rings[i]));
}

/// The news of a death makes a client forget the victim and nobody else.
pub proof fn lemma_only_the_killed_are_forgotten(
    client: ClientView,
    id: PlayerId,
    killer_id: Option<PlayerId>,
    now: Float64,
    i: int,
)
    requires
        crate::client::distinct(client.players),
        0 <= i < client.players.len(),
        client.players[i].id != id,
    ensures
        ({
            let after = client.after(
                ServerMsgView::PlayerKilled { player_id: id, killer_id },
                now,
            );
            &&& after.players.contains(client.players[i])
            &&& after.players.len() >= client.players.len() - 1
            &&& after == (ClientView { players: after.players, alive: after.alive, ..client })
        }),
{
    let after = client.after(ServerMsgView::PlayerKilled { player_id: id, killer_id }, now);
    crate::client::lemma_place_of(client.players, id);
    match crate::client::place_of(client.players, id) {
        Some(v) => {
            let k = if i < v {
                i
            } else {
                i - 1
            };
            assert(after.players[k] == client.players[i]);
        },
        None => {
            assert(after.players[i] == client.players[i]);
        },
    }
}

}
