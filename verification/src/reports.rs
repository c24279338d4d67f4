//! What players are told: each packet on its way, held against the game it tells of.
use crate::float64::Float64;
use crate::game::{GameView, PacketView, SPATIAL_CELL_SIZE};
use crate::player::PlayerView;
use crate::protocol::{PlayerId, PlayerStateView, Position, ServerMsgView};
use vstd::arithmetic::power2::pow2;
use vstd::prelude::*;

verus! {

/// Whether one point is at most 250 from another along each axis, as differences are rounded.
pub open spec fn in_view(p: Position, from: Position) -> bool {
    &&& !p.x.minus(from.x).nan() && !p.y.minus(from.y).nan()
    &&& -250 * pow2(1074) <= p.x.minus(from.x).value() <= 250 * pow2(1074)
    &&& -250 * pow2(1074) <= p.y.minus(from.y).value() <= 250 * pow2(1074)
}

/// What is near enough to be seen is in view.
pub proof fn lemma_in_view(p: Position, from: Position)
    ensures
        crate::game::near(p, from, crate::game::sight()) == in_view(p, from),
{
    crate::exact::lemma_constants();
    let a = p.x.minus(from.x);
    let b = p.y.minus(from.y);
    assert(a.abs().value() == crate::float64::units(a.magnitude()));
    assert(b.abs().value() == crate::float64::units(b.magnitude()));
}

/// Whether an entry shows a player as it is: its own fields, and outside its territory the whole
/// trail up to where the player is.
pub open spec fn shows(entry: PlayerStateView, p: PlayerView, now: u64) -> bool {
    &&& entry.id == p.id
    &&& entry.position == p.position
    &&& entry.angle == p.angle
    &&& entry.color == p.color
    &&& entry.sprite_id == p.sprite_id
    &&& entry.boost_points == p.boost_points
    &&& entry.boost_active == crate::motion::boost_lasts(p, now)
    &&& p.in_territory || p.trail.len() == 0 ==> entry.trail.len() == 0
    &&& !p.in_territory && p.trail.len() > 0 ==> {
        &&& entry.trail.len() == p.trail.len() + 1
        &&& entry.trail[p.trail.len() as int] == p.position
        &&& forall|k: int| 0 <= k < p.trail.len() ==> #[trigger] entry.trail[k] == p.trail[k]
    }
}

/// Whether an entry shows a living player of a game, in view of a point.
pub open spec fn shows_one_in_view(
    entry: PlayerStateView,
    players: Seq<PlayerView>,
    from: Position,
    now: u64,
) -> bool {
    exists|j: int|
        0 <= j < players.len() && (#[trigger] players[j]).alive && shows(entry, players[j], now)
            && in_view(players[j].position, from)
}

/// Whether a packet is no tick, or one for a living player of a game that shows the board and
/// living players in view of it, each as it is.
pub open spec fn tells_truly(packet: PacketView, game: GameView, now: u64) -> bool {
    packet.msg matches ServerMsgView::Tick { players, board_radius } ==> {
        &&& board_radius == game.board_radius
        &&& exists|i: int|
            0 <= i < game.players.len() && (#[trigger] game.players[i]).alive
                && packet.recipients == seq![game.players[i].id] && forall|k: int|
                0 <= k < players.len() ==> shows_one_in_view(
                    #[trigger] players[k],
                    game.players,
                    game.players[i].position,
                    now,
                )
    }
}

/// Whether two lists hold the same players, but for what each was sent last.
spec fn alike_but_seen(a: Seq<PlayerView>, b: Seq<PlayerView>) -> bool {
    a.len() == b.len() && forall|i: int|
        0 <= i < a.len() ==> #[trigger] a[i] == (PlayerView {
            last_territory_version: a[i].last_territory_version,
            ..b[i]
        })
}

proof fn lemma_visible_shows(
    players: Seq<PlayerView>,
    now_players: Seq<PlayerView>,
    n: int,
    found: Seq<PlayerId>,
    at: Position,
    crown: Option<PlayerId>,
    now: u64,
)
    requires
        0 <= n <= players.len(),
        alike_but_seen(now_players, players),
    ensures
        ({
            let shown = crate::broadcast::visible(now_players.take(n), found, at, crown, now);
            forall|k: int|
                0 <= k < shown.len() ==> shows_one_in_view(#[trigger] shown[k], players, at, now)
        }),
    decreases n,
{
    if n > 0 {
        lemma_visible_shows(players, now_players, n - 1, found, at, crown, now);
        assert(now_players.take(n).drop_last() =~= now_players.take(n - 1));
        let earlier = crate::broadcast::visible(now_players.take(n - 1), found, at, crown, now);
        let shown = crate::broadcast::visible(now_players.take(n), found, at, crown, now);
        let p = now_players[n - 1];
        assert forall|k: int| 0 <= k < shown.len() implies shows_one_in_view(
            #[trigger] shown[k],
            players,
            at,
            now,
        ) by {
            if k < earlier.len() {
                assert(shown[k] == earlier[k]);
            } else {
                lemma_in_view(p.position, at);
                let q = players[n - 1];
                assert(p == (PlayerView {
                    last_territory_version: p.last_territory_version,
                    ..q
                }));
                assert(shown[k] == p.shown(crown == Some(p.id), now));
                assert(shows(shown[k], players[n - 1], now));
            }
        }
    }
}

/// Whether a viewer is a living player where it is.
spec fn is_viewer(viewer: (PlayerId, Position), players: Seq<PlayerView>) -> bool {
    exists|i: int|
        0 <= i < players.len() && (#[trigger] players[i]).alive && viewer == (
            players[i].id,
            players[i].position,
        )
}

proof fn lemma_viewers(players: Seq<PlayerView>, n: int)
    requires
        0 <= n <= players.len(),
    ensures
        ({
            let to = crate::broadcast::viewers(players.take(n));
            &&& forall|k: int| 0 <= k < to.len() ==> is_viewer(#[trigger] to[k], players)
            &&& forall|i: int|
                #![trigger players[i]]
                0 <= i < n && players[i].alive ==> to.contains(
                    (players[i].id, players[i].position),
                )
        }),
    decreases n,
{
    if n > 0 {
        lemma_viewers(players, n - 1);
        assert(players.take(n).drop_last() =~= players.take(n - 1));
        let earlier = crate::broadcast::viewers(players.take(n - 1));
        let to = crate::broadcast::viewers(players.take(n));
        let p = players[n - 1];
        assert forall|k: int| 0 <= k < to.len() implies is_viewer(#[trigger] to[k], players) by {
            if k < earlier.len() {
                assert(to[k] == earlier[k]);
            } else {
                assert(to[k] == (players[n - 1].id, players[n - 1].position));
            }
        }
        assert forall|i: int|
            #![trigger players[i]]
            0 <= i < n && players[i].alive implies to.contains(
            (players[i].id, players[i].position),
        ) by {
            if i < n - 1 {
                let k = choose|k: int|
                    0 <= k < earlier.len() && earlier[k] == (players[i].id, players[i].position);
                assert(to[k] == earlier[k]);
            } else {
                assert(to[to.len() - 1] == (players[i].id, players[i].position));
            }
        }
    }
}

/// Whether the packets from a place on hold a tick for a player.
pub open spec fn tick_among(packets: Seq<PacketView>, from: int, id: PlayerId) -> bool {
    exists|k: int|
        from <= k < packets.len() && (#[trigger] packets[k]).recipients == seq![id]
            && packets[k].msg is Tick
}

proof fn lemma_viewers_told_truly(
    game: GameView,
    to: Seq<(PlayerId, Position)>,
    crown: Option<PlayerId>,
    territories: bool,
    now: u64,
)
    requires
        forall|k: int| 0 <= k < to.len() ==> is_viewer(#[trigger] to[k], game.players),
    ensures
        ({
            let after = game.viewers_told(to, crown, territories, now);
            &&& after.board_radius == game.board_radius
            &&& after.cells == game.cells
            &&& after.cell_size == game.cell_size
            &&& alike_but_seen(after.players, game.players)
            &&& game.outbox.is_prefix_of(after.outbox)
            &&& forall|m: int|
                game.outbox.len() <= m < after.outbox.len() ==> tells_truly(
                    #[trigger] after.outbox[m],
                    game,
                    now,
                )
            &&& forall|k: int|
                0 <= k < to.len() ==> tick_among(
                    after.outbox,
                    game.outbox.len() as int,
                    (#[trigger] to[k]).0,
                )
        }),
    decreases to.len(),
{
    if to.len() > 0 {
        let rest = to.drop_last();
        let viewer = to.last();
        assert forall|k: int| 0 <= k < rest.len() implies is_viewer(
            #[trigger] rest[k],
            game.players,
        ) by {
            assert(is_viewer(to[k], game.players));
        }
        lemma_viewers_told_truly(game, rest, crown, territories, now);
        let earlier = game.viewers_told(rest, crown, territories, now);
        let n = game.players.len() as int;
        assert(is_viewer(to[to.len() - 1], game.players));
        let i = choose|i: int|
            0 <= i < n && (#[trigger] game.players[i]).alive && viewer == (
                game.players[i].id,
                game.players[i].position,
            );
        assert(earlier.players.take(n) =~= earlier.players);
        lemma_visible_shows(
            game.players,
            earlier.players,
            n,
            earlier.found_around(viewer.1),
            viewer.1,
            crown,
            now,
        );
        assert(earlier.players[i].id == viewer.0);
        crate::game::lemma_index_of(earlier.players, viewer.0);
        let told = earlier.viewer_told(viewer, crown, false, now);
        let after = earlier.viewer_told(viewer, crown, territories, now);
        let last = told.outbox[earlier.outbox.len() as int];
        assert(told.outbox == earlier.outbox.push(last));
        assert(last.recipients == seq![game.players[i].id]);
        assert(tells_truly(last, game, now));
        crate::game::lemma_index_of(told.players, viewer.0);
        assert forall|m: int| game.outbox.len() <= m < after.outbox.len() implies tells_truly(
            #[trigger] after.outbox[m],
            game,
            now,
        ) by {
            if m < earlier.outbox.len() {
                assert(after.outbox[m] == earlier.outbox[m]);
            } else if m == earlier.outbox.len() {
                assert(after.outbox[m] == last);
            }
        }
        assert forall|k: int| 0 <= k < to.len() implies tick_among(
            after.outbox,
            game.outbox.len() as int,
            (#[trigger] to[k]).0,
        ) by {
            if k < rest.len() {
                assert(rest[k] == to[k]);
                let m = choose|m: int|
                    game.outbox.len() <= m < earlier.outbox.len() && (
                    #[trigger] earlier.outbox[m]).recipients == seq![to[k].0]
                        && earlier.outbox[m].msg is Tick;
                assert(after.outbox[m] == earlier.outbox[m]);
            } else {
                assert(after.outbox[earlier.outbox.len() as int] == last);
            }
        }
    }
}

/// Every tick that is sent goes to one living player and tells it the truth: the radius of the
/// board, and of living players in its view each one's own id, place, heading, color, sprite, boost
/// and trail up to its place. Every living player is sent one.
pub proof fn lemma_ticks_tell_truly(game: GameView, areas: Seq<Float64>, now: u64)
    ensures
        ({
            let after = game.broadcasted(areas, now);
            &&& game.outbox.is_prefix_of(after.outbox)
            &&& forall|m: int|
                game.outbox.len() <= m < after.outbox.len() ==> tells_truly(
                    #[trigger] after.outbox[m],
                    game,
                    now,
                )
            &&& forall|i: int|
                #![trigger game.players[i]]
                0 <= i < game.players.len() && game.players[i].alive ==> tick_among(
                    after.outbox,
                    game.outbox.len() as int,
                    game.players[i].id,
                )
        }),
{
    let n = game.players.len() as int;
    let to = crate::broadcast::viewers(game.players);
    let crown = crate::ranking::first_by_area(game.players, areas);
    let territories = game.tick_count % crate::broadcast::TERRITORY_INTERVAL == 0;
    let told = game.viewers_told(to, crown, territories, now);
    let after = game.broadcasted(areas, now);
    assert(game.players.take(n) =~= game.players);
    lemma_viewers(game.players, n);
    lemma_viewers_told_truly(game, to, crown, territories, now);
    assert forall|m: int| game.outbox.len() <= m < after.outbox.len() implies tells_truly(
        #[trigger] after.outbox[m],
        game,
        now,
    ) by {
        if m < told.outbox.len() {
            assert(after.outbox[m] == told.outbox[m]);
        }
    }
    assert forall|i: int|
        #![trigger game.players[i]]
        0 <= i < n && game.players[i].alive implies tick_among(
        after.outbox,
        game.outbox.len() as int,
        game.players[i].id,
    ) by {
        let id = game.players[i].id;
        let k = choose|k: int| 0 <= k < to.len() && to[k] == (id, game.players[i].position);
        assert(to[k].0 == id);
        let m = choose|m: int|
            game.outbox.len() <= m < told.outbox.len() && (
            #[trigger] told.outbox[m]).recipients == seq![id] && told.outbox[m].msg is Tick;
        assert(after.outbox[m] == told.outbox[m]);
    }
}

/// Whether a packet, if it is a tick for one player, shows the player of an id.
pub open spec fn shown_to(packet: PacketView, viewer: PlayerId, id: PlayerId) -> bool {
    packet.recipients == seq![viewer] && packet.msg is Tick ==> exists|k: int|
        0 <= k < packet.msg->Tick_players.len() && (#[trigger] packet.msg->Tick_players[k]).id == id
}

proof fn lemma_told_of_all_in_view(
    game: GameView,
    to: Seq<(PlayerId, Position)>,
    crown: Option<PlayerId>,
    territories: bool,
    now: u64,
    i: int,
    j: int,
)
    requires
        crate::spoils::distinct_ids(game.players),
        forall|k: int| 0 <= k < to.len() ==> is_viewer(#[trigger] to[k], game.players),
        game.cell_size == (Float64 { bits: SPATIAL_CELL_SIZE }),
        game.cells == crate::tick::entered(game.cell_size, game.players),
        0 <= i < game.players.len(),
        0 <= j < game.players.len(),
        game.players[j].alive,
        in_view(game.players[j].position, game.players[i].position),
    ensures
        ({
            let after = game.viewers_told(to, crown, territories, now);
            forall|m: int|
                game.outbox.len() <= m < after.outbox.len() ==> shown_to(
                    #[trigger] after.outbox[m],
                    game.players[i].id,
                    game.players[j].id,
                )
        }),
    decreases to.len(),
{
    if to.len() > 0 {
        let rest = to.drop_last();
        let viewer = to.last();
        assert forall|k: int| 0 <= k < rest.len() implies is_viewer(
            #[trigger] rest[k],
            game.players,
        ) by {
            assert(is_viewer(to[k], game.players));
        }
        lemma_told_of_all_in_view(game, rest, crown, territories, now, i, j);
        lemma_viewers_told_truly(game, rest, crown, territories, now);
        let earlier = game.viewers_told(rest, crown, territories, now);
        let after = earlier.viewer_told(viewer, crown, territories, now);
        let told = earlier.viewer_told(viewer, crown, false, now);
        let n = game.players.len() as int;
        assert(is_viewer(to[to.len() - 1], game.players));
        let v = choose|v: int|
            0 <= v < n && (#[trigger] game.players[v]).alive && viewer == (
                game.players[v].id,
                game.players[v].position,
            );
        assert(earlier.players[v].id == viewer.0);
        crate::game::lemma_index_of(earlier.players, viewer.0);
        crate::game::lemma_index_of(told.players, viewer.0);
        let last = told.outbox[earlier.outbox.len() as int];
        if viewer.0 == game.players[i].id {
            if v < i {
                assert(game.players[v].id != game.players[i].id);
            } else if i < v {
                assert(game.players[i].id != game.players[v].id);
            }
            lemma_entered_alike(game.cell_size, earlier.players, game.players);
            lemma_in_view(game.players[j].position, viewer.1);
            assert(earlier.players[j].position == game.players[j].position);
            assert(earlier.players[j].id == game.players[j].id);
            crate::sight::lemma_in_sight_is_told(earlier, j, viewer.1, crown, now);
            let shown = crate::broadcast::visible(
                earlier.players,
                earlier.found_around(viewer.1),
                viewer.1,
                crown,
                now,
            );
            let entry = earlier.players[j].shown(crown == Some(earlier.players[j].id), now);
            let k = choose|k: int| 0 <= k < shown.len() && shown[k] == entry;
            assert(last.msg->Tick_players[k].id == game.players[j].id);
        }
        assert(shown_to(last, game.players[i].id, game.players[j].id)) by {
            if last.recipients == seq![game.players[i].id] {
                assert(last.recipients[0] == viewer.0);
                assert(seq![game.players[i].id][0] == game.players[i].id);
            }
        }
        assert forall|m: int| game.outbox.len() <= m < after.outbox.len() implies shown_to(
            #[trigger] after.outbox[m],
            game.players[i].id,
            game.players[j].id,
        ) by {
            if m < earlier.outbox.len() {
                assert(after.outbox[m] == earlier.outbox[m]);
            } else if m == earlier.outbox.len() {
                assert(after.outbox[m] == last);
            }
        }
    }
}

proof fn lemma_entered_alike(cell_size: Float64, a: Seq<PlayerView>, b: Seq<PlayerView>)
    requires
        alike_but_seen(a, b),
    ensures
        crate::tick::entered(cell_size, a) == crate::tick::entered(cell_size, b),
    decreases a.len(),
{
    if a.len() > 0 {
        let n = a.len() - 1;
        assert(a[n] == (PlayerView {
            last_territory_version: a[n].last_territory_version,
            ..b[n]
        }));
        assert forall|i: int| 0 <= i < n implies #[trigger] a.drop_last()[i] == (PlayerView {
            last_territory_version: a.drop_last()[i].last_territory_version,
            ..b.drop_last()[i]
        }) by {
            assert(a[i] == (PlayerView {
                last_territory_version: a[i].last_territory_version,
                ..b[i]
            }));
        }
        lemma_entered_alike(cell_size, a.drop_last(), b.drop_last());
    }
}

/// While the grid is up to date, every tick for a player shows every living player in its view.
pub proof fn lemma_ticks_show_all_in_view(
    game: GameView,
    areas: Seq<Float64>,
    now: u64,
    i: int,
    j: int,
)
    requires
        crate::spoils::distinct_ids(game.players),
        game.cell_size == (Float64 { bits: SPATIAL_CELL_SIZE }),
        game.cells == crate::tick::entered(game.cell_size, game.players),
        0 <= i < game.players.len(),
        0 <= j < game.players.len(),
        game.players[j].alive,
        in_view(game.players[j].position, game.players[i].position),
    ensures
        ({
            let after = game.broadcasted(areas, now);
            forall|m: int|
                game.outbox.len() <= m < after.outbox.len() ==> shown_to(
                    #[trigger] after.outbox[m],
                    game.players[i].id,
                    game.players[j].id,
                )
        }),
{
    let n = game.players.len() as int;
    let to = crate::broadcast::viewers(game.players);
    let crown = crate::ranking::first_by_area(game.players, areas);
    let territories = game.tick_count % crate::broadcast::TERRITORY_INTERVAL == 0;
    let told = game.viewers_told(to, crown, territories, now);
    let after = game.broadcasted(areas, now);
    assert(game.players.take(n) =~= game.players);
    lemma_viewers(game.players, n);
    lemma_told_of_all_in_view(game, to, crown, territories, now, i, j);
    lemma_viewers_told_truly(game, to, crown, territories, now);
    assert forall|m: int| game.outbox.len() <= m < after.outbox.len() implies shown_to(
        #[trigger] after.outbox[m],
        game.players[i].id,
        game.players[j].id,
    ) by {
        if m < told.outbox.len() {
            assert(after.outbox[m] == told.outbox[m]);
        }
    }
}

}
