//! What the rankings say of the players: who leads, who wears the crown, who stands below whom.
use crate::float64::Float64;
use crate::game::{GameView, PacketView};
use crate::player::PlayerView;
use crate::protocol::{EntryView, PlayerId, Position, ServerMsgView};
use crate::ranking::{AreaStanding, KillStanding};
use vstd::prelude::*;

verus! {

// ---------------------------------------------------------------------------------------------
// Who is in a ranking
// ---------------------------------------------------------------------------------------------

/// The standing by area of the player at a place in the list.
pub open spec fn area_standing(
    players: Seq<PlayerView>,
    areas: Seq<Float64>,
    i: int,
) -> AreaStanding {
    AreaStanding { index: i as usize, id: players[i].id, area: areas[i] }
}

/// The standing by kills of the player at a place in the list.
pub open spec fn kill_standing(players: Seq<PlayerView>, i: int) -> KillStanding {
    KillStanding { index: i as usize, kills: players[i].kill_count }
}

proof fn lemma_area_standings(players: Seq<PlayerView>, areas: Seq<Float64>)
    requires
        players.len() <= usize::MAX,
    ensures
        forall|e: AreaStanding| #[trigger]
            crate::ranking::area_standings(players, areas).contains(e) ==> 0 <= e.index
                < players.len() && players[e.index as int].alive && e == area_standing(
                players,
                areas,
                e.index as int,
            ),
        forall|i: int|
            0 <= i < players.len() && (#[trigger] players[i]).alive
                ==> crate::ranking::area_standings(players, areas).contains(
                area_standing(players, areas, i),
            ),
    decreases players.len(),
{
    let s = crate::ranking::area_standings(players, areas);
    if players.len() > 0 {
        let n = players.len() - 1;
        let shorter = players.drop_last();
        let earlier = crate::ranking::area_standings(shorter, areas);
        lemma_area_standings(shorter, areas);
        assert forall|e: AreaStanding| #[trigger] s.contains(e) implies 0 <= e.index
            < players.len() && players[e.index as int].alive && e == area_standing(
            players,
            areas,
            e.index as int,
        ) by {
            let k = choose|k: int| 0 <= k < s.len() && s[k] == e;
            if k < earlier.len() {
                assert(earlier[k] == e);
                assert(earlier.contains(e));
                assert(shorter[e.index as int] == players[e.index as int]);
            }
        }
        assert forall|i: int| 0 <= i < players.len() && (#[trigger] players[i]).alive implies
            s.contains(area_standing(players, areas, i)) by {
            if i < n {
                assert(shorter[i] == players[i]);
                let e = area_standing(shorter, areas, i);
                let k = choose|k: int| 0 <= k < earlier.len() && earlier[k] == e;
                assert(s[k] == e);
            } else {
                assert(s[s.len() - 1] == area_standing(players, areas, i));
            }
        }
    }
}

proof fn lemma_kill_standings(players: Seq<PlayerView>)
    requires
        players.len() <= usize::MAX,
    ensures
        forall|e: KillStanding| #[trigger]
            crate::ranking::kill_standings(players, false).contains(e) ==> 0 <= e.index
                < players.len() && players[e.index as int].alive && e == kill_standing(
                players,
                e.index as int,
            ),
        forall|i: int|
            0 <= i < players.len() && (#[trigger] players[i]).alive
                ==> crate::ranking::kill_standings(players, false).contains(
                kill_standing(players, i),
            ),
        in_list_order(crate::ranking::kill_standings(players, false)),
    decreases players.len(),
{
    let s = crate::ranking::kill_standings(players, false);
    if players.len() > 0 {
        let n = players.len() - 1;
        let shorter = players.drop_last();
        let earlier = crate::ranking::kill_standings(shorter, false);
        lemma_kill_standings(shorter);
        assert forall|e: KillStanding| #[trigger] s.contains(e) implies 0 <= e.index
            < players.len() && players[e.index as int].alive && e == kill_standing(
            players,
            e.index as int,
        ) by {
            let k = choose|k: int| 0 <= k < s.len() && s[k] == e;
            if k < earlier.len() {
                assert(earlier[k] == e);
                assert(earlier.contains(e));
                assert(shorter[e.index as int] == players[e.index as int]);
            }
        }
        assert forall|i: int| 0 <= i < players.len() && (#[trigger] players[i]).alive implies
            s.contains(kill_standing(players, i)) by {
            if i < n {
                assert(shorter[i] == players[i]);
                let e = kill_standing(shorter, i);
                let k = choose|k: int| 0 <= k < earlier.len() && earlier[k] == e;
                assert(s[k] == e);
            } else {
                assert(s[s.len() - 1] == kill_standing(players, i));
            }
        }
        assert forall|a: int, b: int| 0 <= a < b < s.len() implies (#[trigger] s[a]).index < (
        #[trigger] s[b]).index by {
            assert(earlier[a] == s[a]);
            assert(earlier.contains(earlier[a]));
            if b < earlier.len() {
                assert(earlier[a].index < earlier[b].index);
            }
        }
    }
}

proof fn lemma_ranked_holds_area(s: Seq<AreaStanding>, e: AreaStanding)
    ensures
        crate::ranking::ranked_by_area(s).contains(e) == s.contains(e),
{
    broadcast use vstd::seq_lib::group_to_multiset_ensures;

    crate::ranking::lemma_ranked_by_area_keeps(s);
    let r = crate::ranking::ranked_by_area(s);
    assert(r.to_multiset().count(e) == s.to_multiset().count(e));
}

proof fn lemma_ranked_holds_kills(s: Seq<KillStanding>, e: KillStanding)
    ensures
        crate::ranking::ranked_by_kills(s).contains(e) == s.contains(e),
{
    broadcast use vstd::seq_lib::group_to_multiset_ensures;

    crate::ranking::lemma_ranked_by_kills_keeps(s);
    let r = crate::ranking::ranked_by_kills(s);
    assert(r.to_multiset().count(e) == s.to_multiset().count(e));
}

// ---------------------------------------------------------------------------------------------
// Those with as many kills stay in the order of the list
// ---------------------------------------------------------------------------------------------

/// Whether places go up along some standings.
pub open spec fn in_list_order(s: Seq<KillStanding>) -> bool {
    forall|a: int, b: int|
        0 <= a < b < s.len() ==> (#[trigger] s[a]).index < (#[trigger] s[b]).index
}

/// Whether one comes before another by kills: it has more, or as many and is before it in the list.
pub open spec fn before_by_kills(a: KillStanding, b: KillStanding) -> bool {
    a.kills > b.kills || (a.kills == b.kills && a.index < b.index)
}

spec fn in_full_order(s: Seq<KillStanding>) -> bool {
    forall|a: int, b: int|
        0 <= a < b < s.len() ==> before_by_kills(#[trigger] s[a], #[trigger] s[b])
}

proof fn lemma_placed_in_full_order(s: Seq<KillStanding>, e: KillStanding)
    requires
        in_full_order(s),
        forall|a: int| 0 <= a < s.len() ==> (#[trigger] s[a]).index < e.index,
    ensures
        in_full_order(crate::ranking::placed_by_kills(s, e)),
        forall|a: int|
            0 <= a < crate::ranking::placed_by_kills(s, e).len() ==> (
            #[trigger] crate::ranking::placed_by_kills(s, e)[a]) == e || s.contains(
                crate::ranking::placed_by_kills(s, e)[a],
            ),
    decreases s.len(),
{
    let r = crate::ranking::placed_by_kills(s, e);
    if s.len() > 0 && e.kills > s.last().kills {
        let shorter = s.drop_last();
        let inner = crate::ranking::placed_by_kills(shorter, e);
        let n = s.len() - 1;
        assert forall|a: int, b: int| 0 <= a < b < shorter.len() implies before_by_kills(
            #[trigger] shorter[a],
            #[trigger] shorter[b],
        ) by {
            assert(before_by_kills(s[a], s[b]));
        }
        assert forall|a: int| 0 <= a < shorter.len() implies (#[trigger] shorter[a]).index
            < e.index by {
            assert(s[a].index < e.index);
        }
        lemma_placed_in_full_order(shorter, e);
        assert forall|a: int| 0 <= a < inner.len() implies #[trigger] inner[a] == e || exists|
            k: int,
        |
            0 <= k < n && s[k] == inner[a] by {
            if inner[a] != e {
                assert(shorter.contains(inner[a]));
                let k = choose|k: int| 0 <= k < shorter.len() && shorter[k] == inner[a];
                assert(s[k] == inner[a]);
            }
        }
        assert forall|a: int, b: int| 0 <= a < b < r.len() implies before_by_kills(
            #[trigger] r[a],
            #[trigger] r[b],
        ) by {
            if b < inner.len() {
                assert(before_by_kills(inner[a], inner[b]));
            } else if inner[a] != e {
                let k = choose|k: int| 0 <= k < n && s[k] == inner[a];
                assert(before_by_kills(s[k], s[n]));
            }
        }
        assert forall|a: int| 0 <= a < r.len() implies (#[trigger] r[a]) == e || s.contains(
            r[a],
        ) by {
            if a < inner.len() {
                if inner[a] != e {
                    let k = choose|k: int| 0 <= k < n && s[k] == inner[a];
                    assert(s[k] == r[a]);
                }
            } else {
                assert(s[n] == r[a]);
            }
        }
    } else {
        assert forall|a: int, b: int| 0 <= a < b < r.len() implies before_by_kills(
            #[trigger] r[a],
            #[trigger] r[b],
        ) by {
            if b < s.len() {
                assert(before_by_kills(s[a], s[b]));
            } else if a < s.len() - 1 {
                assert(before_by_kills(s[a], s[s.len() - 1]));
            }
        }
        assert forall|a: int| 0 <= a < r.len() implies (#[trigger] r[a]) == e || s.contains(
            r[a],
        ) by {
            if a < s.len() {
                assert(s[a] == r[a]);
            }
        }
    }
}

proof fn lemma_ranked_in_full_order(s: Seq<KillStanding>)
    requires
        in_list_order(s),
    ensures
        in_full_order(crate::ranking::ranked_by_kills(s)),
    decreases s.len(),
{
    if s.len() > 0 {
        let shorter = s.drop_last();
        let ranked = crate::ranking::ranked_by_kills(shorter);
        assert forall|a: int, b: int| 0 <= a < b < shorter.len() implies (
        #[trigger] shorter[a]).index < (#[trigger] shorter[b]).index by {
            assert(s[a].index < s[b].index);
        }
        lemma_ranked_in_full_order(shorter);
        assert forall|a: int| 0 <= a < ranked.len() implies (#[trigger] ranked[a]).index
            < s.last().index by {
            lemma_ranked_holds_kills(shorter, ranked[a]);
            assert(ranked.contains(ranked[a]));
            let k = choose|k: int| 0 <= k < shorter.len() && shorter[k] == ranked[a];
            assert(s[k].index < s[s.len() - 1].index);
        }
        lemma_placed_in_full_order(ranked, s.last());
    }
}

// ---------------------------------------------------------------------------------------------
// Who stands below whom
// ---------------------------------------------------------------------------------------------

/// Of two living players one stands below the other by area or by kills just where it has the
/// smaller area, or as large a one under a higher id, or fewer kills, or as many and comes later in
/// the list.
pub proof fn lemma_stands_below(
    players: Seq<PlayerView>,
    areas: Seq<Float64>,
    i: int,
    j: int,
)
    requires
        players.len() <= usize::MAX,
        areas.len() >= players.len(),
        forall|k: int| 0 <= k < areas.len() ==> !(#[trigger] areas[k]).is_nan(),
        0 <= i < players.len(),
        0 <= j < players.len(),
        players[i].alive,
        players[j].alive,
        players[i].id != players[j].id,
    ensures
        crate::ranking::stands_below(players, areas, i, j) == (areas[j].lt(areas[i]) || (
        !areas[i].lt(areas[j]) && players[i].id < players[j].id) || players[i].kill_count
            > players[j].kill_count || (players[i].kill_count == players[j].kill_count && i < j)),
{
    let s = crate::ranking::area_standings(players, areas);
    let ranked = crate::ranking::ranked_by_area(s);
    let a = area_standing(players, areas, i);
    let b = area_standing(players, areas, j);
    lemma_area_standings(players, areas);
    crate::ranking::lemma_area_standings_known(players, areas);
    crate::ranking::lemma_ranked_by_area_ordered(s);
    lemma_ranked_holds_area(s, a);
    lemma_ranked_holds_area(s, b);
    let x = choose|x: int| 0 <= x < ranked.len() && ranked[x] == a;
    let y = choose|y: int| 0 <= y < ranked.len() && ranked[y] == b;
    assert(!areas[i].is_nan() && !areas[j].is_nan());
    if a.ahead(b) {
        if y < x {
            assert(!ranked[x].ahead(ranked[y]));
        }
        assert(ranked[x].index == i && ranked[y].index == j);
    }
    if crate::ranking::after_by_area(ranked, i, j) {
        let (u, v) = choose|u: int, v: int|
            0 <= u < v < ranked.len() && (#[trigger] ranked[u]).index == i && (
            #[trigger] ranked[v]).index == j;
        lemma_ranked_holds_area(s, ranked[u]);
        lemma_ranked_holds_area(s, ranked[v]);
        assert(ranked.contains(ranked[u]) && ranked.contains(ranked[v]));
        assert(s.contains(ranked[u]) && s.contains(ranked[v]));
        assert(!ranked[v].ahead(ranked[u]));
    }
    let t = crate::ranking::kill_standings(players, false);
    let killers = crate::ranking::ranked_by_kills(t);
    let c = kill_standing(players, i);
    let d = kill_standing(players, j);
    lemma_kill_standings(players);
    lemma_ranked_in_full_order(t);
    lemma_ranked_holds_kills(t, c);
    lemma_ranked_holds_kills(t, d);
    let z = choose|z: int| 0 <= z < killers.len() && killers[z] == c;
    let w = choose|w: int| 0 <= w < killers.len() && killers[w] == d;
    if before_by_kills(c, d) {
        if w < z {
            assert(before_by_kills(killers[w], killers[z]));
        }
        assert(killers[z].index == i && killers[w].index == j);
    }
    if crate::ranking::after_by_kills(killers, i, j) {
        let (u, v) = choose|u: int, v: int|
            0 <= u < v < killers.len() && (#[trigger] killers[u]).index == i && (
            #[trigger] killers[v]).index == j;
        lemma_ranked_holds_kills(t, killers[u]);
        lemma_ranked_holds_kills(t, killers[v]);
        assert(killers.contains(killers[u]) && killers.contains(killers[v]));
        assert(t.contains(killers[u]) && t.contains(killers[v]));
        assert(before_by_kills(killers[u], killers[v]));
    }
}

proof fn lemma_below_among_of_leader(
    players: Seq<PlayerView>,
    areas: Seq<Float64>,
    i: int,
    n: nat,
)
    requires
        n <= players.len() <= usize::MAX,
        areas.len() >= players.len(),
        forall|k: int| 0 <= k < areas.len() ==> !(#[trigger] areas[k]).is_nan(),
        leads_by_area(players, areas, i),
        forall|j: int|
            0 <= j < players.len() && j != i ==> (#[trigger] players[j]).id != players[i].id,
    ensures
        crate::ranking::below_among(players, areas, i, n) + (if i < n {
            1int
        } else {
            0int
        }) == crate::tick::living(players.take(n as int)),
    decreases n,
{
    if n > 0 {
        lemma_below_among_of_leader(players, areas, i, (n - 1) as nat);
        assert(players.take(n as int).drop_last() =~= players.take(n - 1));
        let j = n - 1;
        if j != i && players[j].alive {
            assert(players[j].id != players[i].id);
            lemma_stands_below(players, areas, i, j);
        }
    }
}

/// All other living players stand below the one who leads by area, each counted once, whatever
/// their kills.
pub proof fn lemma_all_stand_below_the_leader(
    players: Seq<PlayerView>,
    areas: Seq<Float64>,
    i: int,
)
    requires
        players.len() <= usize::MAX,
        areas.len() >= players.len(),
        forall|k: int| 0 <= k < areas.len() ==> !(#[trigger] areas[k]).is_nan(),
        leads_by_area(players, areas, i),
        forall|j: int|
            0 <= j < players.len() && j != i ==> (#[trigger] players[j]).id != players[i].id,
    ensures
        crate::ranking::below(players, areas, i) == crate::tick::living(players) - 1,
{
    lemma_below_among_of_leader(players, areas, i, players.len());
    assert(players.take(players.len() as int) =~= players);
}

// ---------------------------------------------------------------------------------------------
// The crown
// ---------------------------------------------------------------------------------------------

/// Whether the player at a place in the list leads by area: it lives, and no living player has a
/// larger area, nor as large a one under a lower id.
pub open spec fn leads_by_area(players: Seq<PlayerView>, areas: Seq<Float64>, i: int) -> bool {
    &&& 0 <= i < players.len()
    &&& players[i].alive
    &&& forall|j: int|
        0 <= j < players.len() && (#[trigger] players[j]).alive ==> areas[j].le(areas[i]) && (
        areas[i].le(areas[j]) ==> players[i].id <= players[j].id)
}

/// The crown goes to who leads by area, and there is one wherever someone lives. That player has
/// the first line of the leaderboard by area.
pub proof fn lemma_crown_has_most(players: Seq<PlayerView>, areas: Seq<Float64>)
    requires
        players.len() <= usize::MAX,
        areas.len() >= players.len(),
        forall|k: int| 0 <= k < areas.len() ==> !(#[trigger] areas[k]).is_nan(),
    ensures
        match crate::ranking::first_by_area(players, areas) {
            Some(id) => exists|i: int| #[trigger]
                leads_by_area(players, areas, i) && players[i].id == id
                    && crate::ranking::area_lines(players, areas).len() > 0
                    && crate::ranking::area_lines(players, areas)[0] == (EntryView {
                    name: players[i].name,
                    value: areas[i].trunc_u32(),
                }),
            None => forall|i: int| 0 <= i < players.len() ==> !(#[trigger] players[i]).alive,
        },
{
    let s = crate::ranking::area_standings(players, areas);
    let ranked = crate::ranking::ranked_by_area(s);
    lemma_area_standings(players, areas);
    crate::ranking::lemma_area_standings_known(players, areas);
    crate::ranking::lemma_ranked_by_area_ordered(s);
    if ranked.len() == 0 {
        assert forall|i: int| 0 <= i < players.len() implies !(#[trigger] players[i]).alive by {
            lemma_ranked_holds_area(s, area_standing(players, areas, i));
        }
    } else {
        let first = ranked[0];
        lemma_ranked_holds_area(s, first);
        assert(ranked.contains(first));
        assert(s.contains(first));
        let i = first.index as int;
        assert forall|j: int| 0 <= j < players.len() && (#[trigger] players[j]).alive implies
            areas[j].le(areas[i]) && (areas[i].le(areas[j]) ==> players[i].id
            <= players[j].id) by {
            let e = area_standing(players, areas, j);
            lemma_ranked_holds_area(s, e);
            let k = choose|k: int| 0 <= k < ranked.len() && ranked[k] == e;
            assert(!areas[i].is_nan() && !areas[j].is_nan());
            if k > 0 {
                assert(!ranked[k].ahead(ranked[0]));
            }
        }
        assert(leads_by_area(players, areas, i));
    }
}

/// All who lead by area have the same id.
pub proof fn lemma_one_leads_by_area(
    players: Seq<PlayerView>,
    areas: Seq<Float64>,
    i: int,
    j: int,
)
    requires
        leads_by_area(players, areas, i),
        leads_by_area(players, areas, j),
    ensures
        players[i].id == players[j].id,
{
    assert(players[i].alive && players[j].alive);
}

/// Whether a packet is no tick, or one that shows a crown on just the player of an id.
pub open spec fn crowns(packet: PacketView, crown: Option<PlayerId>) -> bool {
    packet.msg matches ServerMsgView::Tick { players, board_radius } ==> forall|k: int|
        0 <= k < players.len() ==> (#[trigger] players[k]).has_crown == (crown == Some(
            players[k].id,
        ))
}

proof fn lemma_visible_crowns(
    players: Seq<PlayerView>,
    found: Seq<PlayerId>,
    at: Position,
    crown: Option<PlayerId>,
    now: u64,
)
    ensures
        ({
            let shown = crate::broadcast::visible(players, found, at, crown, now);
            forall|k: int|
                0 <= k < shown.len() ==> (#[trigger] shown[k]).has_crown == (crown == Some(
                    shown[k].id,
                ))
        }),
    decreases players.len(),
{
    if players.len() > 0 {
        lemma_visible_crowns(players.drop_last(), found, at, crown, now);
        let earlier = crate::broadcast::visible(players.drop_last(), found, at, crown, now);
        let shown = crate::broadcast::visible(players, found, at, crown, now);
        assert forall|k: int| 0 <= k < shown.len() implies (#[trigger] shown[k]).has_crown == (
        crown == Some(shown[k].id)) by {
            if k < earlier.len() {
                assert(shown[k] == earlier[k]);
            } else {
                assert(shown[k] == players.last().shown(crown == Some(players.last().id), now));
            }
        }
    }
}

proof fn lemma_viewers_told_crowns(
    game: GameView,
    to: Seq<(PlayerId, Position)>,
    crown: Option<PlayerId>,
    territories: bool,
    now: u64,
)
    ensures
        ({
            let after = game.viewers_told(to, crown, territories, now);
            &&& game.outbox.is_prefix_of(after.outbox)
            &&& forall|k: int|
                game.outbox.len() <= k < after.outbox.len() ==> crowns(
                    #[trigger] after.outbox[k],
                    crown,
                )
            &&& after.players.len() == game.players.len()
            &&& forall|i: int|
                0 <= i < after.players.len() ==> #[trigger] after.players[i] == (PlayerView {
                    last_territory_version: after.players[i].last_territory_version,
                    ..game.players[i]
                })
        }),
    decreases to.len(),
{
    if to.len() > 0 {
        let earlier = game.viewers_told(to.drop_last(), crown, territories, now);
        lemma_viewers_told_crowns(game, to.drop_last(), crown, territories, now);
        let viewer = to.last();
        lemma_visible_crowns(
            earlier.players,
            earlier.found_around(viewer.1),
            viewer.1,
            crown,
            now,
        );
        let told = earlier.viewer_told(viewer, crown, false, now);
        let after = earlier.viewer_told(viewer, crown, territories, now);
        crate::game::lemma_index_of(told.players, viewer.0);
        assert forall|k: int| game.outbox.len() <= k < told.outbox.len() implies crowns(
            #[trigger] told.outbox[k],
            crown,
        ) by {
            if k < earlier.outbox.len() {
                assert(told.outbox[k] == earlier.outbox[k]);
            }
        }
        assert forall|k: int| game.outbox.len() <= k < after.outbox.len() implies crowns(
            #[trigger] after.outbox[k],
            crown,
        ) by {
            if k < told.outbox.len() {
                assert(after.outbox[k] == told.outbox[k]);
            }
        }
    }
}

/// Every tick that one call sends shows a crown on the same player and on no other: the one who is
/// first by area. The leaderboard that goes with it is that of the players as they were.
pub proof fn lemma_ticks_crown_the_first(game: GameView, areas: Seq<Float64>, now: u64)
    requires
        game.players.len() <= usize::MAX,
    ensures
        ({
            let after = game.broadcasted(areas, now);
            let crown = crate::ranking::first_by_area(game.players, areas);
            &&& game.outbox.is_prefix_of(after.outbox)
            &&& forall|k: int|
                game.outbox.len() <= k < after.outbox.len() ==> crowns(
                    #[trigger] after.outbox[k],
                    crown,
                )
            &&& forall|k: int|
                game.outbox.len() <= k < after.outbox.len() ==> ((
                #[trigger] after.outbox[k]).msg matches ServerMsgView::Leaderboard(board)
                    ==> board == crate::ranking::leaderboard(game.players, areas))
        }),
{
    let crown = crate::ranking::first_by_area(game.players, areas);
    let to = crate::broadcast::viewers(game.players);
    let territories = game.tick_count % crate::broadcast::TERRITORY_INTERVAL == 0;
    let told = game.viewers_told(to, crown, territories, now);
    let after = game.broadcasted(areas, now);
    lemma_viewers_told_crowns(game, to, crown, territories, now);
    lemma_viewers_told_no_board(game, to, crown, territories, now);
    lemma_same_leaderboard(told.players, game.players, areas);
    assert forall|k: int| game.outbox.len() <= k < after.outbox.len() implies crowns(
        #[trigger] after.outbox[k],
        crown,
    ) && (after.outbox[k].msg matches ServerMsgView::Leaderboard(board) ==> board
        == crate::ranking::leaderboard(game.players, areas)) by {
        if k < told.outbox.len() {
            assert(after.outbox[k] == told.outbox[k]);
        }
    }
}

proof fn lemma_viewers_told_no_board(
    game: GameView,
    to: Seq<(PlayerId, Position)>,
    crown: Option<PlayerId>,
    territories: bool,
    now: u64,
)
    ensures
        ({
            let after = game.viewers_told(to, crown, territories, now);
            &&& game.outbox.is_prefix_of(after.outbox)
            &&& forall|k: int|
                game.outbox.len() <= k < after.outbox.len() ==> (#[trigger] after.outbox[k]).msg
                    !is Leaderboard
        }),
    decreases to.len(),
{
    if to.len() > 0 {
        let earlier = game.viewers_told(to.drop_last(), crown, territories, now);
        lemma_viewers_told_no_board(game, to.drop_last(), crown, territories, now);
        let after = earlier.viewer_told(to.last(), crown, territories, now);
        assert forall|k: int| game.outbox.len() <= k < after.outbox.len() implies (
        #[trigger] after.outbox[k]).msg !is Leaderboard by {
            if k < earlier.outbox.len() {
                assert(after.outbox[k] == earlier.outbox[k]);
            }
        }
    }
}

/// Leaderboards depend on who lives, on ids, names and kills, and on areas.
proof fn lemma_same_leaderboard(a: Seq<PlayerView>, b: Seq<PlayerView>, areas: Seq<Float64>)
    requires
        a.len() == b.len(),
        forall|i: int|
            0 <= i < a.len() ==> (#[trigger] a[i]).alive == b[i].alive && a[i].id == b[i].id
                && a[i].name == b[i].name && a[i].kill_count == b[i].kill_count,
        a.len() <= usize::MAX,
    ensures
        crate::ranking::leaderboard(a, areas) == crate::ranking::leaderboard(b, areas),
{
    lemma_same_standings(a, b, areas);
    let ranked = crate::ranking::ranked_by_area(crate::ranking::area_standings(a, areas));
    crate::ranking::lemma_ranked_area_names(a, areas);
    assert forall|i: int| 0 <= i < ranked.len() implies a[(
    #[trigger] ranked[i]).index as int].name == b[ranked[i].index as int].name by {
        assert(a[ranked[i].index as int].id == ranked[i].id);
    }
    assert(crate::ranking::area_lines(a, areas) =~= crate::ranking::area_lines(b, areas));
    let scored = crate::ranking::kill_standings(a, true);
    let killers = crate::ranking::ranked_by_kills(scored);
    lemma_scored_places(a);
    assert forall|i: int| 0 <= i < killers.len() implies a[(
    #[trigger] killers[i]).index as int].name == b[killers[i].index as int].name by {
        lemma_ranked_holds_kills(scored, killers[i]);
        assert(killers.contains(killers[i]));
        let p = a[killers[i].index as int];
    }
    assert(crate::ranking::kill_lines(a) =~= crate::ranking::kill_lines(b));
}

proof fn lemma_scored_places(players: Seq<PlayerView>)
    requires
        players.len() <= usize::MAX,
    ensures
        forall|e: KillStanding| #[trigger]
            crate::ranking::kill_standings(players, true).contains(e) ==> 0 <= e.index
                < players.len(),
    decreases players.len(),
{
    let s = crate::ranking::kill_standings(players, true);
    if players.len() > 0 {
        let earlier = crate::ranking::kill_standings(players.drop_last(), true);
        lemma_scored_places(players.drop_last());
        assert forall|e: KillStanding| #[trigger] s.contains(e) implies 0 <= e.index
            < players.len() by {
            let k = choose|k: int| 0 <= k < s.len() && s[k] == e;
            if k < earlier.len() {
                assert(earlier[k] == e);
                assert(earlier.contains(e));
            }
        }
    }
}

proof fn lemma_same_standings(a: Seq<PlayerView>, b: Seq<PlayerView>, areas: Seq<Float64>)
    requires
        a.len() == b.len(),
        forall|i: int|
            0 <= i < a.len() ==> (#[trigger] a[i]).alive == b[i].alive && a[i].id == b[i].id
                && a[i].kill_count == b[i].kill_count,
    ensures
        crate::ranking::area_standings(a, areas) == crate::ranking::area_standings(b, areas),
        crate::ranking::kill_standings(a, true) == crate::ranking::kill_standings(b, true),
    decreases a.len(),
{
    if a.len() > 0 {
        let n = a.len() - 1;
        assert(a[n].alive == b[n].alive);
        assert forall|i: int| 0 <= i < n implies (#[trigger] a.drop_last()[i]).alive
            == b.drop_last()[i].alive && a.drop_last()[i].id == b.drop_last()[i].id
            && a.drop_last()[i].kill_count == b.drop_last()[i].kill_count by {
            assert(a[i].alive == b[i].alive);
        }
        lemma_same_standings(a.drop_last(), b.drop_last(), areas);
    }
}

}
