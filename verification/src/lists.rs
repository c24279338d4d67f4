//! Leaderboards, held against the players they list.
use crate::float64::Float64;
use crate::player::PlayerView;
use crate::protocol::EntryView;
use crate::ranking::{AreaStanding, KillStanding};
use vstd::prelude::*;

verus! {

/// Whether some lines list players by kills: each line has the name and the kills of its own living
/// player, of one with a kill at least; nobody is listed twice; nobody is listed after one with
/// fewer; and who is left out has no more than the last of ten.
pub open spec fn is_kill_list(
    lines: Seq<EntryView>,
    who: Seq<int>,
    players: Seq<PlayerView>,
) -> bool {
    &&& lines.len() == who.len()
    &&& lines.len() <= 10
    &&& who.no_duplicates()
    &&& forall|i: int|
        0 <= i < who.len() ==> 0 <= #[trigger] who[i] < players.len() && players[who[i]].alive
            && players[who[i]].kill_count > 0 && lines[i].name == players[who[i]].name
            && lines[i].value == players[who[i]].kill_count
    &&& forall|i: int, j: int|
        0 <= i < j < lines.len() ==> (#[trigger] lines[i]).value >= (#[trigger] lines[j]).value
    &&& forall|p: int|
        #![trigger players[p]]
        0 <= p < players.len() && players[p].alive && players[p].kill_count > 0 && !who.contains(p)
            ==> lines.len() == 10 && players[p].kill_count <= lines[9].value
}

/// Whether some lines list players by area: each line has the name and the whole units of its own
/// living player; nobody is listed twice; nobody is listed after one with less; and who is left out
/// has no more than the last of ten.
pub open spec fn is_area_list(
    lines: Seq<EntryView>,
    who: Seq<int>,
    players: Seq<PlayerView>,
    areas: Seq<Float64>,
) -> bool {
    &&& lines.len() == who.len()
    &&& lines.len() <= 10
    &&& who.no_duplicates()
    &&& forall|i: int|
        0 <= i < who.len() ==> 0 <= #[trigger] who[i] < players.len() && players[who[i]].alive
            && lines[i].name == players[who[i]].name && is_whole_part(
            lines[i].value,
            areas[who[i]],
        )
    &&& forall|i: int, j: int|
        0 <= i < j < who.len() ==> areas[#[trigger] who[i]].value()
            >= areas[#[trigger] who[j]].value()
    &&& forall|p: int|
        #![trigger players[p]]
        0 <= p < players.len() && players[p].alive && !who.contains(p) ==> lines.len() == 10
            && areas[p].value() <= areas[who[9]].value()
}

/// Whether a number is another without its fraction; as much as a line can show of larger ones.
pub open spec fn is_whole_part(n: u32, a: Float64) -> bool {
    let one = crate::float64::unity();
    a.value() >= 0 ==> n * one <= a.value() && (n < u32::MAX ==> a.value() < (n + 1) * one)
}

proof fn lemma_whole_part(a: Float64)
    requires
        !a.nan(),
    ensures
        is_whole_part(a.trunc_u32(), a),
{
    reveal(crate::float64::trunc_clipped);
    crate::rounding::lemma_units_of_one();
    assert(crate::float64::units(0) == 0);
    let one = crate::float64::unity() as int;
    let v = a.value();
    if v >= 0 {
        if a.negative() {
            assert(v == 0);
        } else {
            let w = v / one;
            assert(w * one <= v < (w + 1) * one) by (nonlinear_arith)
                requires
                    w == v / one,
                    one > 0,
            ;
            if w > u32::MAX {
                assert(u32::MAX * one <= w * one) by (nonlinear_arith)
                    requires
                        w > u32::MAX,
                        one > 0,
                ;
            }
            assert(w >= 0) by (nonlinear_arith)
                requires
                    w == v / one,
                    v >= 0,
                    one > 0,
            ;
        }
    }
}

// ---------------------------------------------------------------------------------------------
// By kills
// ---------------------------------------------------------------------------------------------

proof fn lemma_scored(players: Seq<PlayerView>)
    requires
        players.len() <= usize::MAX,
    ensures
        ({
            let s = crate::ranking::kill_standings(players, true);
            &&& forall|k: int|
                0 <= k < s.len() ==> 0 <= (#[trigger] s[k]).index < players.len()
                    && players[s[k].index as int].alive && players[s[k].index as int].kill_count > 0
                    && s[k].kills == players[s[k].index as int].kill_count
            &&& forall|p: int|
                #![trigger players[p]]
                0 <= p < players.len() && players[p].alive && players[p].kill_count > 0
                    ==> s.contains(KillStanding { index: p as usize, kills: players[p].kill_count })
            &&& forall|a: int, b: int|
                0 <= a < b < s.len() ==> (#[trigger] s[a]).index < (#[trigger] s[b]).index
        }),
    decreases players.len(),
{
    if players.len() > 0 {
        let n = players.len() - 1;
        let shorter = players.drop_last();
        lemma_scored(shorter);
        let earlier = crate::ranking::kill_standings(shorter, true);
        let s = crate::ranking::kill_standings(players, true);
        assert forall|k: int| 0 <= k < s.len() implies 0 <= (#[trigger] s[k]).index < players.len()
            && players[s[k].index as int].alive && players[s[k].index as int].kill_count > 0
            && s[k].kills == players[s[k].index as int].kill_count by {
            if k < earlier.len() {
                assert(s[k] == earlier[k]);
                assert(shorter[s[k].index as int] == players[s[k].index as int]);
            }
        }
        assert forall|p: int|
            #![trigger players[p]]
            0 <= p < players.len() && players[p].alive && players[p].kill_count
                > 0 implies s.contains(
            KillStanding { index: p as usize, kills: players[p].kill_count },
        ) by {
            let e = KillStanding { index: p as usize, kills: players[p].kill_count };
            if p < n {
                assert(shorter[p] == players[p]);
                assert(earlier.contains(e));
                let k = choose|k: int| 0 <= k < earlier.len() && earlier[k] == e;
                assert(s[k] == e);
            } else {
                assert(s[s.len() - 1] == e);
            }
        }
        assert forall|a: int, b: int| 0 <= a < b < s.len() implies (#[trigger] s[a]).index < (
        #[trigger] s[b]).index by {
            assert(s[a] == earlier[a]);
            if b < earlier.len() {
                assert(s[b] == earlier[b]);
            }
        }
    }
}

/// The places of those who are listed by kills.
pub open spec fn listed_by_kills(players: Seq<PlayerView>) -> Seq<int> {
    let ranked = crate::ranking::ranked_by_kills(crate::ranking::kill_standings(players, true));
    Seq::new(crate::ranking::kill_lines(players).len(), |i: int| ranked[i].index as int)
}

/// The leaderboard by kills lists the first ten of those with a kill, by their kills.
pub proof fn lemma_leaderboard_by_kills(players: Seq<PlayerView>)
    requires
        players.len() <= usize::MAX,
    ensures
        is_kill_list(crate::ranking::kill_lines(players), listed_by_kills(players), players),
{
    broadcast use vstd::seq_lib::group_to_multiset_ensures;

    let s = crate::ranking::kill_standings(players, true);
    let ranked = crate::ranking::ranked_by_kills(s);
    let lines = crate::ranking::kill_lines(players);
    let who = listed_by_kills(players);
    lemma_scored(players);
    crate::ranking::lemma_ranked_by_kills_keeps(s);
    crate::ranking::lemma_ranked_by_kills_ordered(s);
    assert(s.no_duplicates());
    s.lemma_multiset_has_no_duplicates();
    ranked.lemma_multiset_has_no_duplicates_conv();
    assert forall|i: int| 0 <= i < ranked.len() implies s.contains(#[trigger] ranked[i]) by {
        assert(ranked.to_multiset().count(ranked[i]) > 0);
    }
    assert forall|i: int| 0 <= i < ranked.len() implies 0 <= (#[trigger] ranked[i]).index
        < players.len() && players[ranked[i].index as int].alive
        && players[ranked[i].index as int].kill_count > 0 && ranked[i].kills
        == players[ranked[i].index as int].kill_count by {
        assert(s.contains(ranked[i]));
        let k = choose|k: int| 0 <= k < s.len() && s[k] == ranked[i];
        assert(s[k] == ranked[i]);
    }
    assert forall|i: int, j: int| 0 <= i < who.len() && 0 <= j < who.len() && i != j implies who[i]
        != who[j] by {
        if who[i] == who[j] {
            assert(ranked[i].index == ranked[j].index);
            assert(ranked[i] == ranked[j]);
        }
    }
    assert forall|p: int|
        #![trigger players[p]]
        0 <= p < players.len() && players[p].alive && players[p].kill_count > 0 && !who.contains(
            p,
        ) implies lines.len() == 10 && players[p].kill_count <= lines[9].value by {
        let e = KillStanding { index: p as usize, kills: players[p].kill_count };
        assert(s.contains(e));
        assert(ranked.to_multiset().count(e) > 0);
        assert(ranked.contains(e));
        let k = choose|k: int| 0 <= k < ranked.len() && ranked[k] == e;
        if k < who.len() {
            assert(who[k] == p);
        } else {
            assert(ranked[9].kills >= ranked[k].kills);
        }
    }
    assert forall|i: int, j: int| 0 <= i < j < lines.len() implies (#[trigger] lines[i]).value >= (
    #[trigger] lines[j]).value by {
        assert(ranked[i].kills >= ranked[j].kills);
    }
}

// ---------------------------------------------------------------------------------------------
// By area
// ---------------------------------------------------------------------------------------------

proof fn lemma_standing(players: Seq<PlayerView>, areas: Seq<Float64>)
    requires
        players.len() <= usize::MAX,
    ensures
        ({
            let s = crate::ranking::area_standings(players, areas);
            &&& forall|k: int|
                0 <= k < s.len() ==> 0 <= (#[trigger] s[k]).index < players.len()
                    && players[s[k].index as int].alive && s[k].id
                    == players[s[k].index as int].id && s[k].area == areas[s[k].index as int]
            &&& forall|p: int|
                #![trigger players[p]]
                0 <= p < players.len() && players[p].alive ==> s.contains(
                    AreaStanding { index: p as usize, id: players[p].id, area: areas[p] },
                )
            &&& forall|a: int, b: int|
                0 <= a < b < s.len() ==> (#[trigger] s[a]).index < (#[trigger] s[b]).index
        }),
    decreases players.len(),
{
    if players.len() > 0 {
        let n = players.len() - 1;
        let shorter = players.drop_last();
        lemma_standing(shorter, areas);
        let earlier = crate::ranking::area_standings(shorter, areas);
        let s = crate::ranking::area_standings(players, areas);
        assert forall|k: int| 0 <= k < s.len() implies 0 <= (#[trigger] s[k]).index < players.len()
            && players[s[k].index as int].alive && s[k].id == players[s[k].index as int].id
            && s[k].area == areas[s[k].index as int] by {
            if k < earlier.len() {
                assert(s[k] == earlier[k]);
                assert(shorter[s[k].index as int] == players[s[k].index as int]);
            }
        }
        assert forall|p: int|
            #![trigger players[p]]
            0 <= p < players.len() && players[p].alive implies s.contains(
            AreaStanding { index: p as usize, id: players[p].id, area: areas[p] },
        ) by {
            let e = AreaStanding { index: p as usize, id: players[p].id, area: areas[p] };
            if p < n {
                assert(shorter[p] == players[p]);
                assert(earlier.contains(e));
                let k = choose|k: int| 0 <= k < earlier.len() && earlier[k] == e;
                assert(s[k] == e);
            } else {
                assert(s[s.len() - 1] == e);
            }
        }
        assert forall|a: int, b: int| 0 <= a < b < s.len() implies (#[trigger] s[a]).index < (
        #[trigger] s[b]).index by {
            assert(s[a] == earlier[a]);
            if b < earlier.len() {
                assert(s[b] == earlier[b]);
            }
        }
    }
}

/// The places of those who are listed by area.
pub open spec fn listed_by_area(players: Seq<PlayerView>, areas: Seq<Float64>) -> Seq<int> {
    let ranked = crate::ranking::ranked_by_area(crate::ranking::area_standings(players, areas));
    Seq::new(crate::ranking::area_lines(players, areas).len(), |i: int| ranked[i].index as int)
}

/// The leaderboard by area lists the first ten of the living, by their areas.
pub proof fn lemma_leaderboard_by_area(players: Seq<PlayerView>, areas: Seq<Float64>)
    requires
        players.len() <= usize::MAX,
        areas.len() == players.len(),
        forall|k: int| 0 <= k < areas.len() ==> !(#[trigger] areas[k]).nan(),
    ensures
        is_area_list(
            crate::ranking::area_lines(players, areas),
            listed_by_area(players, areas),
            players,
            areas,
        ),
{
    broadcast use vstd::seq_lib::group_to_multiset_ensures;

    let s = crate::ranking::area_standings(players, areas);
    let ranked = crate::ranking::ranked_by_area(s);
    let lines = crate::ranking::area_lines(players, areas);
    let who = listed_by_area(players, areas);
    lemma_standing(players, areas);
    crate::ranking::lemma_area_standings_known(players, areas);
    crate::ranking::lemma_ranked_by_area_keeps(s);
    crate::ranking::lemma_ranked_by_area_ordered(s);
    assert(s.no_duplicates());
    s.lemma_multiset_has_no_duplicates();
    ranked.lemma_multiset_has_no_duplicates_conv();
    assert forall|i: int| 0 <= i < ranked.len() implies 0 <= (#[trigger] ranked[i]).index
        < players.len() && players[ranked[i].index as int].alive && ranked[i].id
        == players[ranked[i].index as int].id && ranked[i].area
        == areas[ranked[i].index as int] by {
        assert(ranked.to_multiset().count(ranked[i]) > 0);
        assert(s.contains(ranked[i]));
        let k = choose|k: int| 0 <= k < s.len() && s[k] == ranked[i];
        assert(s[k] == ranked[i]);
    }
    assert forall|i: int, j: int| 0 <= i < who.len() && 0 <= j < who.len() && i != j implies who[i]
        != who[j] by {
        if who[i] == who[j] {
            assert(ranked[i].index == ranked[j].index);
            assert(ranked[i] == ranked[j]);
        }
    }
    assert forall|i: int| 0 <= i < who.len() implies 0 <= #[trigger] who[i] < players.len()
        && players[who[i]].alive && lines[i].name == players[who[i]].name && is_whole_part(
        lines[i].value,
        areas[who[i]],
    ) by {
        assert(ranked[i].area == areas[who[i]]);
        lemma_whole_part(areas[who[i]]);
    }
    assert forall|i: int, j: int| 0 <= i < j < ranked.len() implies (
    #[trigger] ranked[i]).area.value() >= (#[trigger] ranked[j]).area.value() by {
        assert(!ranked[j].ahead(ranked[i]));
        assert(!areas[ranked[i].index as int].nan() && !areas[ranked[j].index as int].nan());
    }
    assert forall|p: int|
        #![trigger players[p]]
        0 <= p < players.len() && players[p].alive && !who.contains(p) implies lines.len() == 10
        && areas[p].value() <= areas[who[9]].value() by {
        let e = AreaStanding { index: p as usize, id: players[p].id, area: areas[p] };
        assert(s.contains(e));
        assert(ranked.to_multiset().count(e) > 0);
        assert(ranked.contains(e));
        let k = choose|k: int| 0 <= k < ranked.len() && ranked[k] == e;
        if k < who.len() {
            assert(who[k] == p);
        } else {
            assert(ranked[9].area.value() >= ranked[k].area.value());
        }
    }
}

}
