//! Who leads: by area, and by kills.
use crate::float64::Float64;
use crate::player::{Player, PlayerView};
use crate::protocol::{
    EntryView, LeaderboardData, LeaderboardEntryData, LeaderboardView, PlayerId,
};
use vstd::prelude::*;

verus! {

/// How many lines a leaderboard has at most.
pub const LEADERBOARD_LINES: usize = 10;

/// A living player's place in the list of players, its id and its area.
#[derive(Clone, Copy, Debug, PartialEq, Eq, Structural)]
pub struct AreaStanding {
    pub index: usize,
    pub id: PlayerId,
    pub area: Float64,
}

/// A living player's place in the list of players and its kills.
#[derive(Clone, Copy, Debug, PartialEq, Eq, Structural)]
pub struct KillStanding {
    pub index: usize,
    pub kills: u32,
}

impl AreaStanding {
    /// What `ahead` returns.
    pub open spec fn spec_ahead(self, other: AreaStanding) -> bool {
        other.area.lt(self.area) || (!self.area.lt(other.area) && self.id < other.id)
    }

    /// Whether one area outranks another: the larger, and of two alike that of the lower id.
    #[verifier::when_used_as_spec(spec_ahead)]
    pub fn ahead(self, other: AreaStanding) -> (r: bool)
        ensures
            r == self.spec_ahead(other),
    {
        other.area.lt(self.area) || (!self.area.lt(other.area) && self.id < other.id)
    }
}

/// A ranking by area with one standing more in its place.
pub open spec fn placed_by_area(s: Seq<AreaStanding>, e: AreaStanding) -> Seq<AreaStanding>
    decreases s.len(),
{
    if s.len() > 0 && e.ahead(s.last()) {
        placed_by_area(s.drop_last(), e).push(s.last())
    } else {
        s.push(e)
    }
}

/// The standings, those with the larger area first.
pub open spec fn ranked_by_area(s: Seq<AreaStanding>) -> Seq<AreaStanding>
    decreases s.len(),
{
    if s.len() == 0 {
        Seq::empty()
    } else {
        placed_by_area(ranked_by_area(s.drop_last()), s.last())
    }
}

/// A ranking by kills with one standing more in its place.
pub open spec fn placed_by_kills(s: Seq<KillStanding>, e: KillStanding) -> Seq<KillStanding>
    decreases s.len(),
{
    if s.len() > 0 && e.kills > s.last().kills {
        placed_by_kills(s.drop_last(), e).push(s.last())
    } else {
        s.push(e)
    }
}

/// The standings, those with more kills first, those with as many in the order given.
pub open spec fn ranked_by_kills(s: Seq<KillStanding>) -> Seq<KillStanding>
    decreases s.len(),
{
    if s.len() == 0 {
        Seq::empty()
    } else {
        placed_by_kills(ranked_by_kills(s.drop_last()), s.last())
    }
}

proof fn lemma_placed_by_area_at(s: Seq<AreaStanding>, e: AreaStanding, pos: int)
    requires
        0 <= pos <= s.len(),
        forall|j: int| pos <= j < s.len() ==> e.ahead(#[trigger] s[j]),
        pos > 0 ==> !e.ahead(s[pos - 1]),
    ensures
        placed_by_area(s, e) == s.insert(pos, e),
    decreases s.len(),
{
    if pos == s.len() {
        assert(s.insert(pos, e) =~= s.push(e));
    } else {
        assert(e.ahead(s[s.len() - 1]));
        lemma_placed_by_area_at(s.drop_last(), e, pos);
        assert(s.drop_last().insert(pos, e).push(s.last()) =~= s.insert(pos, e));
    }
}

proof fn lemma_placed_by_kills_at(s: Seq<KillStanding>, e: KillStanding, pos: int)
    requires
        0 <= pos <= s.len(),
        forall|j: int| pos <= j < s.len() ==> e.kills > (#[trigger] s[j]).kills,
        pos > 0 ==> e.kills <= s[pos - 1].kills,
    ensures
        placed_by_kills(s, e) == s.insert(pos, e),
    decreases s.len(),
{
    if pos == s.len() {
        assert(s.insert(pos, e) =~= s.push(e));
    } else {
        assert(e.kills > s[s.len() - 1].kills);
        lemma_placed_by_kills_at(s.drop_last(), e, pos);
        assert(s.drop_last().insert(pos, e).push(s.last()) =~= s.insert(pos, e));
    }
}

/// Rank by area.
pub fn rank_by_area(s: &Vec<AreaStanding>) -> (r: Vec<AreaStanding>)
    ensures
        r@ == ranked_by_area(s@),
{
    let mut r: Vec<AreaStanding> = Vec::new();
    let mut i: usize = 0;
    while i < s.len()
        invariant
            i <= s@.len(),
            r@ == ranked_by_area(s@.take(i as int)),
        decreases s@.len() - i,
    {
        let e = s[i];
        let mut pos: usize = r.len();
        while pos > 0 && e.ahead(r[pos - 1])
            invariant
                pos <= r@.len(),
                forall|j: int| pos <= j < r@.len() ==> e.ahead(#[trigger] r@[j]),
            decreases pos,
        {
            pos -= 1;
        }
        proof {
            lemma_placed_by_area_at(r@, e, pos as int);
            assert(s@.take(i + 1).drop_last() =~= s@.take(i as int));
        }
        r.insert(pos, e);
        i += 1;
    }
    proof {
        assert(s@.take(i as int) =~= s@);
    }
    r
}

/// Rank by kills.
pub fn rank_by_kills(s: &Vec<KillStanding>) -> (r: Vec<KillStanding>)
    ensures
        r@ == ranked_by_kills(s@),
{
    let mut r: Vec<KillStanding> = Vec::new();
    let mut i: usize = 0;
    while i < s.len()
        invariant
            i <= s@.len(),
            r@ == ranked_by_kills(s@.take(i as int)),
        decreases s@.len() - i,
    {
        let e = s[i];
        let mut pos: usize = r.len();
        while pos > 0 && e.kills > r[pos - 1].kills
            invariant
                pos <= r@.len(),
                forall|j: int| pos <= j < r@.len() ==> e.kills > (#[trigger] r@[j]).kills,
            decreases pos,
        {
            pos -= 1;
        }
        proof {
            lemma_placed_by_kills_at(r@, e, pos as int);
            assert(s@.take(i + 1).drop_last() =~= s@.take(i as int));
        }
        r.insert(pos, e);
        i += 1;
    }
    proof {
        assert(s@.take(i as int) =~= s@);
    }
    r
}

// ---------------------------------------------------------------------------------------------
// What a ranking promises
// ---------------------------------------------------------------------------------------------

proof fn lemma_placed_by_area_keeps(s: Seq<AreaStanding>, e: AreaStanding)
    ensures
        placed_by_area(s, e).to_multiset() == s.to_multiset().insert(e),
        placed_by_area(s, e).len() == s.len() + 1,
    decreases s.len(),
{
    broadcast use vstd::seq_lib::group_to_multiset_ensures;

    if s.len() > 0 && e.ahead(s.last()) {
        lemma_placed_by_area_keeps(s.drop_last(), e);
        let inner = placed_by_area(s.drop_last(), e);
        assert(s =~= s.drop_last().push(s.last()));
        assert(inner.push(s.last()).to_multiset() =~= s.to_multiset().insert(e));
    }
}

/// A ranking by area holds the standings that it ranks, each as often.
pub proof fn lemma_ranked_by_area_keeps(s: Seq<AreaStanding>)
    ensures
        ranked_by_area(s).to_multiset() == s.to_multiset(),
        ranked_by_area(s).len() == s.len(),
    decreases s.len(),
{
    broadcast use vstd::seq_lib::group_to_multiset_ensures;

    if s.len() == 0 {
        assert(ranked_by_area(s) =~= s);
    } else {
        lemma_ranked_by_area_keeps(s.drop_last());
        lemma_placed_by_area_keeps(ranked_by_area(s.drop_last()), s.last());
        assert(s =~= s.drop_last().push(s.last()));
    }
}

/// Whether nobody in a ranking by area is ahead of one named before.
pub open spec fn in_area_order(s: Seq<AreaStanding>) -> bool {
    forall|i: int, j: int| 0 <= i < j < s.len() ==> !(#[trigger] s[j]).ahead(#[trigger] s[i])
}

/// Whether every area is a number.
pub open spec fn areas_known(s: Seq<AreaStanding>) -> bool {
    forall|i: int| 0 <= i < s.len() ==> !(#[trigger] s[i]).area.is_nan()
}

proof fn lemma_placed_by_area_ordered(s: Seq<AreaStanding>, e: AreaStanding)
    requires
        in_area_order(s),
        areas_known(s),
        !e.area.is_nan(),
    ensures
        in_area_order(placed_by_area(s, e)),
        areas_known(placed_by_area(s, e)),
        forall|x: AreaStanding| #[trigger] placed_by_area(s, e).contains(x) ==> x == e
            || s.contains(x),
    decreases s.len(),
{
    let r = placed_by_area(s, e);
    if s.len() > 0 && e.ahead(s.last()) {
        let shorter = s.drop_last();
        assert(in_area_order(shorter)) by {
            assert forall|i: int, j: int| 0 <= i < j < shorter.len() implies !(
            #[trigger] shorter[j]).ahead(#[trigger] shorter[i]) by {
                assert(!s[j].ahead(s[i]));
            }
        }
        assert(areas_known(shorter)) by {
            assert forall|i: int| 0 <= i < shorter.len() implies !(
            #[trigger] shorter[i]).area.is_nan() by {
                assert(!s[i].area.is_nan());
            }
        }
        lemma_placed_by_area_ordered(shorter, e);
        let inner = placed_by_area(shorter, e);
        lemma_placed_by_area_keeps(shorter, e);
        assert(!s[s.len() - 1].area.is_nan());
        assert forall|i: int, j: int| 0 <= i < j < r.len() implies !(#[trigger] r[j]).ahead(
            #[trigger] r[i],
        ) by {
            if j < inner.len() {
                assert(!inner[j].ahead(inner[i]));
            } else {
                let x = inner[i];
                assert(inner.contains(x));
                if x == e {
                } else {
                    let k = choose|k: int| 0 <= k < shorter.len() && shorter[k] == x;
                    assert(!s[s.len() - 1].ahead(s[k]));
                }
            }
        }
        assert forall|i: int| 0 <= i < r.len() implies !(#[trigger] r[i]).area.is_nan() by {
            if i < inner.len() {
                assert(!inner[i].area.is_nan());
            }
        }
        assert forall|x: AreaStanding| #[trigger] r.contains(x) implies x == e || s.contains(
            x,
        ) by {
            let k = choose|k: int| 0 <= k < r.len() && r[k] == x;
            if k < inner.len() {
                assert(inner.contains(x));
                if x != e {
                    let m = choose|m: int| 0 <= m < shorter.len() && shorter[m] == x;
                    assert(s[m] == x);
                }
            } else {
                assert(s[s.len() - 1] == x);
            }
        }
    } else {
        assert forall|i: int, j: int| 0 <= i < j < r.len() implies !(#[trigger] r[j]).ahead(
            #[trigger] r[i],
        ) by {
            if j < s.len() {
                assert(!s[j].ahead(s[i]));
            } else {
                let last = s[s.len() - 1];
                assert(!last.area.is_nan() && !s[i].area.is_nan());
                if i < s.len() - 1 {
                    assert(!last.ahead(s[i]));
                }
            }
        }
        assert forall|i: int| 0 <= i < r.len() implies !(#[trigger] r[i]).area.is_nan() by {
            if i < s.len() {
                assert(!s[i].area.is_nan());
            }
        }
        assert forall|x: AreaStanding| #[trigger] r.contains(x) implies x == e || s.contains(
            x,
        ) by {
            let k = choose|k: int| 0 <= k < r.len() && r[k] == x;
            if k < s.len() {
                assert(s[k] == x);
            }
        }
    }
}

/// Where every area is a number, nobody in a ranking by area is ahead of one named before.
pub proof fn lemma_ranked_by_area_ordered(s: Seq<AreaStanding>)
    requires
        areas_known(s),
    ensures
        in_area_order(ranked_by_area(s)),
        areas_known(ranked_by_area(s)),
    decreases s.len(),
{
    if s.len() > 0 {
        let shorter = s.drop_last();
        assert forall|i: int| 0 <= i < shorter.len() implies !(
        #[trigger] shorter[i]).area.is_nan() by {
            assert(!s[i].area.is_nan());
        }
        lemma_ranked_by_area_ordered(shorter);
        assert(!s[s.len() - 1].area.is_nan());
        lemma_placed_by_area_ordered(ranked_by_area(shorter), s.last());
    }
}

proof fn lemma_placed_by_kills_keeps(s: Seq<KillStanding>, e: KillStanding)
    ensures
        placed_by_kills(s, e).to_multiset() == s.to_multiset().insert(e),
        placed_by_kills(s, e).len() == s.len() + 1,
    decreases s.len(),
{
    broadcast use vstd::seq_lib::group_to_multiset_ensures;

    if s.len() > 0 && e.kills > s.last().kills {
        lemma_placed_by_kills_keeps(s.drop_last(), e);
        let inner = placed_by_kills(s.drop_last(), e);
        assert(s =~= s.drop_last().push(s.last()));
        assert(inner.push(s.last()).to_multiset() =~= s.to_multiset().insert(e));
    }
}

/// A ranking by kills holds the standings that it ranks, each as often.
pub proof fn lemma_ranked_by_kills_keeps(s: Seq<KillStanding>)
    ensures
        ranked_by_kills(s).to_multiset() == s.to_multiset(),
        ranked_by_kills(s).len() == s.len(),
    decreases s.len(),
{
    broadcast use vstd::seq_lib::group_to_multiset_ensures;

    if s.len() == 0 {
        assert(ranked_by_kills(s) =~= s);
    } else {
        lemma_ranked_by_kills_keeps(s.drop_last());
        lemma_placed_by_kills_keeps(ranked_by_kills(s.drop_last()), s.last());
        assert(s =~= s.drop_last().push(s.last()));
    }
}

/// Whether the kills never grow along a ranking.
pub open spec fn in_kill_order(s: Seq<KillStanding>) -> bool {
    forall|i: int, j: int|
        0 <= i < j < s.len() ==> (#[trigger] s[i]).kills >= (#[trigger] s[j]).kills
}

proof fn lemma_placed_by_kills_ordered(s: Seq<KillStanding>, e: KillStanding)
    requires
        in_kill_order(s),
    ensures
        in_kill_order(placed_by_kills(s, e)),
        forall|i: int| 0 <= i < placed_by_kills(s, e).len() ==> (#[trigger] placed_by_kills(s, e)[i]).kills
            >= e.kills || (s.len() > 0 && placed_by_kills(s, e)[i].kills >= s.last().kills),
    decreases s.len(),
{
    let r = placed_by_kills(s, e);
    if s.len() > 0 && e.kills > s.last().kills {
        let shorter = s.drop_last();
        assert(in_kill_order(shorter)) by {
            assert forall|i: int, j: int| 0 <= i < j < shorter.len() implies (
            #[trigger] shorter[i]).kills >= (#[trigger] shorter[j]).kills by {
                assert(s[i].kills >= s[j].kills);
            }
        }
        lemma_placed_by_kills_ordered(shorter, e);
        let inner = placed_by_kills(shorter, e);
        assert forall|i: int| 0 <= i < inner.len() implies (#[trigger] inner[i]).kills
            >= s.last().kills by {
            if shorter.len() > 0 {
                assert(s[shorter.len() - 1].kills >= s[s.len() - 1].kills);
            }
        }
        assert forall|i: int, j: int| 0 <= i < j < r.len() implies (#[trigger] r[i]).kills >= (
        #[trigger] r[j]).kills by {
            if j < inner.len() {
                assert(inner[i].kills >= inner[j].kills);
            } else {
                assert(inner[i].kills >= s.last().kills);
            }
        }
        assert forall|i: int| 0 <= i < r.len() implies (#[trigger] r[i]).kills >= e.kills || r[i].kills
            >= s.last().kills by {
            if i < inner.len() {
                assert(inner[i].kills >= s.last().kills);
            }
        }
    } else {
        assert forall|i: int, j: int| 0 <= i < j < r.len() implies (#[trigger] r[i]).kills >= (
        #[trigger] r[j]).kills by {
            if j < s.len() {
                assert(s[i].kills >= s[j].kills);
            } else if i < s.len() - 1 {
                assert(s[i].kills >= s[s.len() - 1].kills);
            }
        }
        assert forall|i: int| 0 <= i < r.len() implies (#[trigger] r[i]).kills >= e.kills || (
        s.len() > 0 && r[i].kills >= s.last().kills) by {
            if i < s.len() - 1 {
                assert(s[i].kills >= s[s.len() - 1].kills);
            }
        }
    }
}

/// The kills never grow along a ranking.
pub proof fn lemma_ranked_by_kills_ordered(s: Seq<KillStanding>)
    ensures
        in_kill_order(ranked_by_kills(s)),
    decreases s.len(),
{
    if s.len() > 0 {
        lemma_ranked_by_kills_ordered(s.drop_last());
        lemma_placed_by_kills_ordered(ranked_by_kills(s.drop_last()), s.last());
    }
}

// ---------------------------------------------------------------------------------------------
// The standings of a game
// ---------------------------------------------------------------------------------------------

/// The living players with their areas, which are listed as the players are.
pub open spec fn area_standings(players: Seq<PlayerView>, areas: Seq<Float64>) -> Seq<AreaStanding>
    decreases players.len(),
{
    if players.len() == 0 {
        Seq::empty()
    } else {
        let n = players.len() - 1;
        let earlier = area_standings(players.drop_last(), areas);
        if players[n].alive {
            earlier.push(AreaStanding { index: n as usize, id: players[n].id, area: areas[n] })
        } else {
            earlier
        }
    }
}

/// The living players with their kills; where so asked, only those with any.
pub open spec fn kill_standings(players: Seq<PlayerView>, scored: bool) -> Seq<KillStanding>
    decreases players.len(),
{
    if players.len() == 0 {
        Seq::empty()
    } else {
        let n = players.len() - 1;
        let earlier = kill_standings(players.drop_last(), scored);
        if players[n].alive && (!scored || players[n].kill_count > 0) {
            earlier.push(KillStanding { index: n as usize, kills: players[n].kill_count })
        } else {
            earlier
        }
    }
}

/// Whether every place in a ranking by area is one of the first `n`.
pub open spec fn areas_within(s: Seq<AreaStanding>, n: nat) -> bool {
    forall|i: int| 0 <= i < s.len() ==> (#[trigger] s[i]).index < n
}

/// Whether every place in a ranking by kills is one of the first `n`.
pub open spec fn kills_within(s: Seq<KillStanding>, n: nat) -> bool {
    forall|i: int| 0 <= i < s.len() ==> (#[trigger] s[i]).index < n
}

proof fn lemma_ranked_by_area_within(s: Seq<AreaStanding>, n: nat)
    requires
        areas_within(s, n),
    ensures
        areas_within(ranked_by_area(s), n),
{
    broadcast use vstd::seq_lib::group_to_multiset_ensures;

    lemma_ranked_by_area_keeps(s);
    let r = ranked_by_area(s);
    assert forall|i: int| 0 <= i < r.len() implies (#[trigger] r[i]).index < n by {
        assert(r.to_multiset().count(r[i]) > 0);
        assert(s.contains(r[i]));
    }
}

proof fn lemma_ranked_by_kills_within(s: Seq<KillStanding>, n: nat)
    requires
        kills_within(s, n),
    ensures
        kills_within(ranked_by_kills(s), n),
{
    broadcast use vstd::seq_lib::group_to_multiset_ensures;

    lemma_ranked_by_kills_keeps(s);
    let r = ranked_by_kills(s);
    assert forall|i: int| 0 <= i < r.len() implies (#[trigger] r[i]).index < n by {
        assert(r.to_multiset().count(r[i]) > 0);
        assert(s.contains(r[i]));
    }
}

/// Collect the living players with their areas.
pub fn stand_by_area(players: &Vec<Player>, areas: &Vec<Float64>) -> (r: Vec<AreaStanding>)
    requires
        areas@.len() == players@.len(),
    ensures
        r@ == area_standings(crate::player::contents(players@), areas@),
        areas_within(r@, players@.len()),
{
    let ghost all = crate::player::contents(players@);
    let mut r: Vec<AreaStanding> = Vec::new();
    let mut i: usize = 0;
    while i < players.len()
        invariant
            areas@.len() == players@.len(),
            all == crate::player::contents(players@),
            i <= players@.len(),
            r@ == area_standings(all.take(i as int), areas@),
            areas_within(r@, i as nat),
        decreases players@.len() - i,
    {
        proof {
            assert(all.take(i + 1).drop_last() =~= all.take(i as int));
            assert(all.take(i + 1)[i as int] == players@[i as int]@);
        }
        if players[i].alive {
            r.push(AreaStanding { index: i, id: players[i].id, area: areas[i] });
        }
        i += 1;
    }
    proof {
        assert(all.take(i as int) =~= all);
    }
    r
}

/// Collect the living players with their kills.
pub fn stand_by_kills(players: &Vec<Player>, scored: bool) -> (r: Vec<KillStanding>)
    ensures
        r@ == kill_standings(crate::player::contents(players@), scored),
        kills_within(r@, players@.len()),
{
    let ghost all = crate::player::contents(players@);
    let mut r: Vec<KillStanding> = Vec::new();
    let mut i: usize = 0;
    while i < players.len()
        invariant
            all == crate::player::contents(players@),
            i <= players@.len(),
            r@ == kill_standings(all.take(i as int), scored),
            kills_within(r@, i as nat),
        decreases players@.len() - i,
    {
        proof {
            assert(all.take(i + 1).drop_last() =~= all.take(i as int));
            assert(all.take(i + 1)[i as int] == players@[i as int]@);
        }
        if players[i].alive && (!scored || players[i].kill_count > 0) {
            r.push(KillStanding { index: i, kills: players[i].kill_count });
        }
        i += 1;
    }
    proof {
        assert(all.take(i as int) =~= all);
    }
    r
}

// ---------------------------------------------------------------------------------------------
// Ranks
// ---------------------------------------------------------------------------------------------

/// Whether the player at place `j` in the list of players comes after the one at place `i` in a
/// ranking by area.
pub open spec fn after_by_area(ranked: Seq<AreaStanding>, i: int, j: int) -> bool {
    exists|a: int, b: int|
        0 <= a < b < ranked.len() && (#[trigger] ranked[a]).index == i && (
        #[trigger] ranked[b]).index == j
}

/// Whether the player at place `j` in the list of players comes after the one at place `i` in a
/// ranking by kills.
pub open spec fn after_by_kills(ranked: Seq<KillStanding>, i: int, j: int) -> bool {
    exists|a: int, b: int|
        0 <= a < b < ranked.len() && (#[trigger] ranked[a]).index == i && (
        #[trigger] ranked[b]).index == j
}

/// Whether the player at place `j` in the list is a living one that stands below the one at place
/// `i`, by area or by kills.
pub open spec fn stands_below(
    players: Seq<PlayerView>,
    areas: Seq<Float64>,
    i: int,
    j: int,
) -> bool {
    &&& j != i
    &&& players[j].alive
    &&& after_by_area(ranked_by_area(area_standings(players, areas)), i, j) || after_by_kills(
        ranked_by_kills(kill_standings(players, false)),
        i,
        j,
    )
}

/// How many of the first `n` players stand below the one at a place in the list.
pub open spec fn below_among(
    players: Seq<PlayerView>,
    areas: Seq<Float64>,
    index: int,
    n: nat,
) -> nat
    decreases n,
{
    if n == 0 {
        0
    } else {
        below_among(players, areas, index, (n - 1) as nat) + if stands_below(
            players,
            areas,
            index,
            n - 1,
        ) {
            1nat
        } else {
            0nat
        }
    }
}

/// How many living players stand below the one at a place in the list, by area or by kills, each
/// counted once.
pub open spec fn below(players: Seq<PlayerView>, areas: Seq<Float64>, index: int) -> nat {
    below_among(players, areas, index, players.len())
}

/// Mark those that come after a player in a ranking by area.
fn mark_after_by_area(ranked: &Vec<AreaStanding>, index: usize, marks: &mut Vec<bool>)
    requires
        areas_within(ranked@, old(marks)@.len()),
    ensures
        final(marks)@.len() == old(marks)@.len(),
        forall|j: int|
            0 <= j < final(marks)@.len() ==> #[trigger] final(marks)@[j] == (old(marks)@[j]
                || after_by_area(ranked@, index as int, j)),
{
    let mut found = false;
    let mut k: usize = 0;
    while k < ranked.len()
        invariant
            k <= ranked@.len(),
            marks@.len() == old(marks)@.len(),
            areas_within(ranked@, marks@.len()),
            found == exists|a: int| 0 <= a < k && (#[trigger] ranked@[a]).index == index,
            forall|j: int|
                0 <= j < marks@.len() ==> #[trigger] marks@[j] == (old(marks)@[j]
                    || after_by_area(ranked@.take(k as int), index as int, j)),
        decreases ranked@.len() - k,
    {
        let ghost before = marks@;
        let place = ranked[k].index;
        if found {
            marks.set(place, true);
        }
        proof {
            let shorter = ranked@.take(k as int);
            let longer = ranked@.take(k + 1);
            assert forall|j: int| 0 <= j < marks@.len() implies #[trigger] marks@[j] == (old(
                marks,
            )@[j] || after_by_area(longer, index as int, j)) by {
                assert(before[j] == (old(marks)@[j] || after_by_area(shorter, index as int, j)));
                if after_by_area(shorter, index as int, j) {
                    let (a, b) = choose|a: int, b: int|
                        0 <= a < b < shorter.len() && (#[trigger] shorter[a]).index == index && (
                        #[trigger] shorter[b]).index == j;
                    assert(longer[a].index == index && longer[b].index == j);
                }
                if found && place == j {
                    let a = choose|a: int| 0 <= a < k && (#[trigger] ranked@[a]).index == index;
                    assert(longer[a].index == index && longer[k as int].index == j);
                }
                if after_by_area(longer, index as int, j) {
                    let (a, b) = choose|a: int, b: int|
                        0 <= a < b < longer.len() && (#[trigger] longer[a]).index == index && (
                        #[trigger] longer[b]).index == j;
                    assert(ranked@[a].index == index);
                    if b < k {
                        assert(shorter[a].index == index && shorter[b].index == j);
                    }
                }
            }
        }
        if place == index {
            found = true;
        }
        k += 1;
    }
    proof {
        assert(ranked@.take(k as int) =~= ranked@);
    }
}

/// Mark those that come after a player in a ranking by kills.
fn mark_after_by_kills(ranked: &Vec<KillStanding>, index: usize, marks: &mut Vec<bool>)
    requires
        kills_within(ranked@, old(marks)@.len()),
    ensures
        final(marks)@.len() == old(marks)@.len(),
        forall|j: int|
            0 <= j < final(marks)@.len() ==> #[trigger] final(marks)@[j] == (old(marks)@[j]
                || after_by_kills(ranked@, index as int, j)),
{
    let mut found = false;
    let mut k: usize = 0;
    while k < ranked.len()
        invariant
            k <= ranked@.len(),
            marks@.len() == old(marks)@.len(),
            kills_within(ranked@, marks@.len()),
            found == exists|a: int| 0 <= a < k && (#[trigger] ranked@[a]).index == index,
            forall|j: int|
                0 <= j < marks@.len() ==> #[trigger] marks@[j] == (old(marks)@[j]
                    || after_by_kills(ranked@.take(k as int), index as int, j)),
        decreases ranked@.len() - k,
    {
        let ghost before = marks@;
        let place = ranked[k].index;
        if found {
            marks.set(place, true);
        }
        proof {
            let shorter = ranked@.take(k as int);
            let longer = ranked@.take(k + 1);
            assert forall|j: int| 0 <= j < marks@.len() implies #[trigger] marks@[j] == (old(
                marks,
            )@[j] || after_by_kills(longer, index as int, j)) by {
                assert(before[j] == (old(marks)@[j] || after_by_kills(shorter, index as int, j)));
                if after_by_kills(shorter, index as int, j) {
                    let (a, b) = choose|a: int, b: int|
                        0 <= a < b < shorter.len() && (#[trigger] shorter[a]).index == index && (
                        #[trigger] shorter[b]).index == j;
                    assert(longer[a].index == index && longer[b].index == j);
                }
                if found && place == j {
                    let a = choose|a: int| 0 <= a < k && (#[trigger] ranked@[a]).index == index;
                    assert(longer[a].index == index && longer[k as int].index == j);
                }
                if after_by_kills(longer, index as int, j) {
                    let (a, b) = choose|a: int, b: int|
                        0 <= a < b < longer.len() && (#[trigger] longer[a]).index == index && (
                        #[trigger] longer[b]).index == j;
                    assert(ranked@[a].index == index);
                    if b < k {
                        assert(shorter[a].index == index && shorter[b].index == j);
                    }
                }
            }
        }
        if place == index {
            found = true;
        }
        k += 1;
    }
    proof {
        assert(ranked@.take(k as int) =~= ranked@);
    }
}

/// How many living players stand below each player, by area or by kills, each counted once. A
/// living player is as many times faster by a fixed factor.
pub fn count_below(players: &Vec<Player>, areas: &Vec<Float64>) -> (r: Vec<u64>)
    requires
        areas@.len() == players@.len(),
        players@.len() <= u32::MAX,
    ensures
        r@.len() == players@.len(),
        forall|i: int|
            0 <= i < r@.len() ==> #[trigger] r@[i] == below(
                crate::player::contents(players@),
                areas@,
                i,
            ),
{
    let ghost all = crate::player::contents(players@);
    let area_places = stand_by_area(players, areas);
    let kill_places = stand_by_kills(players, false);
    let by_area = rank_by_area(&area_places);
    let by_kills = rank_by_kills(&kill_places);
    proof {
        lemma_ranked_by_area_within(area_places@, players@.len());
        lemma_ranked_by_kills_within(kill_places@, players@.len());
    }
    let mut r: Vec<u64> = Vec::new();
    let mut i: usize = 0;
    while i < players.len()
        invariant
            all == crate::player::contents(players@),
            by_area@ == ranked_by_area(area_standings(all, areas@)),
            by_kills@ == ranked_by_kills(kill_standings(all, false)),
            areas_within(by_area@, players@.len()),
            kills_within(by_kills@, players@.len()),
            players@.len() <= u32::MAX,
            i <= players@.len(),
            r@.len() == i,
            forall|j: int| 0 <= j < r@.len() ==> #[trigger] r@[j] == below(all, areas@, j),
        decreases players@.len() - i,
    {
        let mut marks: Vec<bool> = Vec::new();
        while marks.len() < players.len()
            invariant
                marks@.len() <= players@.len(),
                forall|j: int| 0 <= j < marks@.len() ==> !#[trigger] marks@[j],
            decreases players@.len() - marks@.len(),
        {
            marks.push(false);
        }
        mark_after_by_area(&by_area, i, &mut marks);
        mark_after_by_kills(&by_kills, i, &mut marks);
        let mut count: u64 = 0;
        let mut j: usize = 0;
        while j < players.len()
            invariant
                j <= players@.len() <= u32::MAX,
                i < players@.len(),
                marks@.len() == players@.len(),
                all == crate::player::contents(players@),
                by_area@ == ranked_by_area(area_standings(all, areas@)),
                by_kills@ == ranked_by_kills(kill_standings(all, false)),
                forall|k: int|
                    0 <= k < marks@.len() ==> #[trigger] marks@[k] == (after_by_area(
                        by_area@,
                        i as int,
                        k,
                    ) || after_by_kills(by_kills@, i as int, k)),
                count == below_among(all, areas@, i as int, j as nat),
                count <= j,
            decreases players@.len() - j,
        {
            proof {
                assert(all[j as int] == players@[j as int]@);
            }
            if j != i && players[j].alive && marks[j] {
                count = count + 1;
            }
            j += 1;
        }
        r.push(count);
        i += 1;
    }
    r
}

/// Nobody stands below itself, and nobody is counted twice: with all the players, fewer than all
/// stand below one of them.
pub proof fn lemma_below_few(players: Seq<PlayerView>, areas: Seq<Float64>, index: int)
    requires
        0 <= index < players.len(),
    ensures
        below(players, areas, index) < players.len(),
{
    lemma_below_among_few(players, areas, index, players.len());
}

proof fn lemma_below_among_few(
    players: Seq<PlayerView>,
    areas: Seq<Float64>,
    index: int,
    n: nat,
)
    ensures
        below_among(players, areas, index, n) <= n,
        0 <= index < n ==> below_among(players, areas, index, n) < n,
    decreases n,
{
    if n > 0 {
        lemma_below_among_few(players, areas, index, (n - 1) as nat);
    }
}

// ---------------------------------------------------------------------------------------------
// Leaderboards
// ---------------------------------------------------------------------------------------------

/// The first of a ranking by area.
pub open spec fn first_by_area(players: Seq<PlayerView>, areas: Seq<Float64>) -> Option<PlayerId> {
    let ranked = ranked_by_area(area_standings(players, areas));
    if ranked.len() == 0 {
        None
    } else {
        Some(ranked[0].id)
    }
}

/// The lines of a leaderboard by area: the first of the ranking, each with its whole units.
pub open spec fn area_lines(players: Seq<PlayerView>, areas: Seq<Float64>) -> Seq<EntryView> {
    let ranked = ranked_by_area(area_standings(players, areas));
    Seq::new(
        if ranked.len() < LEADERBOARD_LINES {
            ranked.len()
        } else {
            LEADERBOARD_LINES as nat
        },
        |i: int|
            EntryView {
                name: players[ranked[i].index as int].name,
                value: ranked[i].area.trunc_u32(),
            },
    )
}

/// The lines of a leaderboard by kills: the first of the ranking of those with any.
pub open spec fn kill_lines(players: Seq<PlayerView>) -> Seq<EntryView> {
    let ranked = ranked_by_kills(kill_standings(players, true));
    Seq::new(
        if ranked.len() < LEADERBOARD_LINES {
            ranked.len()
        } else {
            LEADERBOARD_LINES as nat
        },
        |i: int|
            EntryView { name: players[ranked[i].index as int].name, value: ranked[i].kills },
    )
}

/// The two leaderboards.
pub open spec fn leaderboard(players: Seq<PlayerView>, areas: Seq<Float64>) -> LeaderboardView {
    LeaderboardView { by_area: area_lines(players, areas), by_kills: kill_lines(players) }
}

/// Who is first in area.
pub fn crown_holder(players: &Vec<Player>, areas: &Vec<Float64>) -> (r: Option<PlayerId>)
    requires
        areas@.len() == players@.len(),
    ensures
        r == first_by_area(crate::player::contents(players@), areas@),
{
    let ranked = rank_by_area(&stand_by_area(players, areas));
    if ranked.len() == 0 {
        None
    } else {
        Some(ranked[0].id)
    }
}

/// The two leaderboards.
pub fn compute_leaderboard(players: &Vec<Player>, areas: &Vec<Float64>) -> (r: LeaderboardData)
    requires
        areas@.len() == players@.len(),
    ensures
        r@ == leaderboard(crate::player::contents(players@), areas@),
{
    let ghost all = crate::player::contents(players@);
    let area_places = stand_by_area(players, areas);
    let kill_places = stand_by_kills(players, true);
    let areas_ranked = rank_by_area(&area_places);
    let kills_ranked = rank_by_kills(&kill_places);
    proof {
        lemma_ranked_by_area_within(area_places@, players@.len());
        lemma_ranked_by_kills_within(kill_places@, players@.len());
    }
    let mut by_area: Vec<LeaderboardEntryData> = Vec::new();
    let mut i: usize = 0;
    while i < areas_ranked.len() && i < LEADERBOARD_LINES
        invariant
            all == crate::player::contents(players@),
            areas_ranked@ == ranked_by_area(area_standings(all, areas@)),
            areas_within(areas_ranked@, players@.len()),
            i <= areas_ranked@.len(),
            i <= LEADERBOARD_LINES,
            crate::protocol::entry_views(by_area@) =~= area_lines(all, areas@).take(i as int),
        decreases areas_ranked@.len() - i,
    {
        let e = areas_ranked[i];
        let line = LeaderboardEntryData {
            name: players[e.index].name.clone(),
            value: e.area.trunc_u32(),
        };
        let ghost before = by_area@;
        by_area.push(line);
        proof {
            assert(line@ == area_lines(all, areas@)[i as int]);
            assert(crate::protocol::entry_views(by_area@) =~= crate::protocol::entry_views(
                before,
            ).push(line@));
        }
        i += 1;
    }
    let mut by_kills: Vec<LeaderboardEntryData> = Vec::new();
    let mut j: usize = 0;
    while j < kills_ranked.len() && j < LEADERBOARD_LINES
        invariant
            all == crate::player::contents(players@),
            kills_ranked@ == ranked_by_kills(kill_standings(all, true)),
            kills_within(kills_ranked@, players@.len()),
            j <= kills_ranked@.len(),
            j <= LEADERBOARD_LINES,
            crate::protocol::entry_views(by_kills@) =~= kill_lines(all).take(j as int),
        decreases kills_ranked@.len() - j,
    {
        let e = kills_ranked[j];
        let line = LeaderboardEntryData { name: players[e.index].name.clone(), value: e.kills };
        let ghost before = by_kills@;
        by_kills.push(line);
        proof {
            assert(line@ == kill_lines(all)[j as int]);
            assert(crate::protocol::entry_views(by_kills@) =~= crate::protocol::entry_views(
                before,
            ).push(line@));
        }
        j += 1;
    }
    let r = LeaderboardData { by_area, by_kills };
    proof {
        assert(r@.by_area =~= area_lines(all, areas@));
        assert(r@.by_kills =~= kill_lines(all));
    }
    r
}

/// A ranking by area holds the ids of the players at its places.
pub proof fn lemma_ranked_area_names(players: Seq<PlayerView>, areas: Seq<Float64>)
    requires
        players.len() <= usize::MAX,
    ensures
        ({
            let ranked = ranked_by_area(area_standings(players, areas));
            forall|i: int|
                0 <= i < ranked.len() ==> (#[trigger] ranked[i]).index < players.len()
                    && players[ranked[i].index as int].id == ranked[i].id
        }),
{
    broadcast use vstd::seq_lib::group_to_multiset_ensures;

    let s = area_standings(players, areas);
    let ranked = ranked_by_area(s);
    lemma_ranked_by_area_keeps(s);
    lemma_area_standings_names(players, areas);
    assert forall|i: int| 0 <= i < ranked.len() implies (#[trigger] ranked[i]).index
        < players.len() && players[ranked[i].index as int].id == ranked[i].id by {
        assert(ranked.to_multiset().count(ranked[i]) > 0);
        assert(s.contains(ranked[i]));
    }
}

proof fn lemma_area_standings_names(players: Seq<PlayerView>, areas: Seq<Float64>)
    requires
        players.len() <= usize::MAX,
    ensures
        ({
            let s = area_standings(players, areas);
            forall|i: int|
                0 <= i < s.len() ==> (#[trigger] s[i]).index < players.len()
                    && players[s[i].index as int].id == s[i].id
        }),
    decreases players.len(),
{
    if players.len() > 0 {
        let shorter = players.drop_last();
        lemma_area_standings_names(shorter, areas);
        let s = area_standings(players, areas);
        let earlier = area_standings(shorter, areas);
        assert forall|i: int| 0 <= i < s.len() implies (#[trigger] s[i]).index < players.len()
            && players[s[i].index as int].id == s[i].id by {
            if i < earlier.len() {
                assert(s[i] == earlier[i]);
                assert(shorter[earlier[i].index as int].id == earlier[i].id);
            }
        }
    }
}

/// A leaderboard by kills has at most ten lines; each is of someone with a kill, and of no more
/// kills than the line before.
pub proof fn lemma_kill_lines_sorted(players: Seq<PlayerView>, i: int, j: int)
    requires
        0 <= i <= j < kill_lines(players).len(),
    ensures
        kill_lines(players).len() <= LEADERBOARD_LINES,
        kill_lines(players)[j].value > 0,
        kill_lines(players)[i].value >= kill_lines(players)[j].value,
{
    broadcast use vstd::seq_lib::group_to_multiset_ensures;

    let s = kill_standings(players, true);
    let ranked = ranked_by_kills(s);
    lemma_ranked_by_kills_ordered(s);
    lemma_ranked_by_kills_keeps(s);
    lemma_scored_standings(players);
    assert(ranked.to_multiset().count(ranked[j]) > 0);
    assert(s.contains(ranked[j]));
    if i < j {
        assert(ranked[i].kills >= ranked[j].kills);
    }
}

proof fn lemma_scored_standings(players: Seq<PlayerView>)
    ensures
        forall|i: int|
            0 <= i < kill_standings(players, true).len() ==> (#[trigger] kill_standings(
                players,
                true,
            )[i]).kills > 0,
    decreases players.len(),
{
    if players.len() > 0 {
        lemma_scored_standings(players.drop_last());
        let s = kill_standings(players, true);
        let earlier = kill_standings(players.drop_last(), true);
        assert forall|i: int| 0 <= i < s.len() implies (#[trigger] s[i]).kills > 0 by {
            if i < earlier.len() {
                assert(s[i] == earlier[i]);
            }
        }
    }
}

/// A leaderboard by area has at most ten lines; where every area is a number, no line is of a
/// larger area than the line before.
pub proof fn lemma_area_lines_sorted(
    players: Seq<PlayerView>,
    areas: Seq<Float64>,
    i: int,
    j: int,
)
    requires
        areas.len() == players.len(),
        forall|k: int| 0 <= k < areas.len() ==> !(#[trigger] areas[k]).is_nan(),
        0 <= i < j < area_lines(players, areas).len(),
    ensures
        area_lines(players, areas).len() <= LEADERBOARD_LINES,
        area_lines(players, areas)[i].value >= area_lines(players, areas)[j].value,
{
    let s = area_standings(players, areas);
    let ranked = ranked_by_area(s);
    lemma_area_standings_known(players, areas);
    lemma_ranked_by_area_ordered(s);
    let a = ranked[i];
    let b = ranked[j];
    assert(!b.ahead(a));
    assert(!a.area.is_nan() && !b.area.is_nan());
    crate::float64::lemma_trunc_ordered(b.area, a.area);
}

/// Where every area is a number, so are those of the standings.
pub proof fn lemma_area_standings_known(players: Seq<PlayerView>, areas: Seq<Float64>)
    requires
        areas.len() >= players.len(),
        forall|k: int| 0 <= k < areas.len() ==> !(#[trigger] areas[k]).is_nan(),
    ensures
        areas_known(area_standings(players, areas)),
    decreases players.len(),
{
    if players.len() > 0 {
        lemma_area_standings_known(players.drop_last(), areas);
        let s = area_standings(players, areas);
        let earlier = area_standings(players.drop_last(), areas);
        assert forall|i: int| 0 <= i < s.len() implies !(#[trigger] s[i]).area.is_nan() by {
            if i < earlier.len() {
                assert(s[i] == earlier[i]);
            } else {
                assert(s[i].area == areas[players.len() - 1]);
            }
        }
    }
}

}
