//! What a kill and a capture leave: who is still there, with what, and to whose credit.
use crate::capture::CaptureOutcome;
use crate::game::GameView;
use crate::geometry::PolygonView;
use crate::player::PlayerView;
use crate::protocol::{PlayerId, ServerMsgView};
use crate::tick::Kill;
use vstd::prelude::*;

verus! {

/// Whether no two players have the same id.
pub open spec fn distinct_ids(players: Seq<PlayerView>) -> bool {
    forall|i: int, j: int|
        0 <= i < j < players.len() ==> (#[trigger] players[i]).id != (#[trigger] players[j]).id
}

/// Whether a player of an id is there.
pub open spec fn there(players: Seq<PlayerView>, id: PlayerId) -> bool {
    exists|j: int| 0 <= j < players.len() && (#[trigger] players[j]).id == id
}

/// Whether a player is the same but for its kills, its boost points and what it was sent last.
pub open spec fn same_self(p: PlayerView, q: PlayerView) -> bool {
    &&& p.id == q.id
    &&& p.position == q.position
    &&& p.angle == q.angle
    &&& p.color == q.color
    &&& p.territory == q.territory
    &&& p.trail == q.trail
    &&& p.in_territory == q.in_territory
    &&& p.alive == q.alive
    &&& p.trail_aabb == q.trail_aabb
    &&& p.sprite_id == q.sprite_id
    &&& p.name == q.name
    &&& p.boost_until == q.boost_until
}

/// Whether a player has `n` kills more to its credit, and as many boost points, but never more than
/// three for them.
pub open spec fn credited_with(p: PlayerView, q: PlayerView, n: nat) -> bool {
    &&& q.kill_count == p.kill_count + n
    &&& q.boost_points == if p.boost_points >= 3 {
        p.boost_points as int
    } else if p.boost_points + n >= 3 {
        3
    } else {
        p.boost_points + n
    }
}

/// Whether a player is still there as it was, with `n` kills more to its credit.
pub open spec fn still_there(players: Seq<PlayerView>, p: PlayerView, n: nat) -> bool {
    exists|j: int|
        0 <= j < players.len() && same_self(p, #[trigger] players[j]) && credited_with(
            p,
            players[j],
            n,
        )
}

/// A kill takes the victim out of the game and nobody else. The killer, if it is there, has one
/// kill more to its credit; the others are as they were.
pub proof fn lemma_kill_takes_the_victim(
    game: GameView,
    victim: PlayerId,
    killer: Option<PlayerId>,
)
    requires
        distinct_ids(game.players),
        there(game.players, victim),
        crate::capture::has_room_for(game, 0),
        killer != Some(victim),
    ensures
        ({
            let after = game.killed(victim, killer);
            &&& distinct_ids(after.players)
            &&& after.players.len() == game.players.len() - 1
            &&& after.territory_version == game.territory_version + 1
            &&& !there(after.players, victim)
            &&& forall|i: int|
                #![trigger game.players[i]]
                0 <= i < game.players.len() && game.players[i].id != victim ==> still_there(
                    after.players,
                    game.players[i],
                    if killer == Some(game.players[i].id) {
                        1
                    } else {
                        0
                    },
                )
        }),
{
    crate::game::lemma_index_of(game.players, victim);
    let i = crate::game::index_of(game.players, victim).unwrap();
    let n = game.players.len();
    let at = game.players[i].position;
    let credited = game.kill_credited(killer);
    if let Some(id) = killer {
        crate::game::lemma_index_of(game.players, id);
    }
    assert forall|k: int| 0 <= k < n implies same_self(
        game.players[k],
        #[trigger] credited.players[k],
    ) && credited_with(
        game.players[k],
        credited.players[k],
        if killer == Some(game.players[k].id) {
            1
        } else {
            0
        },
    ) by {
        assert(game.players[k].kill_count + n <= u32::MAX);
        if let Some(id) = killer {
            if game.players[k].id == id {
                let c = crate::game::index_of(game.players, id).unwrap();
                if c < k {
                    assert(game.players[c].id != game.players[k].id);
                } else if k < c {
                    assert(game.players[k].id != game.players[c].id);
                }
            }
        }
    }
    let seen_by = crate::game::witnesses(credited.players, game.found_around(at), at);
    let msg = ServerMsgView::PlayerKilled { player_id: victim, killer_id: killer };
    crate::capture::lemma_sent_keeps(credited, seen_by, msg);
    let told = credited.sent_to_each(seen_by, msg);
    assert(told.players[i].id == victim);
    crate::game::lemma_index_of(told.players, victim);
    let j = crate::game::index_of(told.players, victim).unwrap();
    assert(game.players[j].id == victim);
    let changed = told.without(victim).territories_changed();
    let others = crate::game::without_id(seen_by, victim);
    crate::capture::lemma_snapshots_keep(changed, others);
    let after = changed.snapshots_sent(others);
    assert forall|k: int| 0 <= k < after.players.len() implies same_self(
        credited.players[if k < j {
            k
        } else {
            k + 1
        }],
        #[trigger] after.players[k],
    ) && credited_with(
        credited.players[if k < j {
            k
        } else {
            k + 1
        }],
        after.players[k],
        0,
    ) by {
        assert(changed.players[k] == credited.players[if k < j {
            k
        } else {
            k + 1
        }]);
    }
    assert forall|a: int, b: int| 0 <= a < b < after.players.len() implies (
    #[trigger] after.players[a]).id != (#[trigger] after.players[b]).id by {
        let c = if a < j {
            a
        } else {
            a + 1
        };
        let d = if b < j {
            b
        } else {
            b + 1
        };
        assert(game.players[c].id != game.players[d].id);
        assert(same_self(game.players[c], credited.players[c]));
        assert(same_self(game.players[d], credited.players[d]));
    }
    if there(after.players, victim) {
        let k = choose|k: int| 0 <= k < after.players.len() && after.players[k].id == victim;
        let c = if k < j {
            k
        } else {
            k + 1
        };
        assert(same_self(game.players[c], credited.players[c]));
        if c < j {
            assert(game.players[c].id != game.players[j].id);
        } else {
            assert(game.players[j].id != game.players[c].id);
        }
    }
    assert forall|a: int|
        #![trigger game.players[a]]
        0 <= a < n && game.players[a].id != victim implies still_there(
        after.players,
        game.players[a],
        if killer == Some(game.players[a].id) {
            1
        } else {
            0
        },
    ) by {
        let k = if a < j {
            a
        } else {
            a - 1
        };
        assert(same_self(game.players[a], credited.players[a]));
        assert(same_self(credited.players[a], after.players[k]));
        assert(same_self(game.players[a], after.players[k]));
    }
}

proof fn lemma_still_there_chain(
    a: PlayerView,
    b: Seq<PlayerView>,
    c: Seq<PlayerView>,
    m: nat,
    n: nat,
    victim: PlayerId,
)
    requires
        still_there(b, a, m),
        a.id != victim,
        forall|i: int|
            #![trigger b[i]]
            0 <= i < b.len() && b[i].id == a.id ==> still_there(c, b[i], n),
    ensures
        still_there(c, a, m + n),
{
    let j = choose|j: int|
        0 <= j < b.len() && same_self(a, #[trigger] b[j]) && credited_with(a, b[j], m);
    assert(still_there(c, b[j], n));
    let k = choose|k: int|
        0 <= k < c.len() && same_self(b[j], #[trigger] c[k]) && credited_with(b[j], c[k], n);
    assert(same_self(a, c[k]) && credited_with(a, c[k], m + n));
}

/// Whether an id is that of none of some.
spec fn spared(victims: Seq<PlayerId>, id: PlayerId) -> bool {
    !victims.contains(id)
}

proof fn lemma_all_killed(game: GameView, victims: Seq<PlayerId>, killer: PlayerId)
    requires
        distinct_ids(game.players),
        crate::capture::has_room_for(game, 0),
        victims.no_duplicates(),
        !victims.contains(killer),
        forall|i: int| 0 <= i < victims.len() ==> there(game.players, #[trigger] victims[i]),
    ensures
        ({
            let after = game.all_killed(victims, killer);
            &&& distinct_ids(after.players)
            &&& crate::capture::has_room_for(after, 0)
            &&& after.players.len() == game.players.len() - victims.len()
            &&& after.territory_version == game.territory_version + victims.len()
            &&& forall|i: int|
                0 <= i < victims.len() ==> !there(after.players, #[trigger] victims[i])
            &&& forall|i: int|
                #![trigger game.players[i]]
                0 <= i < game.players.len() && spared(victims, game.players[i].id)
                    ==> still_there(
                    after.players,
                    game.players[i],
                    if game.players[i].id == killer {
                        victims.len()
                    } else {
                        0
                    },
                )
        }),
    decreases victims.len(),
{
    if victims.len() == 0 {
        assert forall|i: int|
            #![trigger game.players[i]]
            0 <= i < game.players.len() implies still_there(game.players, game.players[i], 0) by {
            assert(same_self(game.players[i], game.players[i]));
        }
    } else {
        let rest = victims.drop_last();
        let last = victims.last();
        let n = rest.len() as int;
        assert(victims[n] == last);
        assert forall|i: int| 0 <= i < n implies there(game.players, #[trigger] rest[i]) by {
            assert(there(game.players, victims[i]));
        }
        assert(rest.no_duplicates());
        assert(!rest.contains(killer)) by {
            if rest.contains(killer) {
                let i = choose|i: int| 0 <= i < rest.len() && rest[i] == killer;
                assert(victims[i] == killer);
            }
        }
        assert(spared(rest, last)) by {
            if rest.contains(last) {
                let i = choose|i: int| 0 <= i < rest.len() && rest[i] == last;
                assert(victims[i] == victims[n]);
            }
        }
        lemma_all_killed(game, rest, killer);
        let earlier = game.all_killed(rest, killer);
        assert(there(game.players, last));
        let l = choose|l: int| 0 <= l < game.players.len() && game.players[l].id == last;
        assert(victims.contains(last));
        assert(last != killer);
        assert(still_there(earlier.players, game.players[l], 0));
        assert(there(earlier.players, last));
        crate::capture::lemma_killed_leaves_room(earlier, last, Some(killer), 0);
        lemma_kill_takes_the_victim(earlier, last, Some(killer));
        let after = earlier.killed(last, Some(killer));
        assert forall|i: int| 0 <= i < victims.len() implies !there(
            after.players,
            #[trigger] victims[i],
        ) by {
            if i < n {
                assert(!there(earlier.players, rest[i]));
                if there(after.players, victims[i]) {
                    let k = choose|k: int|
                        0 <= k < after.players.len() && after.players[k].id == victims[i];
                    crate::course::lemma_killed_thinned(earlier, last, Some(killer));
                    assert(crate::course::was_among(
                        after.players[k],
                        earlier.players,
                        earlier.players.len() - after.players.len(),
                    ));
                    assert(there(earlier.players, victims[i]));
                }
            }
        }
        assert forall|i: int|
            #![trigger game.players[i]]
            0 <= i < game.players.len() && spared(victims, game.players[i].id) implies still_there(
            after.players,
            game.players[i],
            if game.players[i].id == killer {
                victims.len()
            } else {
                0
            },
        ) by {
            let p = game.players[i];
            assert(spared(rest, p.id)) by {
                if rest.contains(p.id) {
                    let k = choose|k: int| 0 <= k < rest.len() && rest[k] == p.id;
                    assert(victims[k] == p.id);
                }
            }
            let m: nat = if p.id == killer {
                rest.len()
            } else {
                0
            };
            let one: nat = if p.id == killer {
                1
            } else {
                0
            };
            lemma_still_there_chain(p, earlier.players, after.players, m, one, last);
        }
    }
}

// ---------------------------------------------------------------------------------------------
// The kills of a tick
// ---------------------------------------------------------------------------------------------

/// Whether a kill is the first of its victim, and the victim is there.
pub open spec fn counts(players: Seq<PlayerView>, kills: Seq<Kill>, k: int) -> bool {
    &&& there(players, kills[k].victim)
    &&& forall|j: int| 0 <= j < k ==> (#[trigger] kills[j]).victim != kills[k].victim
}

/// How many of the first `n` kills are to a player's credit.
pub open spec fn credit(
    players: Seq<PlayerView>,
    kills: Seq<Kill>,
    id: PlayerId,
    n: int,
) -> nat
    decreases n,
{
    if n <= 0 {
        0
    } else {
        credit(players, kills, id, n - 1) + if counts(players, kills, n - 1) && kills[n - 1].killer
            == Some(id) {
            1nat
        } else {
            0nat
        }
    }
}

/// Whether a player is the victim of none of the first `n` kills.
spec fn unharmed(kills: Seq<Kill>, n: int, id: PlayerId) -> bool {
    forall|k: int| 0 <= k < n ==> (#[trigger] kills[k]).victim != id
}

#[verifier::rlimit(60)]
proof fn lemma_kills_done_first(game: GameView, kills: Seq<Kill>, n: int)
    requires
        0 <= n <= kills.len(),
        distinct_ids(game.players),
        crate::capture::has_room_for(game, 0),
        forall|k: int| 0 <= k < kills.len() ==> (#[trigger] kills[k]).killer != Some(
            kills[k].victim,
        ),
    ensures
        ({
            let after = game.kills_done(kills.take(n));
            &&& distinct_ids(after.players)
            &&& crate::capture::has_room_for(after, 0)
            &&& forall|k: int| 0 <= k < n ==> !there(after.players, (#[trigger] kills[k]).victim)
            &&& forall|j: int|
                #![trigger after.players[j]]
                0 <= j < after.players.len() ==> there(game.players, after.players[j].id)
            &&& forall|i: int|
                #![trigger game.players[i]]
                0 <= i < game.players.len() && unharmed(kills, n, game.players[i].id)
                    ==> still_there(
                    after.players,
                    game.players[i],
                    credit(game.players, kills, game.players[i].id, n),
                )
        }),
    decreases n,
{
    if n == 0 {
        assert(kills.take(0) =~= Seq::empty());
        assert forall|i: int|
            #![trigger game.players[i]]
            0 <= i < game.players.len() implies still_there(game.players, game.players[i], 0) by {
            assert(same_self(game.players[i], game.players[i]));
        }
    } else {
        lemma_kills_done_first(game, kills, n - 1);
        assert(kills.take(n).drop_last() =~= kills.take(n - 1));
        let before = game.kills_done(kills.take(n - 1));
        let after = game.kills_done(kills.take(n));
        let kill = kills[n - 1];
        let shorter = kills.take(n - 1);
        if crate::tick::among_victims(shorter, kill.victim) {
            let m = choose|m: int|
                0 <= m < shorter.len() && (#[trigger] shorter[m]).victim == kill.victim;
            assert(kills[m].victim == kill.victim);
            assert(!counts(game.players, kills, n - 1));
            assert(after == before);
            assert forall|i: int|
                #![trigger game.players[i]]
                0 <= i < game.players.len() && unharmed(
                    kills,
                    n,
                    game.players[i].id,
                ) implies still_there(
                after.players,
                game.players[i],
                credit(game.players, kills, game.players[i].id, n),
            ) by {
                assert(unharmed(kills, n - 1, game.players[i].id));
            }
            assert forall|k: int| 0 <= k < n implies !there(
                after.players,
                (#[trigger] kills[k]).victim,
            ) by {
                if k == n - 1 {
                    assert(!there(before.players, kills[m].victim));
                }
            }
        } else {
            assert forall|j: int| 0 <= j < n - 1 implies (#[trigger] kills[j]).victim
                != kill.victim by {
                assert(shorter[j].victim == kills[j].victim);
            }
            if there(before.players, kill.victim) {
                let v = choose|v: int|
                    0 <= v < before.players.len() && before.players[v].id == kill.victim;
                assert(there(game.players, before.players[v].id));
                assert(counts(game.players, kills, n - 1));
                crate::capture::lemma_killed_leaves_room(before, kill.victim, kill.killer, 0);
                lemma_kill_takes_the_victim(before, kill.victim, kill.killer);
                crate::course::lemma_killed_thinned(before, kill.victim, kill.killer);
                assert forall|j: int| #![trigger after.players[j]] 0 <= j
                    < after.players.len() implies there(game.players, after.players[j].id)
                    && there(before.players, after.players[j].id) by {
                    assert(crate::course::was_among(
                        after.players[j],
                        before.players,
                        before.players.len() - after.players.len(),
                    ));
                    let b = choose|b: int|
                        0 <= b < before.players.len() && (#[trigger] before.players[b]).id
                            == after.players[j].id;
                    assert(there(game.players, before.players[b].id));
                }
                assert forall|k: int| 0 <= k < n implies !there(
                    after.players,
                    (#[trigger] kills[k]).victim,
                ) by {
                    if k < n - 1 && there(after.players, kills[k].victim) {
                        let j = choose|j: int|
                            0 <= j < after.players.len() && after.players[j].id
                                == kills[k].victim;
                        assert(there(before.players, after.players[j].id));
                    }
                }
            } else {
                crate::game::lemma_index_of(before.players, kill.victim);
                assert(after == before);
                assert(!counts(game.players, kills, n - 1)) by {
                    if there(game.players, kill.victim) {
                        let i = choose|i: int|
                            0 <= i < game.players.len() && game.players[i].id == kill.victim;
                        assert(unharmed(kills, n - 1, game.players[i].id));
                        assert(still_there(
                            before.players,
                            game.players[i],
                            credit(game.players, kills, game.players[i].id, n - 1),
                        ));
                        let j = choose|j: int|
                            0 <= j < before.players.len() && same_self(
                                game.players[i],
                                #[trigger] before.players[j],
                            ) && credited_with(
                                game.players[i],
                                before.players[j],
                                credit(game.players, kills, game.players[i].id, n - 1),
                            );
                        assert(before.players[j].id == kill.victim);
                    }
                }
            }
            assert forall|i: int|
                #![trigger game.players[i]]
                0 <= i < game.players.len() && unharmed(
                    kills,
                    n,
                    game.players[i].id,
                ) implies still_there(
                after.players,
                game.players[i],
                credit(game.players, kills, game.players[i].id, n),
            ) by {
                let p = game.players[i];
                let m = credit(game.players, kills, p.id, n - 1);
                assert(unharmed(kills, n - 1, p.id));
                assert(still_there(before.players, p, m));
                if there(before.players, kill.victim) {
                    assert(kills[n - 1].victim != p.id);
                    let one: nat = if kill.killer == Some(p.id) {
                        1
                    } else {
                        0
                    };
                    lemma_still_there_chain(p, before.players, after.players, m, one, kill.victim);
                }
            }
        }
    }
}

/// Of the kills of a tick the first of each victim counts: just the victims are gone, and who is
/// left has a kill more for each of its own that counts.
pub proof fn lemma_first_kills_count(game: GameView, kills: Seq<Kill>, i: int)
    requires
        distinct_ids(game.players),
        crate::capture::has_room_for(game, 0),
        forall|k: int| 0 <= k < kills.len() ==> (#[trigger] kills[k]).killer != Some(
            kills[k].victim,
        ),
        0 <= i < game.players.len(),
    ensures
        ({
            let p = game.players[i];
            let after = game.kills_done(kills);
            let dies = exists|k: int| 0 <= k < kills.len() && (#[trigger] kills[k]).victim == p.id;
            &&& distinct_ids(after.players)
            &&& there(after.players, p.id) == !dies
            &&& !dies ==> still_there(
                after.players,
                p,
                credit(game.players, kills, p.id, kills.len() as int),
            )
        }),
{
    let n = kills.len() as int;
    assert(kills.take(n) =~= kills);
    lemma_kills_done_first(game, kills, n);
    let p = game.players[i];
    let after = game.kills_done(kills);
    if exists|k: int| 0 <= k < kills.len() && (#[trigger] kills[k]).victim == p.id {
        let k = choose|k: int| 0 <= k < kills.len() && (#[trigger] kills[k]).victim == p.id;
        assert(!there(after.players, kills[k].victim));
    } else {
        let c = credit(game.players, kills, p.id, n);
        assert(unharmed(kills, n, p.id));
        assert(still_there(after.players, p, c));
        let j = choose|j: int|
            0 <= j < after.players.len() && same_self(p, #[trigger] after.players[j])
                && credited_with(p, after.players[j], c);
        assert(after.players[j].id == p.id);
    }
}

// ---------------------------------------------------------------------------------------------
// Captures
// ---------------------------------------------------------------------------------------------

/// Whether a capture is the death of a player: of another, alive, who is in the captured area, or
/// in the new territory with no ground of its own under its feet.
pub open spec fn caught(
    players: Seq<PlayerView>,
    id: PlayerId,
    outcome: CaptureOutcome,
    i: int,
) -> bool {
    &&& players[i].id != id
    &&& players[i].alive
    &&& outcome.in_capture@[i] || (outcome.in_new@[i] && !outcome.in_own@[i])
}

/// How many players a capture is the death of.
pub open spec fn count_caught(
    players: Seq<PlayerView>,
    id: PlayerId,
    outcome: CaptureOutcome,
    n: int,
) -> nat
    decreases n,
{
    if n <= 0 {
        0
    } else {
        count_caught(players, id, outcome, n - 1) + if caught(players, id, outcome, n - 1) {
            1nat
        } else {
            0nat
        }
    }
}

/// Those whom a capture strands are those whom it catches, each once.
pub proof fn lemma_stranded(players: Seq<PlayerView>, id: PlayerId, outcome: CaptureOutcome, n: int)
    requires
        0 <= n <= players.len(),
        distinct_ids(players),
    ensures
        ({
            let found = crate::capture::stranded(
                players.take(n),
                id,
                outcome.in_capture@,
                outcome.in_new@,
                outcome.in_own@,
            );
            &&& found.len() == count_caught(players, id, outcome, n)
            &&& found.no_duplicates()
            &&& forall|i: int|
                #![trigger players[i]]
                0 <= i < n ==> found.contains(players[i].id) == caught(players, id, outcome, i)
            &&& forall|k: int|
                0 <= k < found.len() ==> exists|i: int|
                    0 <= i < n && (#[trigger] players[i]).id == #[trigger] found[k]
        }),
    decreases n,
{
    if n > 0 {
        lemma_stranded(players, id, outcome, n - 1);
        assert(players.take(n).drop_last() =~= players.take(n - 1));
        let earlier = crate::capture::stranded(
            players.take(n - 1),
            id,
            outcome.in_capture@,
            outcome.in_new@,
            outcome.in_own@,
        );
        let found = crate::capture::stranded(
            players.take(n),
            id,
            outcome.in_capture@,
            outcome.in_new@,
            outcome.in_own@,
        );
        let p = players[n - 1];
        assert(!earlier.contains(p.id)) by {
            if earlier.contains(p.id) {
                let k = choose|k: int| 0 <= k < earlier.len() && earlier[k] == p.id;
                let i = choose|i: int|
                    0 <= i < n - 1 && (#[trigger] players[i]).id == earlier[k];
                assert(players[i].id != players[n - 1].id);
            }
        }
        if caught(players, id, outcome, n - 1) {
            assert(found == earlier.push(p.id));
            assert(found[earlier.len() as int] == p.id);
        } else {
            assert(found == earlier);
        }
        assert forall|i: int| #![trigger players[i]] 0 <= i < n implies found.contains(
            players[i].id,
        ) == caught(players, id, outcome, i) by {
            if i < n - 1 {
                assert(players[i].id != players[n - 1].id);
                if earlier.contains(players[i].id) {
                    let k = choose|k: int| 0 <= k < earlier.len() && earlier[k] == players[i].id;
                    assert(found[k] == players[i].id);
                }
                if found.contains(players[i].id) {
                    let k = choose|k: int| 0 <= k < found.len() && found[k] == players[i].id;
                    if k < earlier.len() {
                        assert(earlier[k] == players[i].id);
                    }
                }
            }
        }
        assert forall|k: int| 0 <= k < found.len() implies exists|i: int|
            0 <= i < n && (#[trigger] players[i]).id == #[trigger] found[k] by {
            if k < earlier.len() {
                assert(found[k] == earlier[k]);
                let i = choose|i: int|
                    0 <= i < n - 1 && (#[trigger] players[i]).id == earlier[k];
                assert(players[i].id == found[k]);
            } else {
                assert(players[n - 1].id == found[k]);
            }
        }
    }
}

/// What a player is right after a capture, before anyone dies of it: who made it has the new
/// territory and no trail, the others what is left of theirs.
pub open spec fn spoilt(
    p: PlayerView,
    id: PlayerId,
    territory: Seq<PolygonView>,
    left: Option<Seq<PolygonView>>,
) -> PlayerView {
    if p.id == id {
        PlayerView { territory, trail: Seq::empty(), trail_aabb: None, ..p }
    } else {
        match left {
            Some(territory) => PlayerView { territory, ..p },
            None => p,
        }
    }
}

/// What is left of a player's territory, where the outcome of a capture tells.
pub open spec fn left_of(outcome: CaptureOutcome, i: int) -> Option<Seq<PolygonView>> {
    match outcome.left@[i] {
        Some(t) => Some(t@),
        None => None,
    }
}

proof fn lemma_conquered(
    game: GameView,
    id: PlayerId,
    outcome: CaptureOutcome,
)
    requires
        distinct_ids(game.players),
        there(game.players, id),
        outcome.covers(game.players.len()),
        crate::capture::has_room_for(game, 1),
    ensures
        ({
            let after = game.conquered(
                id,
                outcome.territory@,
                crate::game::shapes(outcome.left@),
            );
            &&& after.players.len() == game.players.len()
            &&& after.territory_version == game.territory_version + 1
            &&& forall|i: int|
                0 <= i < game.players.len() ==> same_self(
                    spoilt(game.players[i], id, outcome.territory@, left_of(outcome, i)),
                    #[trigger] after.players[i],
                ) && credited_with(game.players[i], after.players[i], 0)
        }),
{
    let left = crate::game::shapes(outcome.left@);
    crate::game::lemma_index_of(game.players, id);
    let i = crate::game::index_of(game.players, id).unwrap();
    let cut = GameView { players: crate::game::carved(game.players, left), ..game };
    let changed = cut.with_player(
        i,
        PlayerView { territory: outcome.territory@, ..cut.players[i] }.without_trail(),
    ).territories_changed();
    crate::game::lemma_index_of(changed.players, id);
    if let Some(j) = crate::game::index_of(changed.players, id) {
        let at = changed.players[j].position;
        crate::capture::lemma_snapshots_keep(
            changed,
            crate::game::ids_near_among(
                changed.players,
                changed.found_around(at),
                at,
                crate::game::far_sight(),
            ),
        );
    }
    let after = game.conquered(id, outcome.territory@, left);
    assert(crate::capture::same_but_seen(after, changed));
    assert forall|k: int| 0 <= k < game.players.len() implies same_self(
        spoilt(game.players[k], id, outcome.territory@, left_of(outcome, k)),
        #[trigger] after.players[k],
    ) && credited_with(game.players[k], after.players[k], 0) by {
        assert(left[k] == left_of(outcome, k));
        if k != i {
            if k < i {
                assert(game.players[k].id != game.players[i].id);
            } else {
                assert(game.players[i].id != game.players[k].id);
            }
            assert(changed.players[k] == cut.players[k]);
        }
        assert(after.players[k] == (PlayerView {
            last_territory_version: after.players[k].last_territory_version,
            ..changed.players[k]
        }));
    }
}

/// A capture is the death of just those who are caught in it: told by each player's place in the
/// list, from where it stands. The others are still there with what is left of their territories;
/// who made the capture has the new territory, no trail, and a kill to its credit for each death.
pub proof fn lemma_capture_kills_the_caught(
    game: GameView,
    id: PlayerId,
    outcome: CaptureOutcome,
    i: int,
)
    requires
        distinct_ids(game.players),
        crate::capture::has_room_for(game, 1),
        crate::capture::area_captured(game, id) is Some,
        outcome.covers(game.players.len()),
        0 <= i < game.players.len(),
    ensures
        ({
            let after = game.territory_captured(id, outcome);
            let p = game.players[i];
            let deaths = count_caught(game.players, id, outcome, game.players.len() as int);
            &&& distinct_ids(after.players)
            &&& after.players.len() == game.players.len() - deaths
            &&& after.territory_version == game.territory_version + 1 + deaths
            &&& there(after.players, p.id) == !(p.id != id && p.alive && (outcome.in_capture@[i]
                || (outcome.in_new@[i] && !outcome.in_own@[i])))
            &&& there(after.players, p.id) ==> still_there(
                after.players,
                spoilt(p, id, outcome.territory@, left_of(outcome, i)),
                if p.id == id {
                    deaths
                } else {
                    0
                },
            )
        }),
{
    crate::game::lemma_index_of(game.players, id);
    assert(there(game.players, id));
    let n = game.players.len() as int;
    let left = crate::game::shapes(outcome.left@);
    let victims = crate::capture::stranded(
        game.players,
        id,
        outcome.in_capture@,
        outcome.in_new@,
        outcome.in_own@,
    );
    assert(game.players.take(n) =~= game.players);
    lemma_stranded(game.players, id, outcome, n);
    crate::laws::lemma_capturer_not_stranded(
        game.players,
        id,
        outcome.in_capture@,
        outcome.in_new@,
        outcome.in_own@,
    );
    let conquered = game.conquered(id, outcome.territory@, left);
    lemma_conquered(game, id, outcome);
    crate::capture::lemma_conquered_leaves_room(game, id, outcome.territory@, left, 0);
    assert forall|a: int, b: int| 0 <= a < b < conquered.players.len() implies (
    #[trigger] conquered.players[a]).id != (#[trigger] conquered.players[b]).id by {
        assert(game.players[a].id != game.players[b].id);
    }
    assert forall|k: int| 0 <= k < victims.len() implies there(
        conquered.players,
        #[trigger] victims[k],
    ) by {
        let a = choose|a: int| 0 <= a < n && (#[trigger] game.players[a]).id == victims[k];
        assert(conquered.players[a].id == victims[k]);
    }
    lemma_all_killed(conquered, victims, id);
    let after = conquered.all_killed(victims, id);
    let p = game.players[i];
    let q = conquered.players[i];
    let kept = spoilt(p, id, outcome.territory@, left_of(outcome, i));
    assert(same_self(kept, q));
    assert(victims.contains(p.id) == caught(game.players, id, outcome, i));
    if victims.contains(p.id) {
        let k = choose|k: int| 0 <= k < victims.len() && victims[k] == p.id;
        assert(!there(after.players, victims[k]));
    } else {
        assert(spared(victims, q.id));
        let more: nat = if q.id == id {
            victims.len()
        } else {
            0
        };
        assert(still_there(after.players, q, more));
        let j = choose|j: int|
            0 <= j < after.players.len() && same_self(q, #[trigger] after.players[j])
                && credited_with(q, after.players[j], more);
        assert(same_self(kept, after.players[j]) && credited_with(kept, after.players[j], more));
        assert(after.players[j].id == p.id);
    }
}

/// A trail that cuts off nothing is forgotten, and that is all.
pub proof fn lemma_nothing_captured(game: GameView, id: PlayerId, outcome: CaptureOutcome, i: int)
    requires
        distinct_ids(game.players),
        crate::capture::area_captured(game, id) is None,
        0 <= i < game.players.len(),
    ensures
        ({
            let after = game.territory_captured(id, outcome);
            let p = game.players[i];
            &&& after.players.len() == game.players.len()
            &&& after.territory_version == game.territory_version
            &&& after.outbox == game.outbox
            &&& p.id != id ==> after.players[i] == p
            &&& p.id == id ==> after.players[i] == (PlayerView {
                trail: Seq::empty(),
                trail_aabb: None,
                ..p
            })
        }),
{
    crate::game::lemma_index_of(game.players, id);
    if let Some(k) = crate::game::index_of(game.players, id) {
        if k < i {
            assert(game.players[k].id != game.players[i].id);
        } else if i < k {
            assert(game.players[i].id != game.players[k].id);
        }
    } else {
        assert(game.players[i].id != id);
    }
}

}
