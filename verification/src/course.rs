//! A whole tick: what holds from its start to its end, whatever is answered on the way.
use crate::capture::CaptureOutcome;
use crate::float64::Float64;
use crate::game::GameView;
use crate::player::PlayerView;
use crate::protocol::{PlayerId, Position, ServerMsgView};
use crate::tick::Kill;
use crate::update::{Answer, PhaseView};
use vstd::prelude::*;

verus! {

/// A game and the phase of a tick after some answers.
pub open spec fn run(
    game: GameView,
    phase: PhaseView,
    answers: Seq<Answer>,
    dt: Float64,
    now: u64,
) -> (GameView, PhaseView)
    decreases answers.len(),
{
    if answers.len() == 0 {
        (game, phase)
    } else {
        let before = run(game, phase, answers.drop_last(), dt, now);
        crate::update::updated(before.0, before.1, answers.last(), dt, now)
    }
}

/// Whether each of some answers says something of each player that there is by then.
pub open spec fn all_cover(
    game: GameView,
    phase: PhaseView,
    answers: Seq<Answer>,
    dt: Float64,
    now: u64,
) -> bool {
    forall|k: int|
        #![trigger answers[k]]
        0 <= k < answers.len() ==> crate::update::covers(
            run(game, phase, answers.take(k), dt, now).0,
            run(game, phase, answers.take(k), dt, now).1,
            answers[k],
        )
}

// ---------------------------------------------------------------------------------------------
// Players only leave
// ---------------------------------------------------------------------------------------------

/// Whether a player was among some, with as many kills or up to some fewer.
pub open spec fn was_among(p: PlayerView, before: Seq<PlayerView>, most: int) -> bool {
    exists|i: int|
        0 <= i < before.len() && (#[trigger] before[i]).id == p.id && before[i].kill_count
            <= p.kill_count <= before[i].kill_count + most
}

/// Whether one game comes of another in which players only left: whoever is there was there, each
/// gained at most as many kills as players left, and the version went up at least as often.
pub open spec fn thinned(a: GameView, b: GameView) -> bool {
    &&& b.players.len() <= a.players.len()
    &&& b.next_id == a.next_id
    &&& b.territory_version >= a.territory_version + (a.players.len() - b.players.len())
    &&& forall|j: int|
        0 <= j < b.players.len() ==> was_among(
            #[trigger] b.players[j],
            a.players,
            a.players.len() - b.players.len(),
        )
}

proof fn lemma_thinned_chain(a: GameView, b: GameView, c: GameView)
    requires
        thinned(a, b),
        thinned(b, c),
    ensures
        thinned(a, c),
{
    assert forall|j: int| 0 <= j < c.players.len() implies was_among(
        #[trigger] c.players[j],
        a.players,
        a.players.len() - c.players.len(),
    ) by {
        let p = c.players[j];
        assert(was_among(p, b.players, b.players.len() - c.players.len()));
        let k = choose|k: int|
            0 <= k < b.players.len() && (#[trigger] b.players[k]).id == p.id
                && b.players[k].kill_count <= p.kill_count <= b.players[k].kill_count + (
            b.players.len() - c.players.len());
        let q = b.players[k];
        assert(was_among(q, a.players, a.players.len() - b.players.len()));
        let i = choose|i: int|
            0 <= i < a.players.len() && (#[trigger] a.players[i]).id == q.id
                && a.players[i].kill_count <= q.kill_count <= a.players[i].kill_count + (
            a.players.len() - b.players.len());
        assert(a.players[i].id == p.id);
    }
}

/// Where every player keeps id and kills, nobody left.
proof fn lemma_kept_thinned(a: GameView, b: GameView)
    requires
        b.players.len() == a.players.len(),
        b.next_id == a.next_id,
        b.territory_version >= a.territory_version,
        forall|i: int|
            0 <= i < a.players.len() ==> (#[trigger] b.players[i]).id == a.players[i].id
                && b.players[i].kill_count == a.players[i].kill_count,
    ensures
        thinned(a, b),
{
    assert forall|j: int| 0 <= j < b.players.len() implies was_among(
        #[trigger] b.players[j],
        a.players,
        0,
    ) by {
        assert(a.players[j].id == b.players[j].id);
    }
}

proof fn lemma_snapshots_keep_rest(game: GameView, ids: Seq<PlayerId>)
    ensures
        game.snapshots_sent(ids).next_id == game.next_id,
        game.snapshots_sent(ids).board_radius == game.board_radius,
    decreases ids.len(),
{
    if ids.len() > 0 {
        lemma_snapshots_keep_rest(game, ids.drop_last());
    }
}

proof fn lemma_sent_keeps_rest(game: GameView, ids: Seq<PlayerId>, msg: ServerMsgView)
    ensures
        game.sent_to_each(ids, msg).next_id == game.next_id,
        game.sent_to_each(ids, msg).board_radius == game.board_radius,
    decreases ids.len(),
{
    if ids.len() > 0 {
        lemma_sent_keeps_rest(game, ids.drop_last(), msg);
    }
}

/// After a kill one player fewer is there, with at most one kill more to its credit.
pub proof fn lemma_killed_thinned(game: GameView, victim: PlayerId, killer: Option<PlayerId>)
    requires
        crate::capture::has_room_for(game, 0),
    ensures
        thinned(game, game.killed(victim, killer)),
{
    crate::game::lemma_index_of(game.players, victim);
    match crate::game::index_of(game.players, victim) {
        None => {
            lemma_kept_thinned(game, game);
        },
        Some(i) => {
            let n = game.players.len();
            let at = game.players[i].position;
            let credited = game.kill_credited(killer);
            if let Some(id) = killer {
                crate::game::lemma_index_of(game.players, id);
            }
            assert forall|k: int| 0 <= k < n implies (#[trigger] credited.players[k]).id
                == game.players[k].id && game.players[k].kill_count
                <= credited.players[k].kill_count <= game.players[k].kill_count + 1 by {
                assert(game.players[k].kill_count + n <= u32::MAX);
            }
            let seen_by = crate::game::witnesses(credited.players, game.found_around(at), at);
            let msg = ServerMsgView::PlayerKilled { player_id: victim, killer_id: killer };
            crate::capture::lemma_sent_keeps(credited, seen_by, msg);
            lemma_sent_keeps_rest(credited, seen_by, msg);
            let told = credited.sent_to_each(seen_by, msg);
            assert(told.players[i].id == victim);
            crate::game::lemma_index_of(told.players, victim);
            let j = crate::game::index_of(told.players, victim).unwrap();
            let changed = told.without(victim).territories_changed();
            let others = crate::game::without_id(seen_by, victim);
            crate::capture::lemma_snapshots_keep(changed, others);
            lemma_snapshots_keep_rest(changed, others);
            let after = changed.snapshots_sent(others);
            assert forall|k: int| 0 <= k < after.players.len() implies was_among(
                #[trigger] after.players[k],
                game.players,
                1,
            ) by {
                let m = if k < j {
                    k
                } else {
                    k + 1
                };
                assert(changed.players[k] == told.players[m]);
                assert(credited.players[m].id == game.players[m].id);
                assert(game.players[m].id == after.players[k].id);
            }
        },
    }
}

proof fn lemma_all_killed_thinned(game: GameView, victims: Seq<PlayerId>, killer: PlayerId)
    requires
        crate::capture::has_room_for(game, 0),
    ensures
        thinned(game, game.all_killed(victims, killer)),
        crate::capture::has_room_for(game.all_killed(victims, killer), 0),
    decreases victims.len(),
{
    if victims.len() == 0 {
        lemma_kept_thinned(game, game);
    } else {
        lemma_all_killed_thinned(game, victims.drop_last(), killer);
        let earlier = game.all_killed(victims.drop_last(), killer);
        let victim = victims.last();
        crate::capture::lemma_killed_leaves_room(earlier, victim, Some(killer), 0);
        lemma_killed_thinned(earlier, victim, Some(killer));
        lemma_thinned_chain(game, earlier, earlier.killed(victim, Some(killer)));
    }
}

proof fn lemma_kills_done_thinned(game: GameView, kills: Seq<Kill>)
    requires
        crate::capture::has_room_for(game, 0),
    ensures
        thinned(game, game.kills_done(kills)),
        crate::capture::has_room_for(game.kills_done(kills), 0),
    decreases kills.len(),
{
    if kills.len() == 0 {
        lemma_kept_thinned(game, game);
    } else {
        lemma_kills_done_thinned(game, kills.drop_last());
        let earlier = game.kills_done(kills.drop_last());
        let kill = kills.last();
        crate::capture::lemma_killed_leaves_room(earlier, kill.victim, kill.killer, 0);
        lemma_killed_thinned(earlier, kill.victim, kill.killer);
        lemma_thinned_chain(game, earlier, earlier.killed(kill.victim, kill.killer));
    }
}

/// Kills leave the board as it is.
pub proof fn lemma_kills_keep_board(game: GameView, kills: Seq<Kill>)
    ensures
        game.kills_done(kills).board_radius == game.board_radius,
    decreases kills.len(),
{
    if kills.len() > 0 {
        lemma_kills_keep_board(game, kills.drop_last());
        let earlier = game.kills_done(kills.drop_last());
        let kill = kills.last();
        if let Some(i) = crate::game::index_of(earlier.players, kill.victim) {
            let at = earlier.players[i].position;
            let credited = earlier.kill_credited(kill.killer);
            let seen_by = crate::game::witnesses(credited.players, earlier.found_around(at), at);
            let msg = ServerMsgView::PlayerKilled {
                player_id: kill.victim,
                killer_id: kill.killer,
            };
            lemma_sent_keeps_rest(credited, seen_by, msg);
            lemma_snapshots_keep_rest(
                credited.sent_to_each(seen_by, msg).without(kill.victim).territories_changed(),
                crate::game::without_id(seen_by, kill.victim),
            );
        }
    }
}

proof fn lemma_settled_thinned(
    game: GameView,
    captures: Seq<PlayerId>,
    next: int,
    kills: Seq<Kill>,
)
    requires
        0 <= next <= captures.len(),
        crate::capture::has_room_for(game, captures.len() - next),
    ensures
        ({
            let after = crate::update::settled(game, captures, next, kills);
            thinned(game, after.0) && crate::update::at_phase(after.0, after.1)
        }),
{
    if next < captures.len() {
        lemma_kept_thinned(game, game);
    } else {
        lemma_kills_done_thinned(game, kills);
        let done = game.kills_done(kills);
        lemma_kept_thinned(done, done.held_on_board());
        lemma_thinned_chain(game, done, done.held_on_board());
    }
}

proof fn lemma_captured_thinned(game: GameView, id: PlayerId, outcome: CaptureOutcome)
    requires
        crate::capture::has_room_for(game, 1),
    ensures
        thinned(game, game.territory_captured(id, outcome)),
{
    crate::game::lemma_index_of(game.players, id);
    if crate::capture::area_captured(game, id) is None {
        lemma_kept_thinned(game, game.trail_dropped(id));
    } else {
        let left = crate::game::shapes(outcome.left@);
        let i = crate::game::index_of(game.players, id).unwrap();
        let cut = GameView { players: crate::game::carved(game.players, left), ..game };
        let changed = cut.with_player(
            i,
            PlayerView { territory: outcome.territory@, ..cut.players[i] }.without_trail(),
        ).territories_changed();
        let conquered = game.conquered(id, outcome.territory@, left);
        if let Some(j) = crate::game::index_of(changed.players, id) {
            let at = changed.players[j].position;
            let ids = crate::game::ids_near_among(
                changed.players,
                changed.found_around(at),
                at,
                crate::game::far_sight(),
            );
            crate::capture::lemma_snapshots_keep(changed, ids);
            lemma_snapshots_keep_rest(changed, ids);
        }
        assert(crate::capture::same_but_seen(conquered, changed));
        assert forall|k: int| 0 <= k < game.players.len() implies (
        #[trigger] conquered.players[k]).id == game.players[k].id
            && conquered.players[k].kill_count == game.players[k].kill_count by {
            assert(changed.players[k].id == game.players[k].id);
        }
        lemma_kept_thinned(game, conquered);
        crate::capture::lemma_conquered_leaves_room(game, id, outcome.territory@, left, 0);
        let victims = crate::capture::stranded(
            game.players,
            id,
            outcome.in_capture@,
            outcome.in_new@,
            outcome.in_own@,
        );
        lemma_all_killed_thinned(conquered, victims, id);
        lemma_thinned_chain(game, conquered, conquered.all_killed(victims, id));
    }
}

/// In every step of a tick players only leave, and the tick can go on.
pub proof fn lemma_updated_thinned(
    game: GameView,
    phase: PhaseView,
    answer: Answer,
    dt: Float64,
    now: u64,
)
    requires
        crate::update::at_phase(game, phase),
        crate::update::covers(game, phase, answer),
    ensures
        ({
            let after = crate::update::updated(game, phase, answer, dt, now);
            thinned(game, after.0) && crate::update::at_phase(after.0, after.1)
        }),
{
    let after = crate::update::updated(game, phase, answer, dt, now);
    match (phase, answer) {
        (PhaseView::Begin, Answer::Areas(areas)) => {
            lemma_kept_thinned(game, after.0);
        },
        (PhaseView::Move { below }, Answer::Motions(motions)) => {
            lemma_kept_thinned(game, after.0);
            assert forall|i: int| 0 <= i < after.0.players.len() implies (
            #[trigger] after.0.players[i]).kill_count == game.players[i].kill_count by {
            }
        },
        (PhaseView::Place { olds }, Answer::Inside(inside)) => {
            let placed = GameView {
                players: crate::tick::all_placed(game.players, olds, inside@),
                ..game
            };
            let captures = crate::tick::returning(game.players, inside@);
            crate::tick::lemma_returning_few(game.players, inside@);
            lemma_kept_thinned(game, placed);
            assert forall|i: int| 0 <= i < placed.players.len() implies (
            #[trigger] placed.players[i]).kill_count == game.players[i].kill_count by {
            }
            let kills = crate::tick::kills_made(
                placed.players,
                olds,
                placed.players.len() as int,
            );
            lemma_settled_thinned(placed, captures, 0, kills);
            lemma_thinned_chain(game, placed, after.0);
        },
        (PhaseView::Capture { captures, next, kills }, Answer::Outcome(outcome)) => {
            let captured = game.territory_captured(captures[next], outcome);
            lemma_captured_thinned(game, captures[next], outcome);
            crate::capture::lemma_captured_leaves_room(
                game,
                captures[next],
                outcome,
                captures.len() - next - 1,
            );
            lemma_settled_thinned(captured, captures, next + 1, kills);
            lemma_thinned_chain(game, captured, after.0);
        },
        _ => {
            lemma_kept_thinned(game, game);
        },
    }
}

proof fn lemma_run_thinned(
    game: GameView,
    phase: PhaseView,
    answers: Seq<Answer>,
    dt: Float64,
    now: u64,
)
    requires
        crate::update::at_phase(game, phase),
        all_cover(game, phase, answers, dt, now),
    ensures
        ({
            let after = run(game, phase, answers, dt, now);
            thinned(game, after.0) && crate::update::at_phase(after.0, after.1)
        }),
    decreases answers.len(),
{
    if answers.len() == 0 {
        lemma_kept_thinned(game, game);
    } else {
        let shorter = answers.drop_last();
        let n = answers.len() - 1;
        assert forall|k: int|
            #![trigger shorter[k]]
            0 <= k < shorter.len() implies crate::update::covers(
            run(game, phase, shorter.take(k), dt, now).0,
            run(game, phase, shorter.take(k), dt, now).1,
            shorter[k],
        ) by {
            assert(shorter.take(k) =~= answers.take(k));
            assert(shorter[k] == answers[k]);
        }
        lemma_run_thinned(game, phase, shorter, dt, now);
        let before = run(game, phase, shorter, dt, now);
        assert(answers.take(n) =~= shorter);
        assert(answers[n] == answers.last());
        lemma_updated_thinned(before.0, before.1, answers.last(), dt, now);
        lemma_thinned_chain(
            game,
            before.0,
            crate::update::updated(before.0, before.1, answers.last(), dt, now).0,
        );
    }
}

proof fn lemma_run_valid(
    game: GameView,
    phase: PhaseView,
    answers: Seq<Answer>,
    dt: Float64,
    now: u64,
)
    requires
        crate::laws::valid(game, crate::laws::waiting(phase)),
        crate::update::at_phase(game, phase),
        all_cover(game, phase, answers, dt, now),
    ensures
        ({
            let after = run(game, phase, answers, dt, now);
            crate::laws::valid(after.0, crate::laws::waiting(after.1))
        }),
    decreases answers.len(),
{
    if answers.len() > 0 {
        let shorter = answers.drop_last();
        let n = answers.len() - 1;
        assert forall|k: int|
            #![trigger shorter[k]]
            0 <= k < shorter.len() implies crate::update::covers(
            run(game, phase, shorter.take(k), dt, now).0,
            run(game, phase, shorter.take(k), dt, now).1,
            shorter[k],
        ) by {
            assert(shorter.take(k) =~= answers.take(k));
            assert(shorter[k] == answers[k]);
        }
        lemma_run_valid(game, phase, shorter, dt, now);
        lemma_run_thinned(game, phase, shorter, dt, now);
        let before = run(game, phase, shorter, dt, now);
        assert(answers.take(n) =~= shorter);
        assert(answers[n] == answers.last());
        crate::laws::lemma_updated_valid(before.0, before.1, answers.last(), dt, now);
    }
}

/// In a tick players only leave: whoever is there at its end was there at its start, with at most
/// as many kills more as players left, and the version of the territories went up at least as
/// often. A game that was valid is so after any number of steps.
pub proof fn lemma_tick_thins(
    game: GameView,
    answers: Seq<Answer>,
    dt: Float64,
    now: u64,
)
    requires
        crate::laws::valid(game, Seq::empty()),
        crate::tick::ready(game),
        all_cover(game, PhaseView::Begin, answers, dt, now),
    ensures
        ({
            let after = run(game, PhaseView::Begin, answers, dt, now);
            &&& thinned(game, after.0)
            &&& crate::laws::valid(after.0, crate::laws::waiting(after.1))
            &&& crate::update::at_phase(after.0, after.1)
        }),
{
    lemma_run_thinned(game, PhaseView::Begin, answers, dt, now);
    lemma_run_valid(game, PhaseView::Begin, answers, dt, now);
}

// ---------------------------------------------------------------------------------------------
// No victim is credited twice
// ---------------------------------------------------------------------------------------------

/// The kills of the player of an id among some.
pub open spec fn kills_of_id(players: Seq<PlayerView>, id: PlayerId) -> int {
    match crate::game::index_of(players, id) {
        Some(i) => players[i].kill_count as int,
        None => 0,
    }
}

/// How many kills some players together have more than they had at the start.
pub open spec fn gained(start: Seq<PlayerView>, players: Seq<PlayerView>) -> int
    decreases players.len(),
{
    if players.len() == 0 {
        0
    } else {
        gained(start, players.drop_last()) + players.last().kill_count - kills_of_id(
            start,
            players.last().id,
        )
    }
}

/// Whether nobody has fewer kills than at the start, and all together gained at most as many as
/// players left.
pub open spec fn fairly_credited(start: Seq<PlayerView>, players: Seq<PlayerView>) -> bool {
    &&& gained(start, players) <= start.len() - players.len()
    &&& forall|i: int|
        0 <= i < players.len() ==> (#[trigger] players[i]).kill_count >= kills_of_id(
            start,
            players[i].id,
        )
}

proof fn lemma_gained_same(start: Seq<PlayerView>, a: Seq<PlayerView>, b: Seq<PlayerView>)
    requires
        a.len() == b.len(),
        forall|i: int|
            0 <= i < a.len() ==> (#[trigger] a[i]).id == b[i].id && a[i].kill_count
                == b[i].kill_count,
    ensures
        gained(start, a) == gained(start, b),
        fairly_credited(start, b) ==> fairly_credited(start, a),
    decreases a.len(),
{
    if a.len() > 0 {
        let n = a.len() - 1;
        assert(a[n].id == b[n].id);
        assert forall|i: int| 0 <= i < n implies (#[trigger] a.drop_last()[i]).id
            == b.drop_last()[i].id && a.drop_last()[i].kill_count
            == b.drop_last()[i].kill_count by {
            assert(a[i].id == b[i].id);
        }
        lemma_gained_same(start, a.drop_last(), b.drop_last());
        assert forall|i: int| fairly_credited(start, b) && 0 <= i < a.len() implies (
        #[trigger] a[i]).kill_count >= kills_of_id(start, a[i].id) by {
            assert(b[i].kill_count >= kills_of_id(start, b[i].id));
        }
    }
}

proof fn lemma_gained_updated(start: Seq<PlayerView>, s: Seq<PlayerView>, k: int, p: PlayerView)
    requires
        0 <= k < s.len(),
        p.id == s[k].id,
    ensures
        gained(start, s.update(k, p)) == gained(start, s) + p.kill_count - s[k].kill_count,
    decreases s.len(),
{
    let n = s.len() - 1;
    if k < n {
        lemma_gained_updated(start, s.drop_last(), k, p);
        assert(s.update(k, p).drop_last() =~= s.drop_last().update(k, p));
    } else {
        assert(s.update(k, p).drop_last() =~= s.drop_last());
    }
}

proof fn lemma_gained_removed(start: Seq<PlayerView>, s: Seq<PlayerView>, k: int)
    requires
        0 <= k < s.len(),
    ensures
        gained(start, s.remove(k)) == gained(start, s) - (s[k].kill_count - kills_of_id(
            start,
            s[k].id,
        )),
    decreases s.len(),
{
    let n = s.len() - 1;
    if k < n {
        lemma_gained_removed(start, s.drop_last(), k);
        assert(s.remove(k).drop_last() =~= s.drop_last().remove(k));
    } else {
        assert(s.remove(k) =~= s.drop_last());
    }
}

/// At the start nobody has gained anything, where ids are distinct.
proof fn lemma_nothing_gained(start: Seq<PlayerView>, n: nat)
    requires
        n <= start.len(),
        forall|i: int, j: int|
            0 <= i < j < start.len() ==> (#[trigger] start[i]).id != (#[trigger] start[j]).id,
    ensures
        gained(start, start.take(n as int)) == 0,
        forall|i: int|
            0 <= i < start.len() ==> kills_of_id(start, (#[trigger] start[i]).id)
                == start[i].kill_count,
    decreases n,
{
    assert forall|i: int| 0 <= i < start.len() implies kills_of_id(start, (#[trigger] start[i]).id)
        == start[i].kill_count by {
        crate::game::lemma_index_of(start, start[i].id);
        let j = crate::game::index_of(start, start[i].id).unwrap();
        if i < j {
            assert(start[i].id != start[j].id);
        } else if j < i {
            assert(start[j].id != start[i].id);
        }
    }
    if n > 0 {
        lemma_nothing_gained(start, (n - 1) as nat);
        assert(start.take(n as int).drop_last() =~= start.take(n - 1));
        assert(start[n - 1].kill_count == kills_of_id(start, start[n - 1].id));
    }
}

proof fn lemma_killed_credited(
    start: Seq<PlayerView>,
    game: GameView,
    victim: PlayerId,
    killer: Option<PlayerId>,
)
    requires
        fairly_credited(start, game.players),
        crate::capture::has_room_for(game, 0),
    ensures
        fairly_credited(start, game.killed(victim, killer).players),
{
    crate::game::lemma_index_of(game.players, victim);
    if let Some(i) = crate::game::index_of(game.players, victim) {
        let n = game.players.len();
        let at = game.players[i].position;
        let credited = game.kill_credited(killer);
        if let Some(id) = killer {
            crate::game::lemma_index_of(game.players, id);
            if let Some(k) = crate::game::index_of(game.players, id) {
                assert(game.players[k].kill_count + n <= u32::MAX);
                lemma_gained_updated(start, game.players, k, game.players[k].credited());
            }
        }
        assert(gained(start, credited.players) <= gained(start, game.players) + 1);
        assert forall|k: int| 0 <= k < n implies (#[trigger] credited.players[k]).id
            == game.players[k].id && credited.players[k].kill_count >= kills_of_id(
            start,
            credited.players[k].id,
        ) by {
            assert(game.players[k].kill_count >= kills_of_id(start, game.players[k].id));
            assert(game.players[k].kill_count + n <= u32::MAX);
        }
        let seen_by = crate::game::witnesses(credited.players, game.found_around(at), at);
        let msg = ServerMsgView::PlayerKilled { player_id: victim, killer_id: killer };
        crate::capture::lemma_sent_keeps(credited, seen_by, msg);
        let told = credited.sent_to_each(seen_by, msg);
        assert(told.players[i].id == victim);
        crate::game::lemma_index_of(told.players, victim);
        let j = crate::game::index_of(told.players, victim).unwrap();
        let changed = told.without(victim).territories_changed();
        lemma_gained_removed(start, told.players, j);
        assert(credited.players[j].kill_count >= kills_of_id(start, credited.players[j].id));
        assert forall|k: int| 0 <= k < changed.players.len() implies (
        #[trigger] changed.players[k]).kill_count >= kills_of_id(start, changed.players[k].id) by {
            let m = if k < j {
                k
            } else {
                k + 1
            };
            assert(changed.players[k] == credited.players[m]);
        }
        let others = crate::game::without_id(seen_by, victim);
        crate::capture::lemma_snapshots_keep(changed, others);
        lemma_gained_same(start, changed.snapshots_sent(others).players, changed.players);
    }
}

proof fn lemma_all_killed_credited(
    start: Seq<PlayerView>,
    game: GameView,
    victims: Seq<PlayerId>,
    killer: PlayerId,
)
    requires
        fairly_credited(start, game.players),
        crate::capture::has_room_for(game, 0),
    ensures
        fairly_credited(start, game.all_killed(victims, killer).players),
    decreases victims.len(),
{
    if victims.len() > 0 {
        lemma_all_killed_credited(start, game, victims.drop_last(), killer);
        lemma_all_killed_thinned(game, victims.drop_last(), killer);
        let earlier = game.all_killed(victims.drop_last(), killer);
        lemma_killed_credited(start, earlier, victims.last(), Some(killer));
    }
}

proof fn lemma_kills_done_credited(start: Seq<PlayerView>, game: GameView, kills: Seq<Kill>)
    requires
        fairly_credited(start, game.players),
        crate::capture::has_room_for(game, 0),
    ensures
        fairly_credited(start, game.kills_done(kills).players),
    decreases kills.len(),
{
    if kills.len() > 0 {
        lemma_kills_done_credited(start, game, kills.drop_last());
        lemma_kills_done_thinned(game, kills.drop_last());
        let earlier = game.kills_done(kills.drop_last());
        lemma_killed_credited(start, earlier, kills.last().victim, kills.last().killer);
    }
}

proof fn lemma_captured_credited(
    start: Seq<PlayerView>,
    game: GameView,
    id: PlayerId,
    outcome: CaptureOutcome,
)
    requires
        fairly_credited(start, game.players),
        crate::capture::has_room_for(game, 1),
    ensures
        fairly_credited(start, game.territory_captured(id, outcome).players),
{
    crate::game::lemma_index_of(game.players, id);
    if crate::capture::area_captured(game, id) is None {
        lemma_gained_same(start, game.trail_dropped(id).players, game.players);
    } else {
        let left = crate::game::shapes(outcome.left@);
        let i = crate::game::index_of(game.players, id).unwrap();
        let cut = GameView { players: crate::game::carved(game.players, left), ..game };
        let changed = cut.with_player(
            i,
            PlayerView { territory: outcome.territory@, ..cut.players[i] }.without_trail(),
        ).territories_changed();
        let conquered = game.conquered(id, outcome.territory@, left);
        if let Some(j) = crate::game::index_of(changed.players, id) {
            let at = changed.players[j].position;
            let ids = crate::game::ids_near_among(
                changed.players,
                changed.found_around(at),
                at,
                crate::game::far_sight(),
            );
            crate::capture::lemma_snapshots_keep(changed, ids);
        }
        assert(crate::capture::same_but_seen(conquered, changed));
        assert forall|k: int| 0 <= k < game.players.len() implies (
        #[trigger] conquered.players[k]).id == game.players[k].id
            && conquered.players[k].kill_count == game.players[k].kill_count by {
            assert(changed.players[k].id == game.players[k].id);
        }
        lemma_gained_same(start, conquered.players, game.players);
        crate::capture::lemma_conquered_leaves_room(game, id, outcome.territory@, left, 0);
        lemma_all_killed_credited(
            start,
            conquered,
            crate::capture::stranded(
                game.players,
                id,
                outcome.in_capture@,
                outcome.in_new@,
                outcome.in_own@,
            ),
            id,
        );
    }
}

proof fn lemma_settled_credited(
    start: Seq<PlayerView>,
    game: GameView,
    captures: Seq<PlayerId>,
    next: int,
    kills: Seq<Kill>,
)
    requires
        0 <= next <= captures.len(),
        fairly_credited(start, game.players),
        crate::capture::has_room_for(game, captures.len() - next),
    ensures
        fairly_credited(start, crate::update::settled(game, captures, next, kills).0.players),
{
    if next == captures.len() {
        lemma_kills_done_credited(start, game, kills);
        let done = game.kills_done(kills);
        lemma_gained_same(start, done.held_on_board().players, done.players);
    }
}

proof fn lemma_updated_credited(
    start: Seq<PlayerView>,
    game: GameView,
    phase: PhaseView,
    answer: Answer,
    dt: Float64,
    now: u64,
)
    requires
        fairly_credited(start, game.players),
        crate::update::at_phase(game, phase),
        crate::update::covers(game, phase, answer),
    ensures
        fairly_credited(
            start,
            crate::update::updated(game, phase, answer, dt, now).0.players,
        ),
{
    let after = crate::update::updated(game, phase, answer, dt, now);
    match (phase, answer) {
        (PhaseView::Move { below }, Answer::Motions(motions)) => {
            lemma_gained_same(start, after.0.players, game.players);
        },
        (PhaseView::Place { olds }, Answer::Inside(inside)) => {
            let placed = GameView {
                players: crate::tick::all_placed(game.players, olds, inside@),
                ..game
            };
            let captures = crate::tick::returning(game.players, inside@);
            crate::tick::lemma_returning_few(game.players, inside@);
            lemma_gained_same(start, placed.players, game.players);
            assert forall|i: int| 0 <= i < placed.players.len() implies (
            #[trigger] placed.players[i]).kill_count == game.players[i].kill_count by {
            }
            lemma_settled_credited(
                start,
                placed,
                captures,
                0,
                crate::tick::kills_made(placed.players, olds, placed.players.len() as int),
            );
        },
        (PhaseView::Capture { captures, next, kills }, Answer::Outcome(outcome)) => {
            let captured = game.territory_captured(captures[next], outcome);
            lemma_captured_credited(start, game, captures[next], outcome);
            crate::capture::lemma_captured_leaves_room(
                game,
                captures[next],
                outcome,
                captures.len() - next - 1,
            );
            lemma_settled_credited(start, captured, captures, next + 1, kills);
        },
        _ => {},
    }
}

/// No victim is credited twice: in a tick nobody loses a kill, and all who are still there together
/// gain at most as many kills as players left.
pub proof fn lemma_tick_credits_each_victim_once(
    game: GameView,
    answers: Seq<Answer>,
    dt: Float64,
    now: u64,
)
    requires
        crate::laws::valid(game, Seq::empty()),
        crate::tick::ready(game),
        all_cover(game, PhaseView::Begin, answers, dt, now),
    ensures
        fairly_credited(
            game.players,
            run(game, PhaseView::Begin, answers, dt, now).0.players,
        ),
    decreases answers.len(),
{
    let start = game.players;
    if answers.len() == 0 {
        lemma_nothing_gained(start, start.len());
        assert(start.take(start.len() as int) =~= start);
    } else {
        let shorter = answers.drop_last();
        let n = answers.len() - 1;
        assert forall|k: int|
            #![trigger shorter[k]]
            0 <= k < shorter.len() implies crate::update::covers(
            run(game, PhaseView::Begin, shorter.take(k), dt, now).0,
            run(game, PhaseView::Begin, shorter.take(k), dt, now).1,
            shorter[k],
        ) by {
            assert(shorter.take(k) =~= answers.take(k));
            assert(shorter[k] == answers[k]);
        }
        lemma_tick_credits_each_victim_once(game, shorter, dt, now);
        lemma_run_thinned(game, PhaseView::Begin, shorter, dt, now);
        let before = run(game, PhaseView::Begin, shorter, dt, now);
        assert(answers.take(n) =~= shorter);
        assert(answers[n] == answers.last());
        lemma_updated_credited(start, before.0, before.1, answers.last(), dt, now);
    }
}

// ---------------------------------------------------------------------------------------------
// Players stay where they went, but for the edge
// ---------------------------------------------------------------------------------------------

/// Whether a player was among some, as alive as it is and at its place.
pub open spec fn was_there(p: PlayerView, before: Seq<PlayerView>) -> bool {
    exists|i: int|
        0 <= i < before.len() && (#[trigger] before[i]).id == p.id && before[i].position
            == p.position && before[i].alive == p.alive
}

/// Whether one game comes of another on the same board in which nobody moved.
pub open spec fn unmoved(a: GameView, b: GameView) -> bool {
    &&& b.board_radius == a.board_radius
    &&& forall|j: int|
        0 <= j < b.players.len() ==> was_there(#[trigger] b.players[j], a.players)
}

proof fn lemma_unmoved_chain(a: GameView, b: GameView, c: GameView)
    requires
        unmoved(a, b),
        unmoved(b, c),
    ensures
        unmoved(a, c),
{
    assert forall|j: int| 0 <= j < c.players.len() implies was_there(
        #[trigger] c.players[j],
        a.players,
    ) by {
        let p = c.players[j];
        let k = choose|k: int|
            0 <= k < b.players.len() && (#[trigger] b.players[k]).id == p.id
                && b.players[k].position == p.position && b.players[k].alive == p.alive;
        let q = b.players[k];
        assert(was_there(q, a.players));
        let i = choose|i: int|
            0 <= i < a.players.len() && (#[trigger] a.players[i]).id == q.id
                && a.players[i].position == q.position && a.players[i].alive == q.alive;
        assert(a.players[i].id == p.id);
    }
}

proof fn lemma_kept_unmoved(a: GameView, b: GameView)
    requires
        b.board_radius == a.board_radius,
        b.players.len() == a.players.len(),
        forall|i: int|
            0 <= i < a.players.len() ==> (#[trigger] b.players[i]).id == a.players[i].id
                && b.players[i].position == a.players[i].position && b.players[i].alive
                == a.players[i].alive,
    ensures
        unmoved(a, b),
{
    assert forall|j: int| 0 <= j < b.players.len() implies was_there(
        #[trigger] b.players[j],
        a.players,
    ) by {
        assert(a.players[j].id == b.players[j].id);
    }
}

proof fn lemma_killed_unmoved(game: GameView, victim: PlayerId, killer: Option<PlayerId>)
    ensures
        unmoved(game, game.killed(victim, killer)),
{
    crate::game::lemma_index_of(game.players, victim);
    match crate::game::index_of(game.players, victim) {
        None => {
            lemma_kept_unmoved(game, game);
        },
        Some(i) => {
            let n = game.players.len();
            let at = game.players[i].position;
            let credited = game.kill_credited(killer);
            if let Some(id) = killer {
                crate::game::lemma_index_of(game.players, id);
            }
            assert forall|k: int| 0 <= k < n implies (#[trigger] credited.players[k]).id
                == game.players[k].id && credited.players[k].position == game.players[k].position
                && credited.players[k].alive == game.players[k].alive by {
            }
            let seen_by = crate::game::witnesses(credited.players, game.found_around(at), at);
            let msg = ServerMsgView::PlayerKilled { player_id: victim, killer_id: killer };
            crate::capture::lemma_sent_keeps(credited, seen_by, msg);
            lemma_sent_keeps_rest(credited, seen_by, msg);
            let told = credited.sent_to_each(seen_by, msg);
            assert(told.players[i].id == victim);
            crate::game::lemma_index_of(told.players, victim);
            let j = crate::game::index_of(told.players, victim).unwrap();
            let changed = told.without(victim).territories_changed();
            let others = crate::game::without_id(seen_by, victim);
            crate::capture::lemma_snapshots_keep(changed, others);
            lemma_snapshots_keep_rest(changed, others);
            let after = changed.snapshots_sent(others);
            assert forall|k: int| 0 <= k < after.players.len() implies was_there(
                #[trigger] after.players[k],
                game.players,
            ) by {
                let m = if k < j {
                    k
                } else {
                    k + 1
                };
                assert(changed.players[k] == told.players[m]);
                assert(credited.players[m].id == game.players[m].id);
                assert(game.players[m].id == after.players[k].id);
            }
        },
    }
}

proof fn lemma_all_killed_unmoved(game: GameView, victims: Seq<PlayerId>, killer: PlayerId)
    ensures
        unmoved(game, game.all_killed(victims, killer)),
    decreases victims.len(),
{
    if victims.len() == 0 {
        lemma_kept_unmoved(game, game);
    } else {
        lemma_all_killed_unmoved(game, victims.drop_last(), killer);
        let earlier = game.all_killed(victims.drop_last(), killer);
        lemma_killed_unmoved(earlier, victims.last(), Some(killer));
        lemma_unmoved_chain(game, earlier, earlier.killed(victims.last(), Some(killer)));
    }
}

proof fn lemma_kills_done_unmoved(game: GameView, kills: Seq<Kill>)
    ensures
        unmoved(game, game.kills_done(kills)),
    decreases kills.len(),
{
    if kills.len() == 0 {
        lemma_kept_unmoved(game, game);
    } else {
        lemma_kills_done_unmoved(game, kills.drop_last());
        let earlier = game.kills_done(kills.drop_last());
        let kill = kills.last();
        lemma_killed_unmoved(earlier, kill.victim, kill.killer);
        lemma_unmoved_chain(game, earlier, earlier.killed(kill.victim, kill.killer));
    }
}

proof fn lemma_captured_unmoved(game: GameView, id: PlayerId, outcome: CaptureOutcome)
    ensures
        unmoved(game, game.territory_captured(id, outcome)),
{
    crate::game::lemma_index_of(game.players, id);
    if crate::capture::area_captured(game, id) is None {
        lemma_kept_unmoved(game, game.trail_dropped(id));
    } else {
        let left = crate::game::shapes(outcome.left@);
        let i = crate::game::index_of(game.players, id).unwrap();
        let cut = GameView { players: crate::game::carved(game.players, left), ..game };
        let changed = cut.with_player(
            i,
            PlayerView { territory: outcome.territory@, ..cut.players[i] }.without_trail(),
        ).territories_changed();
        let conquered = game.conquered(id, outcome.territory@, left);
        if let Some(j) = crate::game::index_of(changed.players, id) {
            let at = changed.players[j].position;
            let ids = crate::game::ids_near_among(
                changed.players,
                changed.found_around(at),
                at,
                crate::game::far_sight(),
            );
            crate::capture::lemma_snapshots_keep(changed, ids);
            lemma_snapshots_keep_rest(changed, ids);
        }
        assert(crate::capture::same_but_seen(conquered, changed));
        assert forall|k: int| 0 <= k < game.players.len() implies (
        #[trigger] conquered.players[k]).id == game.players[k].id
            && conquered.players[k].position == game.players[k].position
            && conquered.players[k].alive == game.players[k].alive by {
            assert(changed.players[k].id == game.players[k].id);
        }
        lemma_kept_unmoved(game, conquered);
        let victims = crate::capture::stranded(
            game.players,
            id,
            outcome.in_capture@,
            outcome.in_new@,
            outcome.in_own@,
        );
        lemma_all_killed_unmoved(conquered, victims, id);
        lemma_unmoved_chain(game, conquered, conquered.all_killed(victims, id));
    }
}

/// Whether a player was among some and is where it was, but for the edge of the board.
pub open spec fn was_held(p: PlayerView, before: Seq<PlayerView>, radius: Float64) -> bool {
    exists|i: int|
        0 <= i < before.len() && (#[trigger] before[i]).id == p.id && p.position
            == before[i].held_within(radius).position
}

/// How a game stands since its players moved: until the end of the tick nobody is elsewhere, and
/// then everyone is where it was, but for the edge of the board.
pub open spec fn since_moved(moved: GameView, game: GameView, phase: PhaseView) -> bool {
    &&& game.board_radius == moved.board_radius
    &&& match phase {
        PhaseView::Place { olds } => unmoved(moved, game),
        PhaseView::Capture { captures, next, kills } => unmoved(moved, game),
        PhaseView::Done => forall|j: int|
            0 <= j < game.players.len() ==> was_held(
                #[trigger] game.players[j],
                moved.players,
                moved.board_radius,
            ),
        _ => false,
    }
}

proof fn lemma_settled_since_moved(
    moved: GameView,
    game: GameView,
    captures: Seq<PlayerId>,
    next: int,
    kills: Seq<Kill>,
)
    requires
        unmoved(moved, game),
    ensures
        ({
            let after = crate::update::settled(game, captures, next, kills);
            since_moved(moved, after.0, after.1)
        }),
{
    if next >= captures.len() {
        let done = game.kills_done(kills);
        let held = done.held_on_board();
        lemma_kills_done_unmoved(game, kills);
        lemma_unmoved_chain(moved, game, done);
        assert forall|j: int| 0 <= j < held.players.len() implies was_held(
            #[trigger] held.players[j],
            moved.players,
            moved.board_radius,
        ) by {
            let p = done.players[j];
            assert(was_there(p, moved.players));
            let i = choose|i: int|
                0 <= i < moved.players.len() && (#[trigger] moved.players[i]).id == p.id
                    && moved.players[i].position == p.position && moved.players[i].alive
                    == p.alive;
            assert(moved.players[i].id == held.players[j].id);
        }
    }
}

/// Once the players have moved, captures and kills leave them where they are. At the end of the
/// tick everyone who is still there is where it went, but for the edge of the board.
pub proof fn lemma_tick_ends_where_they_went(
    moved: GameView,
    olds: Seq<Option<Position>>,
    answers: Seq<Answer>,
    dt: Float64,
    now: u64,
)
    ensures
        ({
            let after = run(moved, PhaseView::Place { olds }, answers, dt, now);
            since_moved(moved, after.0, after.1)
        }),
    decreases answers.len(),
{
    if answers.len() == 0 {
        lemma_kept_unmoved(moved, moved);
    } else {
        lemma_tick_ends_where_they_went(moved, olds, answers.drop_last(), dt, now);
        let before = run(moved, PhaseView::Place { olds }, answers.drop_last(), dt, now);
        let game = before.0;
        match (before.1, answers.last()) {
            (PhaseView::Place { olds: from }, Answer::Inside(inside)) => {
                let placed = GameView {
                    players: crate::tick::all_placed(game.players, from, inside@),
                    ..game
                };
                lemma_kept_unmoved(game, placed);
                lemma_unmoved_chain(moved, game, placed);
                lemma_settled_since_moved(
                    moved,
                    placed,
                    crate::tick::returning(game.players, inside@),
                    0,
                    crate::tick::kills_made(placed.players, from, placed.players.len() as int),
                );
            },
            (PhaseView::Capture { captures, next, kills }, Answer::Outcome(outcome)) => {
                let captured = game.territory_captured(captures[next], outcome);
                lemma_captured_unmoved(game, captures[next], outcome);
                lemma_unmoved_chain(moved, game, captured);
                lemma_settled_since_moved(moved, captured, captures, next + 1, kills);
            },
            _ => {},
        }
    }
}

}
