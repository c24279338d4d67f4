//! What a whole tick does, and in which order.
use crate::float64::Float64;
use crate::game::GameView;
use crate::player::PlayerView;
use crate::protocol::{PlayerId, Position};
use crate::tick::Kill;
use crate::update::{Answer, PhaseView};
use vstd::prelude::*;

verus! {

/// Whether a player of a list comes back with a trail.
spec fn any_back(players: Seq<PlayerView>, inside: Seq<bool>, n: int) -> bool {
    exists|i: int| 0 <= i < n && (#[trigger] players[i]).comes_back(inside[i])
}

proof fn lemma_returning(players: Seq<PlayerView>, inside: Seq<bool>, n: int)
    requires
        0 <= n <= players.len(),
    ensures
        (crate::tick::returning(players.take(n), inside).len() == 0) == !any_back(
            players,
            inside,
            n,
        ),
    decreases n,
{
    if n > 0 {
        lemma_returning(players, inside, n - 1);
        assert(players.take(n).drop_last() =~= players.take(n - 1));
        if any_back(players, inside, n - 1) {
            let i = choose|i: int| 0 <= i < n - 1 && (#[trigger] players[i]).comes_back(inside[i]);
            assert(any_back(players, inside, n));
        }
        assert(players.take(n)[n - 1] == players[n - 1]);
    }
}

/// Where a player is before it moves, if it is one who does.
pub open spec fn start_of(p: PlayerView) -> Option<Position> {
    if p.alive && !p.angle.nan() {
        Some(p.position)
    } else {
        None
    }
}

/// A tick first begins, then moves each player, then places it on its own ground or off it, from
/// where it was before. The kills are those seen just then. Where nobody comes back they are done
/// at once and all are held on the board; else the captures come first.
pub proof fn lemma_tick_in_order(
    game: GameView,
    areas: Vec<Float64>,
    motions: Vec<crate::tick::Motion>,
    inside: Vec<bool>,
    dt: Float64,
    now: u64,
)
    requires
        motions@.len() == game.players.len(),
        inside@.len() == game.players.len(),
    ensures
        ({
            let n = game.players.len();
            let begun = game.begun();
            let olds = Seq::new(n, |i: int| start_of(game.players[i]));
            let moved = Seq::new(n, |i: int| game.players[i].moved(motions@[i], dt, now));
            let placed = Seq::new(n, |i: int| moved[i].placed(olds[i], inside@[i]));
            let kills = crate::tick::kills_made(placed, olds, n as int);
            let there = GameView { players: placed, ..begun };
            let after = crate::course::run(
                game,
                PhaseView::Begin,
                seq![Answer::Areas(areas), Answer::Motions(motions), Answer::Inside(inside)],
                dt,
                now,
            );
            if exists|i: int| 0 <= i < n && (#[trigger] moved[i]).comes_back(inside@[i]) {
                &&& after.0 == there
                &&& after.1 matches PhaseView::Capture { captures, next, kills: seen } && next == 0
                    && seen == kills && captures.len() > 0
            } else {
                after == (there.kills_done(kills).held_on_board(), PhaseView::Done)
            }
        }),
{
    let n = game.players.len();
    let begun = game.begun();
    let olds = Seq::new(n, |i: int| start_of(game.players[i]));
    let moved = Seq::new(n, |i: int| game.players[i].moved(motions@[i], dt, now));
    let placed = Seq::new(n, |i: int| moved[i].placed(olds[i], inside@[i]));
    let one = seq![Answer::Areas(areas)];
    let two = one.push(Answer::Motions(motions));
    let three = two.push(Answer::Inside(inside));
    assert(seq![Answer::Areas(areas), Answer::Motions(motions), Answer::Inside(inside)] =~= three);
    assert(one.drop_last() =~= Seq::<Answer>::empty());
    assert(two.drop_last() =~= one);
    assert(three.drop_last() =~= two);
    let first = crate::course::run(game, PhaseView::Begin, one, dt, now);
    assert(crate::course::run(game, PhaseView::Begin, one.drop_last(), dt, now) == (
        game,
        PhaseView::Begin,
    ));
    assert(first.0 == begun);
    assert(begun.players == game.players);
    let second = crate::course::run(game, PhaseView::Begin, two, dt, now);
    assert(crate::tick::all_moved(begun.players, motions@, dt, now) =~= moved);
    assert(crate::tick::all_left_from(begun.players) =~= olds);
    assert(second.0 == (GameView { players: moved, ..begun }));
    assert(second.1 == PhaseView::Place { olds });
    assert(crate::tick::all_placed(moved, olds, inside@) =~= placed);
    lemma_returning(moved, inside@, n as int);
    assert(moved.take(n as int) =~= moved);
}

/// A game after some captures in turn.
pub open spec fn after_captures(
    game: GameView,
    captures: Seq<PlayerId>,
    next: int,
    answers: Seq<Answer>,
) -> GameView
    decreases answers.len(),
{
    if answers.len() == 0 {
        game
    } else {
        match answers.last() {
            Answer::Outcome(outcome) => after_captures(
                game,
                captures,
                next,
                answers.drop_last(),
            ).territory_captured(captures[next + answers.len() - 1], outcome),
            _ => game,
        }
    }
}

/// Each capture of a tick is done once, in turn, and only after the last of them the kills, which
/// were seen before, and then all are held on the board.
pub proof fn lemma_captures_in_turn(
    game: GameView,
    captures: Seq<PlayerId>,
    next: int,
    kills: Seq<Kill>,
    answers: Seq<Answer>,
    dt: Float64,
    now: u64,
)
    requires
        0 <= next < captures.len(),
        answers.len() <= captures.len() - next,
        forall|k: int| 0 <= k < answers.len() ==> (#[trigger] answers[k]) is Outcome,
    ensures
        ({
            let after = crate::course::run(
                game,
                PhaseView::Capture { captures, next, kills },
                answers,
                dt,
                now,
            );
            let done = after_captures(game, captures, next, answers);
            if next + answers.len() < captures.len() {
                after == (
                    done,
                    PhaseView::Capture { captures, next: next + answers.len(), kills },
                )
            } else {
                after == (done.kills_done(kills).held_on_board(), PhaseView::Done)
            }
        }),
    decreases answers.len(),
{
    if answers.len() > 0 {
        let rest = answers.drop_last();
        assert forall|k: int| 0 <= k < rest.len() implies (#[trigger] rest[k]) is Outcome by {
            assert(rest[k] == answers[k]);
        }
        lemma_captures_in_turn(game, captures, next, kills, rest, dt, now);
        assert(answers[answers.len() - 1] is Outcome);
    }
}

}
