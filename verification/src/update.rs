//! A tick step by step: between two steps, what only the surroundings can tell is found out.
use crate::capture::CaptureOutcome;
use crate::float64::Float64;
use crate::game::{Game, GameView};
use crate::protocol::{PlayerId, Position};
use crate::tick::{Kill, Motion};
use vstd::prelude::*;

verus! {

/// How far a tick has come, which says what is to be found out next.
pub enum Phase {
    /// The areas of all players.
    Begin,
    /// How all players move; the number of players below each, by area or by kills, makes it
    /// faster.
    Move { below: Vec<u64> },
    /// Which players are inside their territories.
    Place { olds: Vec<Option<Position>> },
    /// What comes of the next capture.
    Capture { captures: Vec<PlayerId>, next: usize, kills: Vec<Kill> },
    /// Nothing.
    Done,
}

/// The contents of a [`Phase`].
#[verifier::ext_equal]
pub enum PhaseView {
    Begin,
    Move { below: Seq<u64> },
    Place { olds: Seq<Option<Position>> },
    Capture { captures: Seq<PlayerId>, next: int, kills: Seq<Kill> },
    Done,
}

impl View for Phase {
    type V = PhaseView;

    open spec fn view(&self) -> PhaseView {
        match self {
            Phase::Begin => PhaseView::Begin,
            Phase::Move { below } => PhaseView::Move { below: below@ },
            Phase::Place { olds } => PhaseView::Place { olds: olds@ },
            Phase::Capture { captures, next, kills } => PhaseView::Capture {
                captures: captures@,
                next: *next as int,
                kills: kills@,
            },
            Phase::Done => PhaseView::Done,
        }
    }
}

/// What was found out.
pub enum Answer {
    Areas(Vec<Float64>),
    Motions(Vec<Motion>),
    Inside(Vec<bool>),
    Outcome(CaptureOutcome),
}

/// The numbers of players below each player, by area or by kills.
pub open spec fn all_below(game: GameView, areas: Seq<Float64>) -> Seq<u64> {
    Seq::new(
        game.players.len(),
        |i: int| crate::ranking::below(game.players, areas, i) as u64,
    )
}

/// On to the next capture, or to the end of the tick.
pub open spec fn settled(
    game: GameView,
    captures: Seq<PlayerId>,
    next: int,
    kills: Seq<Kill>,
) -> (GameView, PhaseView) {
    if next < captures.len() {
        (game, PhaseView::Capture { captures, next, kills })
    } else {
        (game.kills_done(kills).held_on_board(), PhaseView::Done)
    }
}

/// One step of a tick. Kills are seen before captures change anything, and done after them.
pub open spec fn updated(
    game: GameView,
    phase: PhaseView,
    answer: Answer,
    dt: Float64,
    now: u64,
) -> (GameView, PhaseView) {
    match (phase, answer) {
        (PhaseView::Begin, Answer::Areas(areas)) => (
            game.begun(),
            PhaseView::Move { below: all_below(game, areas@) },
        ),
        (PhaseView::Move { below }, Answer::Motions(motions)) => (
            GameView {
                players: crate::tick::all_moved(game.players, motions@, dt, now),
                ..game
            },
            PhaseView::Place { olds: crate::tick::all_left_from(game.players) },
        ),
        (PhaseView::Place { olds }, Answer::Inside(inside)) => {
            let placed = GameView {
                players: crate::tick::all_placed(game.players, olds, inside@),
                ..game
            };
            settled(
                placed,
                crate::tick::returning(game.players, inside@),
                0,
                crate::tick::kills_made(placed.players, olds, placed.players.len() as int),
            )
        },
        (PhaseView::Capture { captures, next, kills }, Answer::Outcome(outcome)) => settled(
            game.territory_captured(captures[next], outcome),
            captures,
            next + 1,
            kills,
        ),
        _ => (game, phase),
    }
}

/// Whether a game is at some phase of a tick, with room to go on.
pub open spec fn at_phase(game: GameView, phase: PhaseView) -> bool {
    let n = game.players.len();
    match phase {
        PhaseView::Begin => crate::tick::ready(game),
        PhaseView::Move { below } => below.len() == n && crate::capture::has_room_for(
            game,
            n as int,
        ),
        PhaseView::Place { olds } => olds.len() == n && crate::capture::has_room_for(
            game,
            n as int,
        ),
        PhaseView::Capture { captures, next, kills } => {
            &&& 0 <= next < captures.len()
            &&& crate::capture::has_room_for(game, captures.len() - next)
        },
        PhaseView::Done => true,
    }
}

/// Whether an answer says something of each player.
pub open spec fn covers(game: GameView, phase: PhaseView, answer: Answer) -> bool {
    let n = game.players.len();
    match answer {
        Answer::Areas(areas) => areas@.len() == n,
        Answer::Motions(motions) => motions@.len() == n,
        Answer::Inside(inside) => inside@.len() == n,
        Answer::Outcome(outcome) => phase matches PhaseView::Capture { captures, next, kills }
            ==> crate::capture::area_captured(game, captures[next]) is Some ==> outcome.covers(n),
    }
}

impl Game {
    /// On to the next capture, or to the end of the tick.
    fn settle(&mut self, captures: Vec<PlayerId>, next: usize, kills: Vec<Kill>) -> (r: Phase)
        requires
            next <= captures@.len(),
            crate::capture::has_room_for(old(self)@, captures@.len() - next),
        ensures
            (final(self)@, r@) == settled(old(self)@, captures@, next as int, kills@),
            at_phase(final(self)@, r@),
    {
        if next < captures.len() {
            Phase::Capture { captures, next, kills }
        } else {
            self.end_update(&kills);
            Phase::Done
        }
    }

    /// Do one step of a tick of length `dt`.
    pub fn update(&mut self, phase: Phase, answer: Answer, dt: Float64, now: u64) -> (r: Phase)
        requires
            at_phase(old(self)@, phase@),
            covers(old(self)@, phase@, answer),
        ensures
            (final(self)@, r@) == updated(old(self)@, phase@, answer, dt, now),
            at_phase(final(self)@, r@),
    {
        match (phase, answer) {
            (Phase::Begin, Answer::Areas(areas)) => {
                let below = self.begin_update(&areas);
                proof {
                    assert(below@ =~= all_below(old(self)@, areas@));
                }
                Phase::Move { below }
            },
            (Phase::Move { below }, Answer::Motions(motions)) => {
                let olds = self.move_players(&motions, dt, now);
                proof {
                    assert forall|i: int| 0 <= i < self@.players.len() implies (
                    #[trigger] self@.players[i]).kill_count == old(self)@.players[i].kill_count by {
                    }
                }
                Phase::Place { olds }
            },
            (Phase::Place { olds }, Answer::Inside(inside)) => {
                let captures = self.place_players(&olds, &inside);
                proof {
                    crate::tick::lemma_returning_few(old(self)@.players, inside@);
                    assert(self.players@.len() == self@.players.len());
                    assert forall|i: int| 0 <= i < self@.players.len() implies (
                    #[trigger] self@.players[i]).kill_count == old(self)@.players[i].kill_count by {
                    }
                }
                let kills = self.detect_kills(&olds);
                self.settle(captures, 0, kills)
            },
            (Phase::Capture { captures, next, kills }, Answer::Outcome(outcome)) => {
                self.capture_territory(captures[next], outcome);
                proof {
                    assert(captures.len() == captures@.len());
                }
                self.settle(captures, next + 1, kills)
            },
            (phase, _) => phase,
        }
    }
}

}
