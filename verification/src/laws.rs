//! What holds of every game, whatever its players do.
use crate::capture::CaptureOutcome;
use crate::float64::Float64;
use crate::game::{GameEvent, GameView, LEAST_BOARD_RADIUS, MOST_BOOST_POINTS, NAME_LENGTH};
use crate::player::PlayerView;
use crate::protocol::{ClientMsgView, PlayerId, Position, ServerMsgView};
use crate::tick::Kill;
use crate::update::{Answer, PhaseView};
use vstd::prelude::*;

verus! {

/// Whether a player is as players are while those in `pending` wait for their captures: it lives,
/// its id is none below one, its name is short or the first that it had, it has no more boost
/// points than it may, was sent no territories that are yet to come, has no box around a trail that
/// it has not, and has a trail only outside its territory or while it waits.
pub open spec fn sound(p: PlayerView, version: u64, pending: Seq<PlayerId>) -> bool {
    &&& p.alive
    &&& p.id >= 1
    &&& p.name.len() <= NAME_LENGTH || p.name == crate::text::first_name(p.id)
    &&& p.boost_points <= MOST_BOOST_POINTS
    &&& p.last_territory_version <= version
    &&& p.trail_aabb is Some ==> p.trail.len() > 0
    &&& p.in_territory && p.trail.len() > 0 ==> pending.contains(p.id)
}

/// Whether ids go up along a list of players, and stay below a limit.
pub open spec fn in_order(players: Seq<PlayerView>, limit: PlayerId) -> bool {
    &&& forall|i: int, j: int|
        0 <= i < j < players.len() ==> (#[trigger] players[i]).id < (#[trigger] players[j]).id
    &&& forall|i: int| 0 <= i < players.len() ==> (#[trigger] players[i]).id < limit
}

/// Whether a game is as games are: its ids go up, each player is as players are, and the radius of
/// the board is one that a board can have.
pub open spec fn valid(game: GameView, pending: Seq<PlayerId>) -> bool {
    &&& game.next_id >= 1
    &&& in_order(game.players, game.next_id)
    &&& forall|i: int|
        0 <= i < game.players.len() ==> sound(
            #[trigger] game.players[i],
            game.territory_version,
            pending,
        )
    &&& crate::board::within_limits(game.board_radius)
}

proof fn lemma_with_player_valid(game: GameView, i: int, p: PlayerView, pending: Seq<PlayerId>)
    requires
        valid(game, pending),
        0 <= i < game.players.len(),
        p.id == game.players[i].id,
        sound(p, game.territory_version, pending),
    ensures
        valid(game.with_player(i, p), pending),
{
    let after = game.with_player(i, p);
    assert forall|j: int, k: int| 0 <= j < k < after.players.len() implies (
    #[trigger] after.players[j]).id < (#[trigger] after.players[k]).id by {
        assert(game.players[j].id < game.players[k].id);
    }
    assert forall|j: int| 0 <= j < after.players.len() implies (#[trigger] after.players[j]).id
        < after.next_id by {
        assert(game.players[j].id < game.next_id);
    }
    assert forall|j: int| 0 <= j < after.players.len() implies sound(
        #[trigger] after.players[j],
        after.territory_version,
        pending,
    ) by {
        assert(sound(game.players[j], game.territory_version, pending));
    }
}

proof fn lemma_snapshot_valid(game: GameView, id: PlayerId, pending: Seq<PlayerId>)
    requires
        valid(game, pending),
    ensures
        valid(game.snapshot_sent(id), pending),
        game.snapshot_sent(id).territory_version == game.territory_version,
        game.snapshot_sent(id).next_id == game.next_id,
{
    crate::game::lemma_index_of(game.players, id);
    if let Some(i) = crate::game::index_of(game.players, id) {
        let p = game.players[i];
        if p.last_territory_version != game.territory_version {
            let told = game.sent(
                id,
                ServerMsgView::TerritorySnapshot(
                    crate::game::rings_in_sight(game.players, p.position),
                ),
            );
            assert(valid(told, pending));
            lemma_with_player_valid(
                told,
                i,
                PlayerView { last_territory_version: game.territory_version, ..p },
                pending,
            );
        }
    }
}

proof fn lemma_snapshots_valid(game: GameView, ids: Seq<PlayerId>, pending: Seq<PlayerId>)
    requires
        valid(game, pending),
    ensures
        valid(game.snapshots_sent(ids), pending),
        game.snapshots_sent(ids).territory_version == game.territory_version,
        game.snapshots_sent(ids).next_id == game.next_id,
    decreases ids.len(),
{
    if ids.len() > 0 {
        lemma_snapshots_valid(game, ids.drop_last(), pending);
        lemma_snapshot_valid(game.snapshots_sent(ids.drop_last()), ids.last(), pending);
    }
}

proof fn lemma_told_around_valid(game: GameView, id: PlayerId, pending: Seq<PlayerId>)
    requires
        valid(game, pending),
    ensures
        valid(game.told_around(id), pending),
        game.told_around(id).territory_version == game.territory_version,
        game.told_around(id).next_id == game.next_id,
{
    if let Some(i) = crate::game::index_of(game.players, id) {
        let at = game.players[i].position;
        lemma_snapshots_valid(
            game,
            crate::game::ids_near_among(
                game.players,
                game.found_around(at),
                at,
                crate::game::far_sight(),
            ),
            pending,
        );
    }
}

proof fn lemma_sent_to_each_valid(
    game: GameView,
    ids: Seq<PlayerId>,
    msg: ServerMsgView,
    pending: Seq<PlayerId>,
)
    requires
        valid(game, pending),
    ensures
        valid(game.sent_to_each(ids, msg), pending),
        game.sent_to_each(ids, msg).players == game.players,
        game.sent_to_each(ids, msg).territory_version == game.territory_version,
        game.sent_to_each(ids, msg).next_id == game.next_id,
    decreases ids.len(),
{
    if ids.len() > 0 {
        lemma_sent_to_each_valid(game, ids.drop_last(), msg, pending);
    }
}

proof fn lemma_without_valid(game: GameView, id: PlayerId, pending: Seq<PlayerId>)
    requires
        valid(game, pending),
    ensures
        valid(game.without(id), pending),
        crate::game::index_of(game.without(id).players, id) is None,
{
    crate::game::lemma_index_of(game.players, id);
    let after = game.without(id);
    if let Some(i) = crate::game::index_of(game.players, id) {
        assert forall|j: int| 0 <= j < after.players.len() implies #[trigger] after.players[j]
            == game.players[if j < i {
            j
        } else {
            j + 1
        }] by {
        }
        assert(in_order(after.players, after.next_id)) by {
            assert forall|j: int, k: int| 0 <= j < k < after.players.len() implies (
            #[trigger] after.players[j]).id < (#[trigger] after.players[k]).id by {
                let a = if j < i {
                    j
                } else {
                    j + 1
                };
                let b = if k < i {
                    k
                } else {
                    k + 1
                };
                assert(game.players[a].id < game.players[b].id);
            }
        }
        crate::game::lemma_index_of(after.players, id);
        if let Some(j) = crate::game::index_of(after.players, id) {
            let a = if j < i {
                j
            } else {
                j + 1
            };
            assert(after.players[j] == game.players[a]);
            if a < i {
                assert(game.players[a].id < game.players[i].id);
            } else {
                assert(game.players[i].id < game.players[a].id);
            }
        }
    }
}

/// A change of the territories keeps a game valid.
proof fn lemma_changed_valid(game: GameView, pending: Seq<PlayerId>)
    requires
        valid(game, pending),
        game.territory_version < u64::MAX,
    ensures
        valid(game.territories_changed(), pending),
{
    let after = game.territories_changed();
    assert forall|i: int| 0 <= i < after.players.len() implies sound(
        #[trigger] after.players[i],
        after.territory_version,
        pending,
    ) by {
        assert(sound(game.players[i], game.territory_version, pending));
    }
}

proof fn lemma_snapshots_same_ids(game: GameView, ids: Seq<PlayerId>, id: PlayerId)
    ensures
        crate::game::index_of(game.snapshots_sent(ids).players, id) == crate::game::index_of(
            game.players,
            id,
        ),
{
    crate::capture::lemma_snapshots_keep(game, ids);
    lemma_same_ids(game.snapshots_sent(ids).players, game.players, id);
}

proof fn lemma_same_ids(a: Seq<PlayerView>, b: Seq<PlayerView>, id: PlayerId)
    requires
        a.len() == b.len(),
        forall|i: int| 0 <= i < a.len() ==> (#[trigger] a[i]).id == b[i].id,
    ensures
        crate::game::index_of(a, id) == crate::game::index_of(b, id),
    decreases a.len(),
{
    if a.len() > 0 {
        let n = a.len() - 1;
        assert(a[n].id == b[n].id);
        assert forall|i: int| 0 <= i < n implies (#[trigger] a.drop_last()[i]).id
            == b.drop_last()[i].id by {
            assert(a[i].id == b[i].id);
        }
        lemma_same_ids(a.drop_last(), b.drop_last(), id);
    }
}

/// A kill keeps a game valid, and the victim is no longer in it.
pub proof fn lemma_killed_is_gone(
    game: GameView,
    victim: PlayerId,
    killer: Option<PlayerId>,
    pending: Seq<PlayerId>,
)
    requires
        valid(game, pending),
        crate::game::index_of(game.players, victim) is Some ==> game.territory_version < u64::MAX,
    ensures
        valid(game.killed(victim, killer), pending),
        crate::game::index_of(game.killed(victim, killer).players, victim) is None,
        game.killed(victim, killer).next_id == game.next_id,
{
    crate::game::lemma_index_of(game.players, victim);
    if let Some(i) = crate::game::index_of(game.players, victim) {
        let at = game.players[i].position;
        let credited = game.kill_credited(killer);
        if let Some(id) = killer {
            crate::game::lemma_index_of(game.players, id);
            if let Some(k) = crate::game::index_of(game.players, id) {
                lemma_with_player_valid(game, k, game.players[k].credited(), pending);
            }
        }
        let seen_by = crate::game::witnesses(credited.players, game.found_around(at), at);
        let msg = ServerMsgView::PlayerKilled { player_id: victim, killer_id: killer };
        lemma_sent_to_each_valid(credited, seen_by, msg, pending);
        let told = credited.sent_to_each(seen_by, msg);
        lemma_without_valid(told, victim, pending);
        let gone = told.without(victim);
        lemma_changed_valid(gone, pending);
        let changed = gone.territories_changed();
        let others = crate::game::without_id(seen_by, victim);
        lemma_snapshots_valid(changed, others, pending);
        lemma_snapshots_same_ids(changed, others, victim);
    }
}

/// Joining, leaving and playing keep a game valid.
pub proof fn lemma_handled_valid(game: GameView, event: GameEvent, now: u64)
    requires
        valid(game, Seq::empty()),
        crate::game::can_handle(game, event, now),
    ensures
        valid(crate::game::handled(game, event, now), Seq::empty()),
{
    let none = Seq::<PlayerId>::empty();
    match event {
        GameEvent::Connect { position, left, areas } => {
            let shapes = crate::game::shapes(left@);
            let joined = game.joined(position, shapes);
            let id = game.next_id;
            assert forall|i: int| 0 <= i < joined.players.len() implies sound(
                #[trigger] joined.players[i],
                joined.territory_version,
                none,
            ) && joined.players[i].id == (if i < game.players.len() {
                game.players[i].id
            } else {
                id
            }) by {
                if i < game.players.len() {
                    assert(sound(game.players[i], game.territory_version, none));
                }
            }
            assert(valid(joined, none));
            let welcomed = joined.sent(
                id,
                ServerMsgView::Welcome {
                    player_id: id,
                    position,
                    angle: Float64 { bits: crate::game::STOPPED },
                    color: crate::game::color_of(id),
                },
            );
            lemma_snapshot_valid(welcomed, id, none);
            lemma_told_around_valid(welcomed.snapshot_sent(id), id, none);
        },
        GameEvent::Disconnect { player_id } => {
            lemma_without_valid(game, player_id, none);
            lemma_changed_valid(game.without(player_id), none);
            let gone = game.without(player_id).territories_changed();
            if let Some(i) = crate::game::index_of(game.players, player_id) {
                lemma_snapshots_valid(
                    gone,
                    crate::game::ids_near(
                        gone.players,
                        game.players[i].position,
                        crate::game::far_sight(),
                    ),
                    none,
                );
            }
        },
        GameEvent::Input { player_id, msg } => {
            crate::game::lemma_index_of(game.players, player_id);
            if let Some(i) = crate::game::index_of(game.players, player_id) {
                let after = crate::game::handled(game, event, now);
                assert(sound(game.players[i], game.territory_version, none));
                if !(msg@ is Ping) {
                    lemma_with_player_valid(game, i, after.players[i], none);
                }
            }
        },
    }
}

/// The kills of a tick keep a game valid.
pub proof fn lemma_kills_done_valid(game: GameView, kills: Seq<Kill>)
    requires
        valid(game, Seq::empty()),
        crate::capture::has_room_for(game, 0),
    ensures
        valid(game.kills_done(kills), Seq::empty()),
        crate::capture::has_room_for(game.kills_done(kills), 0),
    decreases kills.len(),
{
    if kills.len() > 0 {
        lemma_kills_done_valid(game, kills.drop_last());
        let earlier = game.kills_done(kills.drop_last());
        let kill = kills.last();
        crate::game::lemma_index_of(earlier.players, kill.victim);
        crate::capture::lemma_killed_leaves_room(earlier, kill.victim, kill.killer, 0);
        lemma_killed_is_gone(earlier, kill.victim, kill.killer, Seq::empty());
    }
}

proof fn lemma_settled_valid(
    game: GameView,
    captures: Seq<PlayerId>,
    next: int,
    kills: Seq<Kill>,
)
    requires
        0 <= next <= captures.len(),
        valid(game, captures.skip(next)),
        crate::capture::has_room_for(game, captures.len() - next),
    ensures
        ({
            let after = crate::update::settled(game, captures, next, kills);
            valid(after.0, waiting(after.1))
        }),
{
    if next == captures.len() {
        let none = Seq::<PlayerId>::empty();
        assert(captures.skip(next) =~= none);
        lemma_kills_done_valid(game, kills);
        let done = game.kills_done(kills);
        let held = done.held_on_board();
        assert forall|i: int| 0 <= i < held.players.len() implies sound(
            #[trigger] held.players[i],
            held.territory_version,
            none,
        ) && held.players[i].id == done.players[i].id by {
            assert(sound(done.players[i], done.territory_version, none));
        }
    }
}

/// Who waits for a capture at a phase of a tick.
pub open spec fn waiting(phase: PhaseView) -> Seq<PlayerId> {
    match phase {
        PhaseView::Capture { captures, next, kills } => captures.skip(next),
        _ => Seq::empty(),
    }
}

proof fn lemma_returning_holds(players: Seq<PlayerView>, inside: Seq<bool>, i: int)
    requires
        0 <= i < players.len(),
        players[i].comes_back(inside[i]),
    ensures
        crate::tick::returning(players, inside).contains(players[i].id),
    decreases players.len(),
{
    let n = players.len() - 1;
    let all = crate::tick::returning(players, inside);
    let earlier = crate::tick::returning(players.drop_last(), inside);
    if i < n {
        lemma_returning_holds(players.drop_last(), inside, i);
        let k = choose|k: int| 0 <= k < earlier.len() && earlier[k] == players[i].id;
        assert(all[k] == players[i].id);
    } else {
        assert(all[all.len() - 1] == players[i].id);
    }
}

proof fn lemma_all_killed_valid(
    game: GameView,
    victims: Seq<PlayerId>,
    killer: PlayerId,
    pending: Seq<PlayerId>,
)
    requires
        valid(game, pending),
        crate::capture::has_room_for(game, 0),
    ensures
        valid(game.all_killed(victims, killer), pending),
        crate::capture::has_room_for(game.all_killed(victims, killer), 0),
    decreases victims.len(),
{
    if victims.len() > 0 {
        lemma_all_killed_valid(game, victims.drop_last(), killer, pending);
        let earlier = game.all_killed(victims.drop_last(), killer);
        crate::game::lemma_index_of(earlier.players, victims.last());
        crate::capture::lemma_killed_leaves_room(earlier, victims.last(), Some(killer), 0);
        lemma_killed_is_gone(earlier, victims.last(), Some(killer), pending);
    }
}

proof fn lemma_captured_valid(
    game: GameView,
    id: PlayerId,
    outcome: CaptureOutcome,
    pending: Seq<PlayerId>,
)
    requires
        pending.len() > 0,
        pending[0] == id,
        valid(game, pending),
        crate::capture::has_room_for(game, 1),
    ensures
        valid(game.territory_captured(id, outcome), pending.skip(1)),
{
    let rest = pending.skip(1);
    crate::game::lemma_index_of(game.players, id);
    assert forall|p: PlayerView, version: u64|
        #![trigger sound(p, version, pending)]
        sound(p, version, pending) && p.id != id implies sound(p, version, rest) by {
        if pending.contains(p.id) {
            let k = choose|k: int| 0 <= k < pending.len() && pending[k] == p.id;
            assert(rest[k - 1] == p.id);
        }
    }
    match crate::game::index_of(game.players, id) {
        None => {
            assert forall|j: int| 0 <= j < game.players.len() implies sound(
                #[trigger] game.players[j],
                game.territory_version,
                rest,
            ) by {
                assert(game.players[j].id != id);
                assert(sound(game.players[j], game.territory_version, pending));
            }
        },
        Some(i) => {
            if crate::capture::area_captured(game, id) is None {
                let after = game.trail_dropped(id);
                assert forall|j: int| 0 <= j < after.players.len() implies sound(
                    #[trigger] after.players[j],
                    after.territory_version,
                    rest,
                ) && after.players[j].id == game.players[j].id by {
                    assert(sound(game.players[j], game.territory_version, pending));
                    if j != i {
                        assert(game.players[j].id != id) by {
                            if j < i {
                                assert(game.players[j].id < game.players[i].id);
                            } else {
                                assert(game.players[i].id < game.players[j].id);
                            }
                        }
                    }
                }
            } else {
                let territory = outcome.territory@;
                let left = crate::game::shapes(outcome.left@);
                let cut = GameView { players: crate::game::carved(game.players, left), ..game };
                let changed = cut.with_player(
                    i,
                    PlayerView { territory, ..cut.players[i] }.without_trail(),
                ).territories_changed();
                assert forall|j: int| 0 <= j < changed.players.len() implies sound(
                    #[trigger] changed.players[j],
                    changed.territory_version,
                    rest,
                ) && changed.players[j].id == game.players[j].id by {
                    assert(sound(game.players[j], game.territory_version, pending));
                    if j != i {
                        assert(game.players[j].id != id) by {
                            if j < i {
                                assert(game.players[j].id < game.players[i].id);
                            } else {
                                assert(game.players[i].id < game.players[j].id);
                            }
                        }
                        assert(sound(game.players[j], game.territory_version, rest));
                    }
                }
                assert(valid(changed, rest));
                lemma_told_around_valid(changed, id, rest);
                let conquered = game.conquered(id, territory, left);
                crate::capture::lemma_conquered_leaves_room(game, id, territory, left, 0);
                lemma_all_killed_valid(
                    conquered,
                    crate::capture::stranded(
                        game.players,
                        id,
                        outcome.in_capture@,
                        outcome.in_new@,
                        outcome.in_own@,
                    ),
                    id,
                    rest,
                );
            }
        },
    }
}

/// Every step of a tick keeps a game valid. At its end, as at its start, nobody inside its
/// territory has a trail.
pub proof fn lemma_updated_valid(
    game: GameView,
    phase: PhaseView,
    answer: Answer,
    dt: Float64,
    now: u64,
)
    requires
        valid(game, waiting(phase)),
        crate::update::at_phase(game, phase),
        crate::update::covers(game, phase, answer),
    ensures
        ({
            let after = crate::update::updated(game, phase, answer, dt, now);
            valid(after.0, waiting(after.1))
        }),
{
    let none = Seq::<PlayerId>::empty();
    let after = crate::update::updated(game, phase, answer, dt, now);
    match (phase, answer) {
        (PhaseView::Begin, Answer::Areas(areas)) => {
            crate::board::lemma_board_within_limits(game);
        },
        (PhaseView::Move { below }, Answer::Motions(motions)) => {
            assert forall|i: int| 0 <= i < after.0.players.len() implies sound(
                #[trigger] after.0.players[i],
                game.territory_version,
                none,
            ) && after.0.players[i].id == game.players[i].id by {
                assert(sound(game.players[i], game.territory_version, none));
            }
        },
        (PhaseView::Place { olds }, Answer::Inside(inside)) => {
            let placed = GameView {
                players: crate::tick::all_placed(game.players, olds, inside@),
                ..game
            };
            let captures = crate::tick::returning(game.players, inside@);
            assert forall|i: int| 0 <= i < placed.players.len() implies sound(
                #[trigger] placed.players[i],
                game.territory_version,
                captures,
            ) && placed.players[i].id == game.players[i].id by {
                assert(sound(game.players[i], game.territory_version, none));
                if game.players[i].comes_back(inside@[i]) {
                    lemma_returning_holds(game.players, inside@, i);
                }
            }
            assert(captures.skip(0) =~= captures);
            crate::tick::lemma_returning_few(game.players, inside@);
            assert(crate::capture::has_room_for(placed, captures.len() as int)) by {
                assert forall|i: int| 0 <= i < placed.players.len() implies (
                #[trigger] placed.players[i]).kill_count == game.players[i].kill_count by {
                }
            }
            lemma_settled_valid(
                placed,
                captures,
                0,
                crate::tick::kills_made(placed.players, olds, placed.players.len() as int),
            );
        },
        (PhaseView::Capture { captures, next, kills }, Answer::Outcome(outcome)) => {
            let captured = game.territory_captured(captures[next], outcome);
            lemma_captured_valid(game, captures[next], outcome, captures.skip(next));
            assert(captures.skip(next).skip(1) =~= captures.skip(next + 1));
            crate::capture::lemma_captured_leaves_room(
                game,
                captures[next],
                outcome,
                captures.len() - next - 1,
            );
            lemma_settled_valid(captured, captures, next + 1, kills);
        },
        _ => {},
    }
}

/// To tell the players what they see keeps a game valid.
pub proof fn lemma_broadcasted_valid(game: GameView, areas: Seq<Float64>, now: u64)
    requires
        valid(game, Seq::empty()),
    ensures
        valid(game.broadcasted(areas, now), Seq::empty()),
{
    lemma_viewers_told_valid(
        game,
        crate::broadcast::viewers(game.players),
        crate::ranking::first_by_area(game.players, areas),
        game.tick_count % crate::broadcast::TERRITORY_INTERVAL == 0,
        now,
    );
}

proof fn lemma_viewers_told_valid(
    game: GameView,
    to: Seq<(PlayerId, Position)>,
    crown: Option<PlayerId>,
    territories: bool,
    now: u64,
)
    requires
        valid(game, Seq::empty()),
    ensures
        valid(game.viewers_told(to, crown, territories, now), Seq::empty()),
    decreases to.len(),
{
    if to.len() > 0 {
        lemma_viewers_told_valid(game, to.drop_last(), crown, territories, now);
        let earlier = game.viewers_told(to.drop_last(), crown, territories, now);
        let told = earlier.viewer_told(to.last(), crown, false, now);
        assert(valid(told, Seq::empty()));
        lemma_snapshot_valid(told, to.last().0, Seq::empty());
    }
}

/// A new game is valid.
pub proof fn lemma_new_game_valid(game: GameView)
    requires
        game.players.len() == 0,
        game.next_id >= 1,
        game.board_radius == (Float64 { bits: LEAST_BOARD_RADIUS }),
    ensures
        valid(game, Seq::empty()),
{
    crate::board::lemma_new_board_within_limits();
}

/// Territories that a player has seen are not sent again: a second snapshot changes nothing.
pub proof fn lemma_snapshot_sent_once(game: GameView, id: PlayerId)
    ensures
        game.snapshot_sent(id).snapshot_sent(id) == game.snapshot_sent(id),
{
    let after = game.snapshot_sent(id);
    crate::game::lemma_index_of(game.players, id);
    if let Some(i) = crate::game::index_of(game.players, id) {
        assert forall|k: int| 0 <= k < after.players.len() implies (#[trigger] after.players[k]).id
            == game.players[k].id by {
        }
        lemma_same_ids(after.players, game.players, id);
    }
}

/// A name that a player chose has no more characters than a name may have.
pub proof fn lemma_chosen_name_short(
    game: GameView,
    id: PlayerId,
    name: Seq<char>,
    now: u64,
    i: int,
)
    requires
        crate::game::index_of(game.players, id) == Some(i),
    ensures
        game.told(id, ClientMsgView::SetName(name), now).players[i].name.len() <= NAME_LENGTH,
        game.told(id, ClientMsgView::SetName(name), now).players[i].name.is_prefix_of(name),
{
    crate::game::lemma_index_of(game.players, id);
}

/// Whoever makes a capture is not caught in it.
pub proof fn lemma_capturer_not_stranded(
    players: Seq<PlayerView>,
    id: PlayerId,
    in_capture: Seq<bool>,
    in_new: Seq<bool>,
    in_own: Seq<bool>,
)
    ensures
        !crate::capture::stranded(players, id, in_capture, in_new, in_own).contains(id),
    decreases players.len(),
{
    if players.len() > 0 {
        lemma_capturer_not_stranded(players.drop_last(), id, in_capture, in_new, in_own);
        let all = crate::capture::stranded(players, id, in_capture, in_new, in_own);
        let earlier = crate::capture::stranded(
            players.drop_last(),
            id,
            in_capture,
            in_new,
            in_own,
        );
        if all.contains(id) {
            let k = choose|k: int| 0 <= k < all.len() && all[k] == id;
            if k < earlier.len() {
                assert(earlier[k] == id);
            }
        }
    }
}

/// A leaver is no longer in the game, and the others are.
pub proof fn lemma_disconnected_is_gone(game: GameView, id: PlayerId, other: PlayerId)
    requires
        valid(game, Seq::empty()),
        other != id,
    ensures
        crate::game::index_of(game.disconnected(id).players, id) is None,
        crate::game::index_of(game.players, other) is Some ==> crate::game::index_of(
            game.disconnected(id).players,
            other,
        ) is Some,
{
    let gone = game.without(id).territories_changed();
    lemma_without_valid(game, id, Seq::empty());
    crate::game::lemma_index_of(game.players, id);
    crate::game::lemma_index_of(game.players, other);
    crate::game::lemma_index_of(gone.players, other);
    if let Some(i) = crate::game::index_of(game.players, id) {
        let ids = crate::game::ids_near(
            gone.players,
            game.players[i].position,
            crate::game::far_sight(),
        );
        lemma_snapshots_same_ids(gone, ids, id);
        lemma_snapshots_same_ids(gone, ids, other);
        if let Some(k) = crate::game::index_of(game.players, other) {
            let j = if k < i {
                k
            } else {
                k - 1
            };
            assert(gone.players[j].id == other);
        }
    }
}

/// The crown is worn by the player on the first line of the leaderboard by area, whatever the areas
/// are.
pub proof fn lemma_crown_leads(players: Seq<PlayerView>, areas: Seq<Float64>)
    requires
        players.len() <= usize::MAX,
    ensures
        match crate::ranking::first_by_area(players, areas) {
            Some(id) => crate::ranking::area_lines(players, areas).len() > 0 && exists|i: int|
                0 <= i < players.len() && (#[trigger] players[i]).id == id
                    && crate::ranking::area_lines(players, areas)[0].name == players[i].name,
            None => crate::ranking::area_lines(players, areas).len() == 0,
        },
{
    crate::ranking::lemma_ranked_area_names(players, areas);
    let ranked = crate::ranking::ranked_by_area(crate::ranking::area_standings(players, areas));
    if ranked.len() > 0 {
        assert(players[ranked[0].index as int].id == ranked[0].id);
    }
}

proof fn lemma_snapshots_only_add(game: GameView, ids: Seq<PlayerId>)
    ensures
        game.outbox.is_prefix_of(game.snapshots_sent(ids).outbox),
        game.snapshots_sent(ids).next_id == game.next_id,
    decreases ids.len(),
{
    if ids.len() > 0 {
        lemma_snapshots_only_add(game, ids.drop_last());
        let earlier = game.snapshots_sent(ids.drop_last());
        let after = earlier.snapshot_sent(ids.last());
        assert(earlier.outbox.is_prefix_of(after.outbox));
    }
}

/// Who joins is the last of the players, under a new id, at its place and alive; the others keep
/// their places in the list. The first thing that is sent is its welcome.
pub proof fn lemma_connected_joins(
    game: GameView,
    at: Position,
    left: Seq<Option<Seq<crate::geometry::PolygonView>>>,
    areas: Seq<Float64>,
)
    requires
        game.next_id < u64::MAX,
    ensures
        ({
            let after = game.connected(at, left, areas);
            let n = game.players.len();
            &&& after.next_id == game.next_id + 1
            &&& after.players.len() == n + 1
            &&& after.players[n as int].id == game.next_id
            &&& after.players[n as int].position == at
            &&& after.players[n as int].alive
            &&& forall|i: int|
                0 <= i < n ==> (#[trigger] after.players[i]).id == game.players[i].id
            &&& after.outbox.len() > game.outbox.len()
            &&& after.outbox[game.outbox.len() as int] == (crate::game::PacketView {
                recipients: seq![game.next_id],
                msg: ServerMsgView::Welcome {
                    player_id: game.next_id,
                    position: at,
                    angle: Float64 { bits: crate::game::STOPPED },
                    color: crate::game::color_of(game.next_id),
                },
            })
        }),
{
    let id = game.next_id;
    let n = game.players.len();
    let joined = game.joined(at, left);
    assert(joined.players[n as int].id == id);
    crate::game::lemma_index_of(joined.players, id);
    let welcomed = joined.sent(
        id,
        ServerMsgView::Welcome {
            player_id: id,
            position: at,
            angle: Float64 { bits: crate::game::STOPPED },
            color: crate::game::color_of(id),
        },
    );
    let one = seq![id];
    assert(one.drop_last() =~= Seq::empty());
    assert(welcomed.snapshots_sent(one.drop_last()) == welcomed);
    assert(welcomed.snapshots_sent(one) == welcomed.snapshot_sent(id));
    lemma_snapshots_only_add(welcomed, one);
    crate::capture::lemma_snapshots_keep(welcomed, one);
    let seen = welcomed.snapshot_sent(id);
    crate::game::lemma_index_of(seen.players, id);
    if let Some(i) = crate::game::index_of(seen.players, id) {
        let center = seen.players[i].position;
        let near = crate::game::ids_near_among(
            seen.players,
            seen.found_around(center),
            center,
            crate::game::far_sight(),
        );
        lemma_snapshots_only_add(seen, near);
        crate::capture::lemma_snapshots_keep(seen, near);
    }
    let after = game.connected(at, left, areas);
    assert forall|i: int| 0 <= i < n implies (#[trigger] after.players[i]).id
        == game.players[i].id by {
        assert(joined.players[i].id == game.players[i].id);
        assert(seen.players[i].id == joined.players[i].id);
    }
    let told = seen.told_around(id);
    let k = game.outbox.len() as int;
    let last = n as int;
    assert(welcomed.players[last] == crate::game::newcomer(id, at));
    assert(seen.players[last] == (PlayerView {
        last_territory_version: seen.players[last].last_territory_version,
        ..welcomed.players[last]
    }));
    assert(told.players[last] == (PlayerView {
        last_territory_version: told.players[last].last_territory_version,
        ..seen.players[last]
    }));
    assert(after.players == told.players);
    assert(seen.outbox[k] == welcomed.outbox[k]);
    assert(told.outbox[k] == seen.outbox[k]);
    assert(after.outbox[k] == told.outbox[k]);
}

// ---------------------------------------------------------------------------------------------
// The version of the territories
// ---------------------------------------------------------------------------------------------

/// Whether two games have the same players with the same territories.
pub open spec fn same_territories(a: GameView, b: GameView) -> bool {
    &&& a.players.len() == b.players.len()
    &&& forall|i: int|
        0 <= i < a.players.len() ==> (#[trigger] a.players[i]).id == b.players[i].id
            && a.players[i].territory == b.players[i].territory
}

/// Whether the version never goes down on the way from one game to another, and goes up if a
/// territory changes, comes or goes.
pub open spec fn versioned(before: GameView, after: GameView) -> bool {
    &&& before.territory_version <= after.territory_version
    &&& before.territory_version == after.territory_version ==> same_territories(after, before)
}

proof fn lemma_versioned_chain(a: GameView, b: GameView, c: GameView)
    requires
        versioned(a, b),
        versioned(b, c),
    ensures
        versioned(a, c),
{
    if a.territory_version == c.territory_version {
        assert forall|i: int| 0 <= i < c.players.len() implies (#[trigger] c.players[i]).id
            == a.players[i].id && c.players[i].territory == a.players[i].territory by {
            assert(c.players[i].id == b.players[i].id);
            assert(b.players[i].id == a.players[i].id);
        }
    }
}

proof fn lemma_snapshots_versioned(game: GameView, ids: Seq<PlayerId>)
    ensures
        versioned(game, game.snapshots_sent(ids)),
        game.snapshots_sent(ids).territory_version == game.territory_version,
{
    crate::capture::lemma_snapshots_keep(game, ids);
}

proof fn lemma_killed_versioned(game: GameView, victim: PlayerId, killer: Option<PlayerId>)
    requires
        crate::game::index_of(game.players, victim) is Some ==> game.territory_version < u64::MAX,
    ensures
        versioned(game, game.killed(victim, killer)),
{
    if let Some(i) = crate::game::index_of(game.players, victim) {
        let at = game.players[i].position;
        let credited = game.kill_credited(killer);
        let seen_by = crate::game::witnesses(credited.players, game.found_around(at), at);
        let msg = ServerMsgView::PlayerKilled { player_id: victim, killer_id: killer };
        crate::capture::lemma_sent_keeps(credited, seen_by, msg);
        let changed = credited.sent_to_each(seen_by, msg).without(victim).territories_changed();
        lemma_snapshots_versioned(changed, crate::game::without_id(seen_by, victim));
    }
}

proof fn lemma_all_killed_versioned(game: GameView, victims: Seq<PlayerId>, killer: PlayerId)
    requires
        crate::capture::has_room_for(game, 0),
    ensures
        versioned(game, game.all_killed(victims, killer)),
        crate::capture::has_room_for(game.all_killed(victims, killer), 0),
    decreases victims.len(),
{
    if victims.len() > 0 {
        lemma_all_killed_versioned(game, victims.drop_last(), killer);
        let earlier = game.all_killed(victims.drop_last(), killer);
        let victim = victims.last();
        crate::game::lemma_index_of(earlier.players, victim);
        crate::capture::lemma_killed_leaves_room(earlier, victim, Some(killer), 0);
        lemma_killed_versioned(earlier, victim, Some(killer));
        lemma_versioned_chain(game, earlier, earlier.killed(victim, Some(killer)));
    }
}

proof fn lemma_kills_done_versioned(game: GameView, kills: Seq<Kill>)
    requires
        crate::capture::has_room_for(game, 0),
    ensures
        versioned(game, game.kills_done(kills)),
        crate::capture::has_room_for(game.kills_done(kills), 0),
    decreases kills.len(),
{
    if kills.len() > 0 {
        lemma_kills_done_versioned(game, kills.drop_last());
        let earlier = game.kills_done(kills.drop_last());
        let kill = kills.last();
        crate::game::lemma_index_of(earlier.players, kill.victim);
        crate::capture::lemma_killed_leaves_room(earlier, kill.victim, kill.killer, 0);
        lemma_killed_versioned(earlier, kill.victim, kill.killer);
        lemma_versioned_chain(game, earlier, earlier.killed(kill.victim, kill.killer));
    }
}

proof fn lemma_settled_versioned(
    game: GameView,
    captures: Seq<PlayerId>,
    next: int,
    kills: Seq<Kill>,
)
    requires
        next <= captures.len(),
        crate::capture::has_room_for(game, captures.len() - next),
    ensures
        versioned(game, crate::update::settled(game, captures, next, kills).0),
{
    if next == captures.len() {
        lemma_kills_done_versioned(game, kills);
        let done = game.kills_done(kills);
        lemma_versioned_chain(game, done, done.held_on_board());
    }
}

proof fn lemma_captured_versioned(game: GameView, id: PlayerId, outcome: CaptureOutcome)
    requires
        crate::capture::has_room_for(game, 1),
    ensures
        versioned(game, game.territory_captured(id, outcome)),
{
    crate::game::lemma_index_of(game.players, id);
    if crate::capture::area_captured(game, id) is Some {
        let left = crate::game::shapes(outcome.left@);
        let i = crate::game::index_of(game.players, id).unwrap();
        let cut = GameView { players: crate::game::carved(game.players, left), ..game };
        let changed = cut.with_player(
            i,
            PlayerView { territory: outcome.territory@, ..cut.players[i] }.without_trail(),
        ).territories_changed();
        if let Some(j) = crate::game::index_of(changed.players, id) {
            let at = changed.players[j].position;
            lemma_snapshots_versioned(
                changed,
                crate::game::ids_near_among(
                    changed.players,
                    changed.found_around(at),
                    at,
                    crate::game::far_sight(),
                ),
            );
        }
        let conquered = game.conquered(id, outcome.territory@, left);
        assert(versioned(game, conquered));
        crate::capture::lemma_conquered_leaves_room(game, id, outcome.territory@, left, 0);
        let victims = crate::capture::stranded(
            game.players,
            id,
            outcome.in_capture@,
            outcome.in_new@,
            outcome.in_own@,
        );
        lemma_all_killed_versioned(conquered, victims, id);
        lemma_versioned_chain(game, conquered, conquered.all_killed(victims, id));
    }
}

/// The version of the territories never goes down when players join, leave or play, and goes up
/// if a territory changes, comes or goes.
pub proof fn lemma_handled_versioned(game: GameView, event: GameEvent, now: u64)
    requires
        crate::game::can_handle(game, event, now),
    ensures
        versioned(game, crate::game::handled(game, event, now)),
{
    match event {
        GameEvent::Connect { position, left, areas } => {
            let id = game.next_id;
            let joined = game.joined(position, crate::game::shapes(left@));
            let welcomed = joined.sent(
                id,
                ServerMsgView::Welcome {
                    player_id: id,
                    position,
                    angle: Float64 { bits: crate::game::STOPPED },
                    color: crate::game::color_of(id),
                },
            );
            let seen = welcomed.snapshot_sent(id);
            if let Some(i) = crate::game::index_of(seen.players, id) {
                let at = seen.players[i].position;
                lemma_snapshots_versioned(
                    seen,
                    crate::game::ids_near_among(
                        seen.players,
                        seen.found_around(at),
                        at,
                        crate::game::far_sight(),
                    ),
                );
            }
        },
        GameEvent::Disconnect { player_id } => {
            let gone = game.without(player_id).territories_changed();
            if let Some(i) = crate::game::index_of(game.players, player_id) {
                lemma_snapshots_versioned(
                    gone,
                    crate::game::ids_near(
                        gone.players,
                        game.players[i].position,
                        crate::game::far_sight(),
                    ),
                );
            }
        },
        GameEvent::Input { player_id, msg } => {
            crate::game::lemma_index_of(game.players, player_id);
        },
    }
}

/// The version of the territories never goes down in a step of a tick, and goes up if a territory
/// changes, comes or goes.
pub proof fn lemma_updated_versioned(
    game: GameView,
    phase: PhaseView,
    answer: Answer,
    dt: Float64,
    now: u64,
)
    requires
        crate::update::at_phase(game, phase),
        crate::update::covers(game, phase, answer),
    ensures
        versioned(game, crate::update::updated(game, phase, answer, dt, now).0),
{
    match (phase, answer) {
        (PhaseView::Place { olds }, Answer::Inside(inside)) => {
            let placed = GameView {
                players: crate::tick::all_placed(game.players, olds, inside@),
                ..game
            };
            let captures = crate::tick::returning(game.players, inside@);
            let kills = crate::tick::kills_made(
                placed.players,
                olds,
                placed.players.len() as int,
            );
            crate::tick::lemma_returning_few(game.players, inside@);
            assert(crate::capture::has_room_for(placed, captures.len() as int)) by {
                assert forall|i: int| 0 <= i < placed.players.len() implies (
                #[trigger] placed.players[i]).kill_count == game.players[i].kill_count by {
                }
            }
            assert(versioned(game, placed));
            lemma_settled_versioned(placed, captures, 0, kills);
            lemma_versioned_chain(
                game,
                placed,
                crate::update::settled(placed, captures, 0, kills).0,
            );
        },
        (PhaseView::Capture { captures, next, kills }, Answer::Outcome(outcome)) => {
            let captured = game.territory_captured(captures[next], outcome);
            lemma_captured_versioned(game, captures[next], outcome);
            crate::capture::lemma_captured_leaves_room(
                game,
                captures[next],
                outcome,
                captures.len() - next - 1,
            );
            lemma_settled_versioned(captured, captures, next + 1, kills);
            lemma_versioned_chain(
                game,
                captured,
                crate::update::settled(captured, captures, next + 1, kills).0,
            );
        },
        _ => {},
    }
}

/// Once a snapshot was sent to a player, it has seen the territories as they are.
pub proof fn lemma_snapshot_brings_up_to_date(game: GameView, id: PlayerId, i: int)
    requires
        crate::game::index_of(game.players, id) == Some(i),
    ensures
        game.snapshot_sent(id).players[i].last_territory_version == game.territory_version,
{
    crate::game::lemma_index_of(game.players, id);
}

/// A death is told to nobody twice.
pub proof fn lemma_witnesses_told_once(
    players: Seq<PlayerView>,
    found: Seq<PlayerId>,
    at: Position,
)
    ensures
        crate::game::witnesses(players, found, at).no_duplicates(),
    decreases found.len(),
{
    if found.len() > 0 {
        lemma_witnesses_told_once(players, found.drop_last(), at);
    }
}

}
