//! Captures: a trail becomes territory, and whoever is caught in it dies.
use crate::game::{Game, GameView};
use crate::geometry::{build_capture_polygon, PolygonView, Territory};
use crate::player::PlayerView;
use crate::protocol::{PlayerId, Position, ServerMsgView};
use vstd::prelude::*;

verus! {

// ---------------------------------------------------------------------------------------------
// Room to count
// ---------------------------------------------------------------------------------------------

/// Whether no counter comes to its end while players capture `captures` times and any of them
/// die.
pub open spec fn has_room_for(game: GameView, captures: int) -> bool {
    &&& game.territory_version + game.players.len() + captures <= u64::MAX
    &&& forall|i: int|
        0 <= i < game.players.len() ==> (#[trigger] game.players[i]).kill_count
            + game.players.len() <= u32::MAX
}

/// Whether two games have the same players, but for what each was sent last.
pub open spec fn same_but_seen(a: GameView, b: GameView) -> bool {
    &&& a.players.len() == b.players.len()
    &&& a.territory_version == b.territory_version
    &&& forall|i: int|
        0 <= i < a.players.len() ==> #[trigger] a.players[i] == (PlayerView {
            last_territory_version: a.players[i].last_territory_version,
            ..b.players[i]
        })
}

/// To tell some players of the territories changes nothing of them but what they were sent last.
pub proof fn lemma_snapshots_keep(game: GameView, ids: Seq<PlayerId>)
    ensures
        same_but_seen(game.snapshots_sent(ids), game),
    decreases ids.len(),
{
    if ids.len() > 0 {
        lemma_snapshots_keep(game, ids.drop_last());
        let before = game.snapshots_sent(ids.drop_last());
        crate::game::lemma_index_of(before.players, ids.last());
    }
}

/// To tell some players of a death changes nothing of them.
pub proof fn lemma_sent_keeps(game: GameView, ids: Seq<PlayerId>, msg: ServerMsgView)
    ensures
        game.sent_to_each(ids, msg).players == game.players,
        game.sent_to_each(ids, msg).territory_version == game.territory_version,
    decreases ids.len(),
{
    if ids.len() > 0 {
        lemma_sent_keeps(game, ids.drop_last(), msg);
    }
}

/// A kill leaves as much room as there was.
pub proof fn lemma_killed_leaves_room(
    game: GameView,
    victim: PlayerId,
    killer: Option<PlayerId>,
    captures: int,
)
    requires
        has_room_for(game, captures),
        captures >= 0,
    ensures
        has_room_for(game.killed(victim, killer), captures),
        game.killed(victim, killer).players.len() <= game.players.len(),
{
    crate::game::lemma_index_of(game.players, victim);
    if let Some(i) = crate::game::index_of(game.players, victim) {
        let n = game.players.len() as int;
        let at = game.players[i].position;
        let credited = game.kill_credited(killer);
        if let Some(id) = killer {
            crate::game::lemma_index_of(game.players, id);
        }
        assert(credited.players.len() == n);
        assert forall|k: int| 0 <= k < n implies (#[trigger] credited.players[k]).kill_count + n - 1
            <= u32::MAX by {
            assert(game.players[k].kill_count + n <= u32::MAX);
        }
        assert forall|k: int| 0 <= k < n implies (#[trigger] credited.players[k]).id
            == game.players[k].id by {
        }
        let seen_by = crate::game::witnesses(credited.players, game.found_around(at), at);
        let msg = ServerMsgView::PlayerKilled {
            player_id: victim,
            killer_id: killer,
        };
        lemma_sent_keeps(credited, seen_by, msg);
        let told = credited.sent_to_each(seen_by, msg);
        assert(told.players[i].id == victim);
        crate::game::lemma_index_of(told.players, victim);
        let gone = told.without(victim);
        assert(gone.players.len() == n - 1);
        let changed = gone.territories_changed();
        let others = crate::game::without_id(seen_by, victim);
        lemma_snapshots_keep(changed, others);
        let after = changed.snapshots_sent(others);
        assert forall|k: int| 0 <= k < after.players.len() implies (
        #[trigger] after.players[k]).kill_count + after.players.len() <= u32::MAX by {
            let j = crate::game::index_of(told.players, victim).unwrap();
            assert(changed.players[k] == (if k < j {
                told.players[k]
            } else {
                told.players[k + 1]
            }));
        }
    }
}

// ---------------------------------------------------------------------------------------------
// Captures
// ---------------------------------------------------------------------------------------------

/// The area that a player's trail cuts off.
pub open spec fn area_captured(game: GameView, id: PlayerId) -> Option<Seq<PolygonView>> {
    match crate::game::index_of(game.players, id) {
        None => None,
        Some(i) => {
            let p = game.players[i];
            if p.alive && p.trail.len() >= 2 {
                crate::geometry::captured(p.trail, p.territory)
            } else {
                None
            }
        },
    }
}

/// What comes of a capture: the territory of who makes it, what is left of the others', and where
/// each player is: in the captured area, in the new territory, and in its own territory as it is
/// then.
pub struct CaptureOutcome {
    pub territory: Territory,
    pub left: Vec<Option<Territory>>,
    pub in_capture: Vec<bool>,
    pub in_new: Vec<bool>,
    pub in_own: Vec<bool>,
}

impl CaptureOutcome {
    /// Whether it says something of each of `n` players.
    pub open spec fn covers(self, n: nat) -> bool {
        &&& self.left@.len() == n
        &&& self.in_capture@.len() == n
        &&& self.in_new@.len() == n
        &&& self.in_own@.len() == n
    }
}

/// The living players, other than one, who are in the captured area, or in the new territory
/// without a territory of their own there.
pub open spec fn stranded(
    players: Seq<PlayerView>,
    id: PlayerId,
    in_capture: Seq<bool>,
    in_new: Seq<bool>,
    in_own: Seq<bool>,
) -> Seq<PlayerId>
    decreases players.len(),
{
    if players.len() == 0 {
        Seq::empty()
    } else {
        let n = players.len() - 1;
        let p = players[n];
        let earlier = stranded(players.drop_last(), id, in_capture, in_new, in_own);
        if p.id != id && p.alive && (in_capture[n] || (in_new[n] && !in_own[n])) {
            earlier.push(p.id)
        } else {
            earlier
        }
    }
}

impl GameView {
    /// With a player's trail forgotten.
    pub open spec fn trail_dropped(self, id: PlayerId) -> GameView {
        match crate::game::index_of(self.players, id) {
            None => self,
            Some(i) => self.with_player(i, self.players[i].without_trail()),
        }
    }

    /// With the new territory of who makes a capture and what is left of the others'.
    pub open spec fn conquered(
        self,
        id: PlayerId,
        territory: Seq<PolygonView>,
        left: Seq<Option<Seq<PolygonView>>>,
    ) -> GameView {
        match crate::game::index_of(self.players, id) {
            None => self,
            Some(i) => {
                let cut = GameView { players: crate::game::carved(self.players, left), ..self };
                cut.with_player(
                    i,
                    PlayerView { territory, ..cut.players[i] }.without_trail(),
                ).territories_changed().told_around(id)
            },
        }
    }

    /// With each of some players killed by one.
    pub open spec fn all_killed(self, victims: Seq<PlayerId>, killer: PlayerId) -> GameView
        decreases victims.len(),
    {
        if victims.len() == 0 {
            self
        } else {
            self.all_killed(victims.drop_last(), killer).killed(victims.last(), Some(killer))
        }
    }

    /// With a trail turned into territory; whoever is caught in it dies. A trail that cuts off
    /// nothing is only forgotten.
    pub open spec fn territory_captured(self, id: PlayerId, outcome: CaptureOutcome) -> GameView {
        if area_captured(self, id) is None {
            self.trail_dropped(id)
        } else {
            self.conquered(
                id,
                outcome.territory@,
                crate::game::shapes(outcome.left@),
            ).all_killed(
                stranded(
                    self.players,
                    id,
                    outcome.in_capture@,
                    outcome.in_new@,
                    outcome.in_own@,
                ),
                id,
            )
        }
    }
}

/// The points that a territory spans at least, should its parts not join: those of the trail and
/// of every outline.
pub open spec fn outline_points(trail: Seq<Position>, polygons: Seq<PolygonView>) -> Seq<Position>
    decreases polygons.len(),
{
    if polygons.len() == 0 {
        trail
    } else {
        outline_points(trail, polygons.drop_last()) + polygons.last().exterior
    }
}

/// Collect the points of a trail and of every outline.
pub fn collect_outline_points(trail: &Vec<Position>, territory: &Territory) -> (r: Vec<Position>)
    ensures
        r@ == outline_points(trail@, territory@),
{
    let mut r = trail.clone();
    let mut i: usize = 0;
    proof {
        assert(territory@.take(0) =~= Seq::empty());
    }
    while i < territory.polygons.len()
        invariant
            i <= territory.polygons@.len(),
            r@ == outline_points(trail@, territory@.take(i as int)),
        decreases territory.polygons@.len() - i,
    {
        let outline = &territory.polygons[i].exterior;
        let ghost earlier = r@;
        proof {
            assert(territory@.take(i + 1).drop_last() =~= territory@.take(i as int));
            assert(territory@.take(i + 1).last() == territory.polygons@[i as int]@);
        }
        let mut k: usize = 0;
        proof {
            assert(r@ =~= earlier + outline@.take(0));
        }
        while k < outline.len()
            invariant
                k <= outline@.len(),
                r@ == earlier + outline@.take(k as int),
            decreases outline@.len() - k,
        {
            r.push(outline[k]);
            proof {
                assert(r@ =~= earlier + outline@.take(k + 1));
            }
            k += 1;
        }
        proof {
            assert(outline@.take(k as int) =~= outline@);
        }
        i += 1;
    }
    proof {
        assert(territory@.take(i as int) =~= territory@);
    }
    r
}

/// A capture takes the room of one.
pub proof fn lemma_conquered_leaves_room(
    game: GameView,
    id: PlayerId,
    territory: Seq<PolygonView>,
    left: Seq<Option<Seq<PolygonView>>>,
    captures: int,
)
    requires
        has_room_for(game, captures + 1),
        captures >= 0,
    ensures
        has_room_for(game.conquered(id, territory, left), captures),
{
    crate::game::lemma_index_of(game.players, id);
    if let Some(i) = crate::game::index_of(game.players, id) {
        let n = game.players.len();
        let cut = GameView { players: crate::game::carved(game.players, left), ..game };
        let changed = cut.with_player(
            i,
            PlayerView { territory, ..cut.players[i] }.without_trail(),
        ).territories_changed();
        assert forall|k: int| 0 <= k < n implies (#[trigger] changed.players[k]).kill_count
            == game.players[k].kill_count by {
        }
        crate::game::lemma_index_of(changed.players, id);
        if let Some(j) = crate::game::index_of(changed.players, id) {
            let at = changed.players[j].position;
            lemma_snapshots_keep(
                changed,
                crate::game::ids_near_among(
                    changed.players,
                    changed.found_around(at),
                    at,
                    crate::game::far_sight(),
                ),
            );
        }
        let after = game.conquered(id, territory, left);
        assert(same_but_seen(after, changed));
        assert forall|k: int| 0 <= k < n implies (#[trigger] after.players[k]).kill_count + n
            <= u32::MAX by {
            assert(changed.players[k].kill_count == game.players[k].kill_count);
        }
    }
}

proof fn lemma_all_killed_leaves_room(
    game: GameView,
    victims: Seq<PlayerId>,
    killer: PlayerId,
    captures: int,
)
    requires
        has_room_for(game, captures),
        captures >= 0,
    ensures
        has_room_for(game.all_killed(victims, killer), captures),
    decreases victims.len(),
{
    if victims.len() > 0 {
        lemma_all_killed_leaves_room(game, victims.drop_last(), killer, captures);
        lemma_killed_leaves_room(
            game.all_killed(victims.drop_last(), killer),
            victims.last(),
            Some(killer),
            captures,
        );
    }
}

/// A capture, with the deaths that come of it, takes the room of one.
pub proof fn lemma_captured_leaves_room(
    game: GameView,
    id: PlayerId,
    outcome: CaptureOutcome,
    captures: int,
)
    requires
        has_room_for(game, captures + 1),
        captures >= 0,
    ensures
        has_room_for(game.territory_captured(id, outcome), captures),
{
    crate::game::lemma_index_of(game.players, id);
    if area_captured(game, id) is None {
        let after = game.trail_dropped(id);
        assert forall|k: int| 0 <= k < after.players.len() implies (
        #[trigger] after.players[k]).kill_count == game.players[k].kill_count by {
        }
    } else {
        let left = crate::game::shapes(outcome.left@);
        lemma_conquered_leaves_room(game, id, outcome.territory@, left, captures);
        lemma_all_killed_leaves_room(
            game.conquered(id, outcome.territory@, left),
            stranded(
                game.players,
                id,
                outcome.in_capture@,
                outcome.in_new@,
                outcome.in_own@,
            ),
            id,
            captures,
        );
    }
}

impl Game {
    /// The area that a player's trail cuts off.
    pub fn capture_area(&self, player_id: PlayerId) -> (r: Option<Territory>)
        ensures
            match area_captured(self@, player_id) {
                Some(area) => r matches Some(t) && t@ == area,
                None => r is None,
            },
    {
        match self.find(player_id) {
            None => None,
            Some(i) => {
                let p = &self.players[i];
                proof {
                    assert(self@.players[i as int] == p@);
                }
                if p.alive && p.trail.len() >= 2 {
                    build_capture_polygon(&p.trail, &p.territory)
                } else {
                    None
                }
            },
        }
    }

    /// Who is caught in a capture.
    fn find_stranded(&self, player_id: PlayerId, outcome: &CaptureOutcome) -> (r: Vec<PlayerId>)
        requires
            outcome.covers(self@.players.len()),
        ensures
            r@ == stranded(
                self@.players,
                player_id,
                outcome.in_capture@,
                outcome.in_new@,
                outcome.in_own@,
            ),
    {
        let ghost all = self@.players;
        let mut r: Vec<PlayerId> = Vec::new();
        let mut i: usize = 0;
        while i < self.players.len()
            invariant
                i <= self.players@.len(),
                all == self@.players,
                outcome.covers(self@.players.len()),
                r@ == stranded(
                    all.take(i as int),
                    player_id,
                    outcome.in_capture@,
                    outcome.in_new@,
                    outcome.in_own@,
                ),
            decreases self.players@.len() - i,
        {
            let p = &self.players[i];
            proof {
                assert(all.take(i + 1).drop_last() =~= all.take(i as int));
                assert(all.take(i + 1)[i as int] == p@);
            }
            if p.id != player_id && p.alive && (outcome.in_capture[i] || (outcome.in_new[i]
                && !outcome.in_own[i])) {
                r.push(p.id);
            }
            i += 1;
        }
        proof {
            assert(all.take(i as int) =~= all);
        }
        r
    }

    /// Turn a player's trail into territory, given what comes of it.
    pub fn capture_territory(&mut self, player_id: PlayerId, outcome: CaptureOutcome)
        requires
            has_room_for(old(self)@, 1),
            area_captured(old(self)@, player_id) is Some ==> outcome.covers(
                old(self)@.players.len(),
            ),
        ensures
            final(self)@ == old(self)@.territory_captured(player_id, outcome),
            forall|captures: int|
                captures >= 1 && #[trigger] has_room_for(old(self)@, captures) ==> has_room_for(
                    final(self)@,
                    captures - 1,
                ),
    {
        let ghost start = self@;
        let captured = match self.capture_area(player_id) {
            Some(_) => true,
            None => false,
        };
        let i = match self.find(player_id) {
            Some(i) => i,
            None => {
                return;
            },
        };
        proof {
            assert(self@.players[i as int] == self.players@[i as int]@);
        }
        if !captured {
            self.players[i].clear_trail();
            proof {
                assert(self@.players =~= start.players.update(
                    i as int,
                    start.players[i as int].without_trail(),
                ));
                assert(self@ =~= start.trail_dropped(player_id));
                assert forall|k: int| 0 <= k < self@.players.len() implies (
                #[trigger] self@.players[k]).kill_count == start.players[k].kill_count by {
                }
            }
            return;
        }
        let ghost shapes_left = crate::game::shapes(outcome.left@);
        let ghost new_shape = outcome.territory@;
        let victims = self.find_stranded(player_id, &outcome);
        self.carve(outcome.left);
        let ghost cut = self@;
        self.players[i].territory = outcome.territory;
        self.players[i].clear_trail();
        self.territory_version = self.territory_version + 1;
        proof {
            assert(self@.players =~= cut.players.update(
                i as int,
                PlayerView { territory: new_shape, ..cut.players[i as int] }.without_trail(),
            ));
        }
        self.broadcast_territory_near(player_id);
        let ghost conquered = self@;
        proof {
            assert(conquered == start.conquered(player_id, new_shape, shapes_left));
            lemma_conquered_leaves_room(start, player_id, new_shape, shapes_left, 0);
        }
        let mut k: usize = 0;
        while k < victims.len()
            invariant
                k <= victims@.len(),
                conquered == start.conquered(player_id, new_shape, shapes_left),
                self@ == conquered.all_killed(victims@.take(k as int), player_id),
                has_room_for(self@, 0),
            decreases victims@.len() - k,
        {
            let ghost before = self@;
            proof {
                assert(victims@.take(k + 1).drop_last() =~= victims@.take(k as int));
                crate::game::lemma_index_of(before.players, player_id);
                crate::game::lemma_index_of(before.players, victims@[k as int]);
                lemma_killed_leaves_room(before, victims@[k as int], Some(player_id), 0);
            }
            self.kill_player(victims[k], Some(player_id));
            k += 1;
        }
        proof {
            assert(victims@.take(k as int) =~= victims@);
            assert forall|captures: int|
                captures >= 1 && #[trigger] has_room_for(start, captures) implies has_room_for(
                self@,
                captures - 1,
            ) by {
                lemma_captured_leaves_room(start, player_id, outcome, captures - 1);
            }
        }
    }
}

}
