//! What a game tells its players at the end of a tick.
use crate::float64::Float64;
use crate::game::{is_near, Game, GameView, Packet, PacketView};
use crate::player::PlayerView;
use crate::protocol::{
    PlayerId, PlayerStateData, PlayerStateView, Position, ServerMsg, ServerMsgView,
    VISIBILITY_RADIUS,
};
use crate::ranking::{compute_leaderboard, crown_holder};
use vstd::prelude::*;

verus! {

/// Every so many ticks the territories are sent to all.
pub const TERRITORY_INTERVAL: u64 = 200;

/// Every so many ticks the leaderboards are sent to all.
pub const LEADERBOARD_INTERVAL: u64 = 40;

/// The living players among some who are seen from a point.
pub open spec fn visible(
    players: Seq<PlayerView>,
    found: Seq<PlayerId>,
    at: Position,
    crown: Option<PlayerId>,
    now: u64,
) -> Seq<PlayerStateView>
    decreases players.len(),
{
    if players.len() == 0 {
        Seq::empty()
    } else {
        let p = players.last();
        let earlier = visible(players.drop_last(), found, at, crown, now);
        if p.alive && found.contains(p.id) && crate::game::near(
            p.position,
            at,
            crate::game::sight(),
        ) {
            earlier.push(p.shown(crown == Some(p.id), now))
        } else {
            earlier
        }
    }
}

/// The living players and where they are.
pub open spec fn viewers(players: Seq<PlayerView>) -> Seq<(PlayerId, Position)>
    decreases players.len(),
{
    if players.len() == 0 {
        Seq::empty()
    } else if players.last().alive {
        viewers(players.drop_last()).push((players.last().id, players.last().position))
    } else {
        viewers(players.drop_last())
    }
}

/// The ids of all players.
pub open spec fn all_ids(players: Seq<PlayerView>) -> Seq<PlayerId> {
    players.map_values(|p: PlayerView| p.id)
}

impl GameView {
    /// With one viewer told of who it sees, and of the territories in sight where they are due.
    pub open spec fn viewer_told(
        self,
        viewer: (PlayerId, Position),
        crown: Option<PlayerId>,
        territories: bool,
        now: u64,
    ) -> GameView {
        let told = self.sent(
            viewer.0,
            ServerMsgView::Tick {
                players: visible(
                    self.players,
                    self.found_around(viewer.1),
                    viewer.1,
                    crown,
                    now,
                ),
                board_radius: self.board_radius,
            },
        );
        if territories {
            told.snapshot_sent(viewer.0)
        } else {
            told
        }
    }

    /// With each viewer told.
    pub open spec fn viewers_told(
        self,
        to: Seq<(PlayerId, Position)>,
        crown: Option<PlayerId>,
        territories: bool,
        now: u64,
    ) -> GameView
        decreases to.len(),
    {
        if to.len() == 0 {
            self
        } else {
            self.viewers_told(to.drop_last(), crown, territories, now).viewer_told(
                to.last(),
                crown,
                territories,
                now,
            )
        }
    }

    /// With every living player told of who it sees; from time to time also of the territories
    /// in sight, and everyone of the leaderboards.
    pub open spec fn broadcasted(self, areas: Seq<Float64>, now: u64) -> GameView {
        let told = self.viewers_told(
            viewers(self.players),
            crate::ranking::first_by_area(self.players, areas),
            self.tick_count % TERRITORY_INTERVAL == 0,
            now,
        );
        if self.tick_count % LEADERBOARD_INTERVAL == 0 {
            GameView {
                outbox: told.outbox.push(
                    PacketView {
                        recipients: all_ids(told.players),
                        msg: ServerMsgView::Leaderboard(
                            crate::ranking::leaderboard(told.players, areas),
                        ),
                    },
                ),
                ..told
            }
        } else {
            told
        }
    }
}

impl Game {
    /// The living players among some who are seen from a point.
    fn seen_from(
        &self,
        found: &Vec<PlayerId>,
        at: Position,
        crown: Option<PlayerId>,
        now: u64,
    ) -> (r: Vec<PlayerStateData>)
        ensures
            crate::protocol::player_views(r@) == visible(self@.players, found@, at, crown, now),
    {
        let ghost all = self@.players;
        let mut r: Vec<PlayerStateData> = Vec::new();
        let mut i: usize = 0;
        proof {
            assert(crate::protocol::player_views(r@) =~= visible(
                all.take(0),
                found@,
                at,
                crown,
                now,
            ));
        }
        while i < self.players.len()
            invariant
                i <= self.players@.len(),
                all == self@.players,
                crate::protocol::player_views(r@) == visible(
                    all.take(i as int),
                    found@,
                    at,
                    crown,
                    now,
                ),
            decreases self.players@.len() - i,
        {
            let p = &self.players[i];
            proof {
                assert(all.take(i + 1).drop_last() =~= all.take(i as int));
                assert(all.take(i + 1).last() == p@);
            }
            if p.alive && crate::game::holds(found, p.id) && is_near(
                p.position,
                at,
                Float64 { bits: VISIBILITY_RADIUS },
            ) {
                let crowned = match crown {
                    Some(id) => id == p.id,
                    None => false,
                };
                let state = p.state_data(crowned, now);
                let ghost before = r@;
                r.push(state);
                proof {
                    assert(crate::protocol::player_views(r@) =~= crate::protocol::player_views(
                        before,
                    ).push(state@));
                }
            }
            i += 1;
        }
        proof {
            assert(all.take(i as int) =~= all);
        }
        r
    }

    fn list_viewers(&self) -> (r: Vec<(PlayerId, Position)>)
        ensures
            r@ == viewers(self@.players),
    {
        let ghost all = self@.players;
        let mut r: Vec<(PlayerId, Position)> = Vec::new();
        let mut i: usize = 0;
        while i < self.players.len()
            invariant
                i <= self.players@.len(),
                all == self@.players,
                r@ == viewers(all.take(i as int)),
            decreases self.players@.len() - i,
        {
            let p = &self.players[i];
            proof {
                assert(all.take(i + 1).drop_last() =~= all.take(i as int));
                assert(all.take(i + 1).last() == p@);
            }
            if p.alive {
                r.push((p.id, p.position));
            }
            i += 1;
        }
        proof {
            assert(all.take(i as int) =~= all);
        }
        r
    }

    fn list_ids(&self) -> (r: Vec<PlayerId>)
        ensures
            r@ == all_ids(self@.players),
    {
        let mut r: Vec<PlayerId> = Vec::new();
        let mut i: usize = 0;
        while i < self.players.len()
            invariant
                i <= self.players@.len(),
                r@ =~= all_ids(self@.players).take(i as int),
            decreases self.players@.len() - i,
        {
            proof {
                assert(self@.players[i as int] == self.players@[i as int]@);
            }
            r.push(self.players[i].id);
            i += 1;
        }
        r
    }

    /// Tell the players what they see, with the areas of all.
    pub fn broadcast(&mut self, areas: &Vec<Float64>, now: u64)
        requires
            areas@.len() == old(self)@.players.len(),
        ensures
            final(self)@ == old(self)@.broadcasted(areas@, now),
    {
        let territories = self.tick_count % TERRITORY_INTERVAL == 0;
        let boards = self.tick_count % LEADERBOARD_INTERVAL == 0;
        let crown = crown_holder(&self.players, areas);
        let to = self.list_viewers();
        let ghost start = self@;
        let mut i: usize = 0;
        while i < to.len()
            invariant
                i <= to@.len(),
                self@ == start.viewers_told(to@.take(i as int), crown, territories, now),
                self.players@.len() == areas@.len(),
            decreases to@.len() - i,
        {
            let (id, at) = to[i];
            proof {
                assert(to@.take(i + 1).drop_last() =~= to@.take(i as int));
            }
            let found = self.spatial_hash.nearby(at);
            let players = self.seen_from(&found, at, crown, now);
            let board_radius = self.board_radius;
            self.send_to(id, ServerMsg::Tick { players, board_radius });
            if territories {
                self.send_territory_snapshot(id);
            }
            i += 1;
        }
        proof {
            assert(to@.take(i as int) =~= to@);
        }
        if boards {
            let ghost told = self@;
            let board = compute_leaderboard(&self.players, areas);
            let recipients = self.list_ids();
            let packet = Packet { recipients, msg: ServerMsg::Leaderboard(board) };
            self.outbox.push(packet);
            proof {
                assert(self@.outbox =~= told.outbox.push(packet@));
            }
        }
    }
}

}
