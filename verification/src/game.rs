//! The state of a game, and what joining, leaving, playing and dying do to it.
use crate::float64::Float64;
use crate::geometry::{dist_sq, rect_polygon, stretch_over, Polygon, PolygonView, Territory};
use crate::player::{Player, PlayerView};
use crate::protocol::{
    ClientMsg, ClientMsgView, PlayerId, Position, RingView, ServerMsg, ServerMsgView,
    TerritoryRingData, STARTING_TERRITORY_RADIUS, VISIBILITY_RADIUS,
};
use crate::ranking::compute_leaderboard;
use crate::spatial_hash::{Cells, SpatialHash};
use crate::text::{name_of, shorten};
use vstd::prelude::*;

verus! {

/// The side of a cell of the grid, twice the visibility radius: 500.
pub const SPATIAL_CELL_SIZE: u64 = 0x407f_4000_0000_0000;

/// The least radius of the board: 50.
pub const LEAST_BOARD_RADIUS: u64 = 0x4049_0000_0000_0000;

/// How much farther than it sees, and how much faster than it walks, a player may go: 1.5.
pub const ONE_AND_A_HALF: u64 = 0x3ff8_0000_0000_0000;

/// The squared distance that a player moves between two corners of its trail: 0.25.
pub const CORNER_DISTANCE_SQUARED: u64 = 0x3fd0_0000_0000_0000;

/// No number.
pub const STOPPED: u64 = 0x7ff8_0000_0000_0000;

/// The longest name, in characters.
pub const NAME_LENGTH: usize = 20;

/// The most boost points that a player has.
pub const MOST_BOOST_POINTS: u8 = 3;

/// How long a boost lasts, in nanoseconds.
pub const BOOST_DURATION: u64 = 5_000_000_000;

/// A message on its way to some players.
pub struct Packet {
    pub recipients: Vec<PlayerId>,
    pub msg: ServerMsg,
}

/// The contents of a [`Packet`].
#[verifier::ext_equal]
pub struct PacketView {
    pub recipients: Seq<PlayerId>,
    pub msg: ServerMsgView,
}

impl View for Packet {
    type V = PacketView;

    open spec fn view(&self) -> PacketView {
        PacketView { recipients: self.recipients@, msg: self.msg@ }
    }
}

/// A game, with the messages that it has not sent yet.
pub struct Game {
    /// The players, in the order in which they came.
    pub players: Vec<Player>,
    pub next_id: PlayerId,
    pub tick_count: u64,
    pub spatial_hash: SpatialHash,
    /// Goes up with every change of a territory.
    pub territory_version: u64,
    /// The radius of the board, on its way to the target.
    pub board_radius: Float64,
    /// The radius of the board for as many players as there are.
    pub target_board_radius: Float64,
    pub outbox: Vec<Packet>,
}

/// The contents of a [`Game`].
#[verifier::ext_equal]
pub struct GameView {
    pub players: Seq<PlayerView>,
    pub next_id: PlayerId,
    pub tick_count: u64,
    pub cells: Cells,
    pub cell_size: Float64,
    pub territory_version: u64,
    pub board_radius: Float64,
    pub target_board_radius: Float64,
    pub outbox: Seq<PacketView>,
}

impl View for Game {
    type V = GameView;

    open spec fn view(&self) -> GameView {
        GameView {
            players: crate::player::contents(self.players@),
            next_id: self.next_id,
            tick_count: self.tick_count,
            cells: self.spatial_hash@,
            cell_size: self.spatial_hash.cell_size,
            territory_version: self.territory_version,
            board_radius: self.board_radius,
            target_board_radius: self.target_board_radius,
            outbox: self.outbox@.map_values(|p: Packet| p@),
        }
    }
}

/// Where a player stands in a list of players.
pub open spec fn index_of(players: Seq<PlayerView>, id: PlayerId) -> Option<int>
    decreases players.len(),
{
    if players.len() == 0 {
        None
    } else if players.last().id == id {
        Some(players.len() - 1)
    } else {
        index_of(players.drop_last(), id)
    }
}

/// What `index_of` finds is a player of that id, and it finds one where there is one.
pub proof fn lemma_index_of(players: Seq<PlayerView>, id: PlayerId)
    ensures
        index_of(players, id) matches Some(i) ==> 0 <= i < players.len() && players[i].id == id,
        (exists|i: int| 0 <= i < players.len() && (#[trigger] players[i]).id == id) ==> index_of(
            players,
            id,
        ) is Some,
    decreases players.len(),
{
    if players.len() > 0 {
        let shorter = players.drop_last();
        lemma_index_of(shorter, id);
        if exists|i: int| 0 <= i < players.len() && (#[trigger] players[i]).id == id {
            let i = choose|i: int| 0 <= i < players.len() && (#[trigger] players[i]).id == id;
            if i < shorter.len() {
                assert(shorter[i].id == id);
            }
        }
    }
}

/// Whether one point is within reach of another along each axis.
pub open spec fn near(p: Position, at: Position, reach: Float64) -> bool {
    p.x.minus(at.x).abs().le(reach) && p.y.minus(at.y).abs().le(reach)
}

/// How far a player sees.
pub open spec fn sight() -> Float64 {
    Float64 { bits: VISIBILITY_RADIUS }
}

/// How far off a player is told of a new territory.
pub open spec fn far_sight() -> Float64 {
    sight().times(Float64 { bits: ONE_AND_A_HALF })
}

/// Whether an outline reaches into what is seen from a point.
pub open spec fn outline_in_sight(outline: Seq<Position>, at: Position) -> bool {
    match crate::geometry::stretched_over(None, outline) {
        None => true,
        Some(b) => !(b.max_x.lt(at.x.minus(sight())) || at.x.plus(sight()).lt(b.min_x)
            || b.max_y.lt(at.y.minus(sight())) || at.y.plus(sight()).lt(b.min_y)),
    }
}

/// The outlines among some of a player's that are seen from a point.
pub open spec fn rings_of(p: PlayerView, polygons: Seq<PolygonView>, at: Position) -> Seq<RingView>
    decreases polygons.len(),
{
    if polygons.len() == 0 {
        Seq::empty()
    } else {
        let earlier = rings_of(p, polygons.drop_last(), at);
        if outline_in_sight(polygons.last().exterior, at) {
            earlier.push(
                RingView {
                    player_id: p.id,
                    color: p.color,
                    points: polygons.last().exterior,
                    sprite_id: p.sprite_id,
                },
            )
        } else {
            earlier
        }
    }
}

/// The outlines of living players that are seen from a point.
pub open spec fn rings_in_sight(players: Seq<PlayerView>, at: Position) -> Seq<RingView>
    decreases players.len(),
{
    if players.len() == 0 {
        Seq::empty()
    } else {
        let p = players.last();
        let earlier = rings_in_sight(players.drop_last(), at);
        if p.alive {
            earlier + rings_of(p, p.territory, at)
        } else {
            earlier
        }
    }
}

/// The living players within reach of a point.
pub open spec fn ids_near(players: Seq<PlayerView>, at: Position, reach: Float64) -> Seq<PlayerId>
    decreases players.len(),
{
    if players.len() == 0 {
        Seq::empty()
    } else {
        let p = players.last();
        let earlier = ids_near(players.drop_last(), at, reach);
        if p.alive && near(p.position, at, reach) {
            earlier.push(p.id)
        } else {
            earlier
        }
    }
}

/// The living players among some that are within reach of a point.
pub open spec fn ids_near_among(
    players: Seq<PlayerView>,
    candidates: Seq<PlayerId>,
    at: Position,
    reach: Float64,
) -> Seq<PlayerId>
    decreases players.len(),
{
    if players.len() == 0 {
        Seq::empty()
    } else {
        let p = players.last();
        let earlier = ids_near_among(players.drop_last(), candidates, at, reach);
        if p.alive && candidates.contains(p.id) && near(p.position, at, reach) {
            earlier.push(p.id)
        } else {
            earlier
        }
    }
}

/// Whether there is a living player of that id who sees a point.
pub open spec fn sees(players: Seq<PlayerView>, id: PlayerId, at: Position) -> bool {
    match index_of(players, id) {
        Some(i) => players[i].alive && near(players[i].position, at, sight()),
        None => false,
    }
}

/// Those of a list who see a point, each once.
pub open spec fn witnesses(players: Seq<PlayerView>, found: Seq<PlayerId>, at: Position) -> Seq<
    PlayerId,
>
    decreases found.len(),
{
    if found.len() == 0 {
        Seq::empty()
    } else {
        let earlier = witnesses(players, found.drop_last(), at);
        if sees(players, found.last(), at) && !earlier.contains(found.last()) {
            earlier.push(found.last())
        } else {
            earlier
        }
    }
}

/// The contents of some territories, where there are any.
pub open spec fn shapes(s: Seq<Option<Territory>>) -> Seq<Option<Seq<PolygonView>>> {
    s.map_values(
        |t: Option<Territory>|
            match t {
                Some(t) => Some(t@),
                None => None,
            },
    )
}

/// The players, each with its new territory where it has one.
pub open spec fn carved(
    players: Seq<PlayerView>,
    left: Seq<Option<Seq<PolygonView>>>,
) -> Seq<PlayerView> {
    Seq::new(
        players.len(),
        |i: int|
            match left[i] {
                Some(territory) => PlayerView { territory, ..players[i] },
                None => players[i],
            },
    )
}

impl PlayerView {
    /// A player who has killed another.
    pub open spec fn credited(self) -> PlayerView {
        PlayerView {
            kill_count: (self.kill_count + 1) as u32,
            boost_points: if self.boost_points < MOST_BOOST_POINTS {
                (self.boost_points + 1) as u8
            } else {
                self.boost_points
            },
            ..self
        }
    }

    /// A player who goes another way: outside its territory, the place becomes a corner of the
    /// trail if it is far enough from the last.
    pub open spec fn steered(self, angle: Float64) -> PlayerView {
        if !self.alive {
            self
        } else {
            let turned = if !self.in_territory && self.trail.len() > 0 && !self.angle.is_nan()
                && (Float64 { bits: CORNER_DISTANCE_SQUARED }).lt(
                crate::geometry::spec_dist_sq(self.position, self.trail.last()),
            ) {
                PlayerView { trail: self.trail.push(self.position), ..self }.with_trail_box()
            } else {
                self
            };
            PlayerView { angle, ..turned }
        }
    }

    /// A player who uses a boost point, if it has one.
    pub open spec fn boosting(self, now: u64) -> PlayerView {
        if self.boost_points > 0 {
            PlayerView {
                boost_points: (self.boost_points - 1) as u8,
                boost_until: Some((now + BOOST_DURATION) as u64),
                ..self
            }
        } else {
            self
        }
    }
}

/// The square that a player starts with.
pub open spec fn starting_square(at: Position) -> Seq<Position> {
    let r = Float64 { bits: STARTING_TERRITORY_RADIUS };
    crate::geometry::rectangle(at.x.minus(r), at.y.minus(r), at.x.plus(r), at.y.plus(r))
}

/// The square that a player starts with.
pub fn starting_polygon(at: Position) -> (r: Polygon)
    ensures
        r@ == (PolygonView { exterior: starting_square(at), interiors: Seq::empty() }),
{
    let r = Float64 { bits: STARTING_TERRITORY_RADIUS };
    rect_polygon(at.x.minus(r), at.y.minus(r), at.x.plus(r), at.y.plus(r))
}

/// The colors that players have in turn.
pub open spec fn colors() -> Seq<[u8; 3]> {
    seq![
        [231, 76, 60],
        [52, 152, 219],
        [46, 204, 113],
        [241, 196, 15],
        [155, 89, 182],
        [230, 126, 34],
        [26, 188, 156],
        [236, 240, 241],
        [52, 73, 94],
        [192, 57, 43],
        [39, 174, 96],
        [142, 68, 173],
    ]
}

/// The color of a player.
pub open spec fn color_of(id: PlayerId) -> [u8; 3] {
    colors()[id as int % colors().len() as int]
}

/// The color of a player.
pub fn pick_color(id: PlayerId) -> (r: [u8; 3])
    ensures
        r == color_of(id),
{
    let k: u64 = id % 12;
    if k == 0 {
        [231, 76, 60]
    } else if k == 1 {
        [52, 152, 219]
    } else if k == 2 {
        [46, 204, 113]
    } else if k == 3 {
        [241, 196, 15]
    } else if k == 4 {
        [155, 89, 182]
    } else if k == 5 {
        [230, 126, 34]
    } else if k == 6 {
        [26, 188, 156]
    } else if k == 7 {
        [236, 240, 241]
    } else if k == 8 {
        [52, 73, 94]
    } else if k == 9 {
        [192, 57, 43]
    } else if k == 10 {
        [39, 174, 96]
    } else {
        [142, 68, 173]
    }
}

/// A player as it joins.
pub open spec fn newcomer(id: PlayerId, at: Position) -> PlayerView {
    PlayerView {
        id,
        position: at,
        angle: Float64 { bits: STOPPED },
        color: color_of(id),
        territory: seq![PolygonView { exterior: starting_square(at), interiors: Seq::empty() }],
        trail: Seq::empty(),
        in_territory: true,
        alive: true,
        trail_aabb: None,
        sprite_id: 0,
        name: crate::text::first_name(id),
        kill_count: 0,
        boost_points: 0,
        boost_until: None,
        last_territory_version: 0,
    }
}

impl GameView {
    /// With a message to a player, if there is one of that id.
    pub open spec fn sent(self, id: PlayerId, msg: ServerMsgView) -> GameView {
        if index_of(self.players, id) is Some {
            GameView {
                outbox: self.outbox.push(PacketView { recipients: seq![id], msg }),
                ..self
            }
        } else {
            self
        }
    }

    /// With a message to each of some players.
    pub open spec fn sent_to_each(self, ids: Seq<PlayerId>, msg: ServerMsgView) -> GameView
        decreases ids.len(),
    {
        if ids.len() == 0 {
            self
        } else {
            self.sent_to_each(ids.drop_last(), msg).sent(ids.last(), msg)
        }
    }

    /// With one player changed.
    pub open spec fn with_player(self, i: int, p: PlayerView) -> GameView {
        GameView { players: self.players.update(i, p), ..self }
    }

    /// With the territories in sight on their way to a player that has not seen them.
    pub open spec fn snapshot_sent(self, id: PlayerId) -> GameView {
        match index_of(self.players, id) {
            None => self,
            Some(i) => {
                let p = self.players[i];
                if p.last_territory_version == self.territory_version {
                    self
                } else {
                    self.sent(
                        id,
                        ServerMsgView::TerritorySnapshot(
                            rings_in_sight(self.players, p.position),
                        ),
                    ).with_player(
                        i,
                        PlayerView { last_territory_version: self.territory_version, ..p },
                    )
                }
            },
        }
    }

    /// With the territories in sight on their way to each of some players.
    pub open spec fn snapshots_sent(self, ids: Seq<PlayerId>) -> GameView
        decreases ids.len(),
    {
        if ids.len() == 0 {
            self
        } else {
            self.snapshots_sent(ids.drop_last()).snapshot_sent(ids.last())
        }
    }

    /// The players that the grid finds around a point.
    pub open spec fn found_around(self, at: Position) -> Seq<PlayerId> {
        crate::spatial_hash::around(
            self.cells,
            crate::spatial_hash::cell_of(self.cell_size, at),
        )
    }

    /// With the territories in sight on their way to those near a player.
    pub open spec fn told_around(self, id: PlayerId) -> GameView {
        match index_of(self.players, id) {
            None => self,
            Some(i) => {
                let at = self.players[i].position;
                self.snapshots_sent(
                    ids_near_among(self.players, self.found_around(at), at, far_sight()),
                )
            },
        }
    }

    /// With a player gone.
    pub open spec fn without(self, id: PlayerId) -> GameView {
        match index_of(self.players, id) {
            None => self,
            Some(i) => GameView { players: self.players.remove(i), ..self },
        }
    }

    /// With the territories changed once more.
    pub open spec fn territories_changed(self) -> GameView {
        GameView { territory_version: (self.territory_version + 1) as u64, ..self }
    }

    /// With a kill to the credit of a player, if there is one of that id.
    pub open spec fn kill_credited(self, killer: Option<PlayerId>) -> GameView {
        match killer {
            None => self,
            Some(id) => match index_of(self.players, id) {
                None => self,
                Some(i) => self.with_player(i, self.players[i].credited()),
            },
        }
    }

    /// With a player killed: the killer has the credit, those who see the place are told and see
    /// the territory disappear.
    pub open spec fn killed(self, victim: PlayerId, killer: Option<PlayerId>) -> GameView {
        match index_of(self.players, victim) {
            None => self,
            Some(i) => {
                let at = self.players[i].position;
                let credited = self.kill_credited(killer);
                let seen_by = witnesses(credited.players, self.found_around(at), at);
                credited.sent_to_each(
                    seen_by,
                    ServerMsgView::PlayerKilled { player_id: victim, killer_id: killer },
                ).without(victim).territories_changed().snapshots_sent(
                    without_id(seen_by, victim),
                )
            },
        }
    }

    /// With a player more, who starts at a point.
    pub open spec fn joined(self, at: Position, left: Seq<Option<Seq<PolygonView>>>) -> GameView {
        GameView {
            players: carved(self.players, left).push(newcomer(self.next_id, at)),
            next_id: (self.next_id + 1) as u64,
            ..self
        }.territories_changed()
    }

    /// With a player more, who is welcomed and told of territories and leaderboards.
    pub open spec fn connected(
        self,
        at: Position,
        left: Seq<Option<Seq<PolygonView>>>,
        areas: Seq<Float64>,
    ) -> GameView {
        let id = self.next_id;
        let told = self.joined(at, left).sent(
            id,
            ServerMsgView::Welcome {
                player_id: id,
                position: at,
                angle: Float64 { bits: STOPPED },
                color: color_of(id),
            },
        ).snapshot_sent(id).told_around(id);
        told.sent(
            id,
            ServerMsgView::Leaderboard(crate::ranking::leaderboard(told.players, areas)),
        )
    }

    /// With a player gone, whose neighbours see the territory disappear.
    pub open spec fn disconnected(self, id: PlayerId) -> GameView {
        let gone = self.without(id).territories_changed();
        match index_of(self.players, id) {
            None => gone,
            Some(i) => gone.snapshots_sent(
                ids_near(gone.players, self.players[i].position, far_sight()),
            ),
        }
    }

    /// With a message of a player taken in.
    pub open spec fn told(self, id: PlayerId, msg: ClientMsgView, now: u64) -> GameView {
        match msg {
            ClientMsgView::Ping(timestamp) => self.sent(id, ServerMsgView::Pong(timestamp)),
            _ => match index_of(self.players, id) {
                None => self,
                Some(i) => {
                    let p = self.players[i];
                    self.with_player(
                        i,
                        match msg {
                            ClientMsgView::ChangeDirection(angle) => p.steered(angle),
                            ClientMsgView::SetSprite(sprite_id) => PlayerView { sprite_id, ..p },
                            ClientMsgView::SetName(name) => PlayerView {
                                name: crate::text::shortened(name, NAME_LENGTH as nat),
                                ..p
                            },
                            ClientMsgView::ActivateBoost => p.boosting(now),
                            ClientMsgView::Ping(_) => p,
                        },
                    )
                },
            },
        }
    }
}

/// A list of ids without one.
pub open spec fn without_id(ids: Seq<PlayerId>, id: PlayerId) -> Seq<PlayerId>
    decreases ids.len(),
{
    if ids.len() == 0 {
        Seq::empty()
    } else if ids.last() == id {
        without_id(ids.drop_last(), id)
    } else {
        without_id(ids.drop_last(), id).push(ids.last())
    }
}

/// Whether a list holds an id.
pub fn holds(ids: &Vec<PlayerId>, id: PlayerId) -> (r: bool)
    ensures
        r == ids@.contains(id),
{
    let mut i: usize = 0;
    while i < ids.len()
        invariant
            i <= ids@.len(),
            forall|j: int| 0 <= j < i ==> ids@[j] != id,
        decreases ids@.len() - i,
    {
        if ids[i] == id {
            return true;
        }
        i += 1;
    }
    false
}

/// Whether one point is within reach of another along each axis.
pub fn is_near(p: Position, at: Position, reach: Float64) -> (r: bool)
    ensures
        r == near(p, at, reach),
{
    p.x.minus(at.x).abs().le(reach) && p.y.minus(at.y).abs().le(reach)
}

fn is_outline_in_sight(outline: &Vec<Position>, at: Position) -> (r: bool)
    ensures
        r == outline_in_sight(outline@, at),
{
    let sight = Float64 { bits: VISIBILITY_RADIUS };
    match stretch_over(None, outline) {
        None => true,
        Some(b) => !(b.max_x.lt(at.x.minus(sight)) || at.x.plus(sight).lt(b.min_x) || b.max_y.lt(
            at.y.minus(sight),
        ) || at.y.plus(sight).lt(b.min_y)),
    }
}

impl Game {
    /// A game without players.
    pub fn new() -> (r: Game)
        ensures
            r@ == (GameView {
                players: Seq::empty(),
                next_id: 1,
                tick_count: 0,
                cells: Cells::empty(),
                cell_size: Float64 { bits: SPATIAL_CELL_SIZE },
                territory_version: 0,
                board_radius: Float64 { bits: LEAST_BOARD_RADIUS },
                target_board_radius: Float64 { bits: LEAST_BOARD_RADIUS },
                outbox: Seq::empty(),
            }),
    {
        let r = Game {
            players: Vec::new(),
            next_id: 1,
            tick_count: 0,
            spatial_hash: SpatialHash::new(Float64 { bits: SPATIAL_CELL_SIZE }),
            territory_version: 0,
            board_radius: Float64 { bits: LEAST_BOARD_RADIUS },
            target_board_radius: Float64 { bits: LEAST_BOARD_RADIUS },
            outbox: Vec::new(),
        };
        proof {
            assert(r@.players =~= Seq::empty());
            assert(r@.outbox =~= Seq::empty());
        }
        r
    }

    /// Where a player stands in the list of players.
    pub fn find(&self, id: PlayerId) -> (r: Option<usize>)
        ensures
            match r {
                Some(i) => index_of(self@.players, id) == Some(i as int) && i < self.players@.len(),
                None => index_of(self@.players, id) is None,
            },
    {
        let ghost all = self@.players;
        let mut i: usize = self.players.len();
        proof {
            assert(all.take(i as int) =~= all);
        }
        while i > 0
            invariant
                i <= self.players@.len(),
                all == self@.players,
                index_of(all.take(i as int), id) == index_of(all, id),
            decreases i,
        {
            proof {
                assert(all.take(i as int).drop_last() =~= all.take(i - 1));
                assert(all.take(i as int).last() == self.players@[i - 1]@);
            }
            i -= 1;
            if self.players[i].id == id {
                return Some(i);
            }
        }
        None
    }

    /// Put a message to a player into the outbox, if there is one of that id.
    pub fn send_to(&mut self, id: PlayerId, msg: ServerMsg)
        ensures
            final(self)@ == old(self)@.sent(id, msg@),
            final(self).players == old(self).players,
    {
        if let Some(_) = self.find(id) {
            let recipients: Vec<PlayerId> = vec![id];
            let packet = Packet { recipients, msg };
            proof {
                assert(packet@.recipients =~= seq![id]);
            }
            self.outbox.push(packet);
            proof {
                assert(self@.outbox =~= old(self)@.outbox.push(packet@));
            }
        }
    }

    /// The outlines of living players that are seen from a point.
    fn rings_seen(&self, at: Position) -> (r: Vec<TerritoryRingData>)
        ensures
            crate::protocol::ring_views(r@) == rings_in_sight(self@.players, at),
    {
        let ghost all = self@.players;
        let mut rings: Vec<TerritoryRingData> = Vec::new();
        let mut i: usize = 0;
        proof {
            assert(crate::protocol::ring_views(rings@) =~= rings_in_sight(all.take(0), at));
        }
        while i < self.players.len()
            invariant
                i <= self.players@.len(),
                all == self@.players,
                crate::protocol::ring_views(rings@) == rings_in_sight(all.take(i as int), at),
            decreases self.players@.len() - i,
        {
            let p = &self.players[i];
            let ghost earlier = rings_in_sight(all.take(i as int), at);
            proof {
                assert(all.take(i + 1).drop_last() =~= all.take(i as int));
                assert(all.take(i + 1).last() == p@);
            }
            if p.alive {
                let mut k: usize = 0;
                proof {
                    assert(earlier =~= earlier + rings_of(p@, p@.territory.take(0), at));
                }
                while k < p.territory.polygons.len()
                    invariant
                        k <= p.territory.polygons@.len(),
                        crate::protocol::ring_views(rings@) == earlier + rings_of(
                            p@,
                            p@.territory.take(k as int),
                            at,
                        ),
                    decreases p.territory.polygons@.len() - k,
                {
                    let polygon = &p.territory.polygons[k];
                    let ghost shorter = p@.territory.take(k as int);
                    proof {
                        assert(p@.territory.take(k + 1).drop_last() =~= shorter);
                        assert(p@.territory.take(k + 1).last() == polygon@);
                    }
                    if is_outline_in_sight(&polygon.exterior, at) {
                        let ring = TerritoryRingData {
                            player_id: p.id,
                            color: p.color,
                            points: polygon.exterior.clone(),
                            sprite_id: p.sprite_id,
                        };
                        let ghost before = rings@;
                        rings.push(ring);
                        proof {
                            assert(crate::protocol::ring_views(rings@)
                                =~= crate::protocol::ring_views(before).push(ring@));
                            assert(earlier + rings_of(p@, shorter, at).push(ring@) =~= (earlier
                                + rings_of(p@, shorter, at)).push(ring@));
                        }
                    }
                    k += 1;
                }
                proof {
                    assert(p@.territory.take(k as int) =~= p@.territory);
                }
            }
            i += 1;
        }
        proof {
            assert(all.take(i as int) =~= all);
        }
        rings
    }

    /// Send the territories in sight to a player that has not seen them.
    pub fn send_territory_snapshot(&mut self, viewer_id: PlayerId)
        ensures
            final(self)@ == old(self)@.snapshot_sent(viewer_id),
            final(self).players@.len() == old(self).players@.len(),
    {
        if let Some(i) = self.find(viewer_id) {
            if self.players[i].last_territory_version != self.territory_version {
                let rings = self.rings_seen(self.players[i].position);
                self.send_to(viewer_id, ServerMsg::TerritorySnapshot(rings));
                let ghost before = self@;
                self.players[i].last_territory_version = self.territory_version;
                proof {
                    assert(self@.players =~= before.players.update(
                        i as int,
                        PlayerView {
                            last_territory_version: before.territory_version,
                            ..before.players[i as int]
                        },
                    ));
                    assert(self@ =~= old(self)@.snapshot_sent(viewer_id));
                }
            }
        }
    }

    /// Send the territories in sight to each of some players.
    fn send_snapshots(&mut self, ids: &Vec<PlayerId>)
        ensures
            final(self)@ == old(self)@.snapshots_sent(ids@),
            final(self).players@.len() == old(self).players@.len(),
    {
        let mut i: usize = 0;
        while i < ids.len()
            invariant
                i <= ids@.len(),
                self@ == old(self)@.snapshots_sent(ids@.take(i as int)),
                self.players@.len() == old(self).players@.len(),
            decreases ids@.len() - i,
        {
            proof {
                assert(ids@.take(i + 1).drop_last() =~= ids@.take(i as int));
            }
            self.send_territory_snapshot(ids[i]);
            i += 1;
        }
        proof {
            assert(ids@.take(i as int) =~= ids@);
        }
    }

    /// Send the territories in sight to those near a player.
    pub fn broadcast_territory_near(&mut self, center_id: PlayerId)
        ensures
            final(self)@ == old(self)@.told_around(center_id),
            final(self).players@.len() == old(self).players@.len(),
    {
        if let Some(c) = self.find(center_id) {
            let at = self.players[c].position;
            let reach = Float64 { bits: VISIBILITY_RADIUS }.times(
                Float64 { bits: ONE_AND_A_HALF },
            );
            let candidates = self.spatial_hash.nearby(at);
            let ghost all = self@.players;
            let mut ids: Vec<PlayerId> = Vec::new();
            let mut i: usize = 0;
            while i < self.players.len()
                invariant
                    i <= self.players@.len(),
                    *self == *old(self),
                    all == self@.players,
                    reach == far_sight(),
                    ids@ == ids_near_among(all.take(i as int), candidates@, at, reach),
                decreases self.players@.len() - i,
            {
                let p = &self.players[i];
                proof {
                    assert(all.take(i + 1).drop_last() =~= all.take(i as int));
                    assert(all.take(i + 1).last() == p@);
                }
                if p.alive && holds(&candidates, p.id) && is_near(p.position, at, reach) {
                    ids.push(p.id);
                }
                i += 1;
            }
            proof {
                assert(all.take(i as int) =~= all);
            }
            self.send_snapshots(&ids);
        }
    }

    /// Give a player the credit for a kill, if there is one of that id.
    fn credit_kill(&mut self, killer_id: Option<PlayerId>)
        requires
            killer_id matches Some(id) ==> (index_of(old(self)@.players, id) matches Some(i)
                ==> old(self)@.players[i].kill_count < u32::MAX),
        ensures
            final(self)@ == old(self)@.kill_credited(killer_id),
    {
        if let Some(id) = killer_id {
            if let Some(i) = self.find(id) {
                proof {
                    assert(self@.players[i as int] == self.players@[i as int]@);
                }
                self.players[i].kill_count = self.players[i].kill_count + 1;
                if self.players[i].boost_points < MOST_BOOST_POINTS {
                    self.players[i].boost_points = self.players[i].boost_points + 1;
                }
                proof {
                    assert(self@.players =~= old(self)@.players.update(
                        i as int,
                        old(self)@.players[i as int].credited(),
                    ));
                    assert(self@ =~= old(self)@.kill_credited(killer_id));
                }
            }
        }
    }

    /// Those of a list who see a point, each once.
    fn witnesses_of(&self, found: &Vec<PlayerId>, at: Position) -> (r: Vec<PlayerId>)
        ensures
            r@ == witnesses(self@.players, found@, at),
    {
        let mut r: Vec<PlayerId> = Vec::new();
        let mut i: usize = 0;
        while i < found.len()
            invariant
                i <= found@.len(),
                r@ == witnesses(self@.players, found@.take(i as int), at),
            decreases found@.len() - i,
        {
            let id = found[i];
            proof {
                assert(found@.take(i + 1).drop_last() =~= found@.take(i as int));
            }
            let seen = match self.find(id) {
                Some(k) => {
                    proof {
                        assert(self@.players[k as int] == self.players@[k as int]@);
                    }
                    self.players[k].alive && is_near(
                        self.players[k].position,
                        at,
                        Float64 { bits: VISIBILITY_RADIUS },
                    )
                },
                None => false,
            };
            if seen && !holds(&r, id) {
                r.push(id);
            }
            i += 1;
        }
        proof {
            assert(found@.take(i as int) =~= found@);
        }
        r
    }

    /// Take a player out of the game.
    fn remove(&mut self, id: PlayerId)
        ensures
            final(self)@ == old(self)@.without(id),
    {
        if let Some(i) = self.find(id) {
            let _ = self.players.remove(i);
            proof {
                assert(self@.players =~= old(self)@.players.remove(i as int));
                assert(self@ =~= old(self)@.without(id));
            }
        }
    }

    /// Kill a player.
    pub fn kill_player(&mut self, victim_id: PlayerId, killer_id: Option<PlayerId>)
        requires
            index_of(old(self)@.players, victim_id) is Some ==> old(self).territory_version
                < u64::MAX && (killer_id matches Some(id) ==> (index_of(
                old(self)@.players,
                id,
            ) matches Some(i) ==> old(self)@.players[i].kill_count < u32::MAX)),
        ensures
            final(self)@ == old(self)@.killed(victim_id, killer_id),
    {
        let at = match self.find(victim_id) {
            Some(i) => {
                proof {
                    assert(self@.players[i as int] == self.players@[i as int]@);
                }
                self.players[i].position
            },
            None => {
                return;
            },
        };
        self.credit_kill(killer_id);
        let found = self.spatial_hash.nearby(at);
        let seen_by = self.witnesses_of(&found, at);
        let ghost credited = self@;
        let ghost msg = ServerMsgView::PlayerKilled { player_id: victim_id, killer_id };
        let mut others: Vec<PlayerId> = Vec::new();
        let mut i: usize = 0;
        while i < seen_by.len()
            invariant
                i <= seen_by@.len(),
                msg == (ServerMsgView::PlayerKilled { player_id: victim_id, killer_id }),
                self@ == credited.sent_to_each(seen_by@.take(i as int), msg),
                self.territory_version == credited.territory_version,
                others@ == without_id(seen_by@.take(i as int), victim_id),
            decreases seen_by@.len() - i,
        {
            let id = seen_by[i];
            proof {
                assert(seen_by@.take(i + 1).drop_last() =~= seen_by@.take(i as int));
            }
            self.send_to(id, ServerMsg::PlayerKilled { player_id: victim_id, killer_id });
            if id != victim_id {
                others.push(id);
            }
            i += 1;
        }
        proof {
            assert(seen_by@.take(i as int) =~= seen_by@);
        }
        self.remove(victim_id);
        self.territory_version = self.territory_version + 1;
        self.send_snapshots(&others);
    }

    /// Give the players what is left of their territories.
    pub fn carve(&mut self, left: Vec<Option<Territory>>)
        requires
            left@.len() == old(self)@.players.len(),
        ensures
            final(self)@ == (GameView {
                players: carved(old(self)@.players, shapes(left@)),
                ..old(self)@
            }),
            final(self).players@.len() == old(self).players@.len(),
    {
        let ghost all = left@;
        let ghost target = carved(old(self)@.players, shapes(all));
        let mut left = left;
        let mut i: usize = self.players.len();
        proof {
            assert(all.take(i as int) =~= all);
        }
        while i > 0
            invariant
                i <= self.players@.len(),
                all.len() == self.players@.len(),
                self.players@.len() == old(self).players@.len(),
                left@ == all.take(i as int),
                target == carved(old(self)@.players, shapes(all)),
                forall|j: int| 0 <= j < i ==> self@.players[j] == old(self)@.players[j],
                forall|j: int| i <= j < all.len() ==> self@.players[j] == #[trigger] target[j],
                self@ == (GameView { players: self@.players, ..old(self)@ }),
            decreases i,
        {
            let ghost before = self@;
            i -= 1;
            let piece = left.pop();
            proof {
                assert(piece == Some(all[i as int]));
                assert(left@ =~= all.take(i as int));
                assert(target[i as int] == match shapes(all)[i as int] {
                    Some(territory) => PlayerView { territory, ..old(self)@.players[i as int] },
                    None => old(self)@.players[i as int],
                });
                assert(before.players[i as int] == old(self)@.players[i as int]);
            }
            if let Some(Some(territory)) = piece {
                self.players[i].territory = territory;
                proof {
                    assert(self@.players =~= before.players.update(i as int, target[i as int]));
                }
            }
        }
        proof {
            assert(self@.players =~= target);
        }
    }

    /// Take in a player at a position, with what is then left of the others' territories and
    /// the areas of all.
    pub fn connect(
        &mut self,
        position: Position,
        left: Vec<Option<Territory>>,
        areas: &Vec<Float64>,
    ) -> (id: PlayerId)
        requires
            old(self).next_id < u64::MAX,
            old(self).territory_version < u64::MAX,
            left@.len() == old(self)@.players.len(),
            areas@.len() == old(self)@.players.len() + 1,
        ensures
            id == old(self)@.next_id,
            final(self)@ == old(self)@.connected(position, shapes(left@), areas@),
    {
        let id = self.next_id;
        self.next_id = id + 1;
        let color = pick_color(id);
        let square = starting_polygon(position);
        self.carve(left);
        self.territory_version = self.territory_version + 1;
        let ghost before = self@;
        let player = Player {
            id,
            position,
            angle: Float64 { bits: STOPPED },
            color,
            territory: Territory { polygons: vec![square] },
            trail: Vec::new(),
            in_territory: true,
            alive: true,
            trail_aabb: None,
            sprite_id: 0,
            name: name_of(id),
            kill_count: 0,
            boost_points: 0,
            boost_until: None,
            last_territory_version: 0,
        };
        proof {
            assert(player@.territory =~= newcomer(id, position).territory);
            assert(player@ =~= newcomer(id, position));
        }
        self.players.push(player);
        proof {
            assert(self@.players =~= before.players.push(player@));
            assert(self@ =~= old(self)@.joined(position, shapes(left@)));
        }
        self.send_to(
            id,
            ServerMsg::Welcome {
                player_id: id,
                position,
                angle: Float64 { bits: STOPPED },
                color,
            },
        );
        self.send_territory_snapshot(id);
        self.broadcast_territory_near(id);
        let board = compute_leaderboard(&self.players, areas);
        self.send_to(id, ServerMsg::Leaderboard(board));
        id
    }

    /// Take a player out of the game, and show its neighbours that its territory is gone.
    pub fn disconnect(&mut self, player_id: PlayerId)
        requires
            old(self).territory_version < u64::MAX,
        ensures
            final(self)@ == old(self)@.disconnected(player_id),
    {
        let found = self.find(player_id);
        let pos = match found {
            Some(i) => {
                proof {
                    assert(self@.players[i as int] == self.players@[i as int]@);
                }
                Some(self.players[i].position)
            },
            None => None,
        };
        self.remove(player_id);
        self.territory_version = self.territory_version + 1;
        if let Some(at) = pos {
            let reach = Float64 { bits: VISIBILITY_RADIUS }.times(
                Float64 { bits: ONE_AND_A_HALF },
            );
            let ghost all = self@.players;
            let ghost gone = self@;
            let mut ids: Vec<PlayerId> = Vec::new();
            let mut i: usize = 0;
            while i < self.players.len()
                invariant
                    i <= self.players@.len(),
                    self@ == gone,
                    all == self@.players,
                    ids@ == ids_near(all.take(i as int), at, reach),
                decreases self.players@.len() - i,
            {
                let p = &self.players[i];
                proof {
                    assert(all.take(i + 1).drop_last() =~= all.take(i as int));
                    assert(all.take(i + 1).last() == p@);
                }
                if p.alive && is_near(p.position, at, reach) {
                    ids.push(p.id);
                }
                i += 1;
            }
            proof {
                assert(all.take(i as int) =~= all);
            }
            self.send_snapshots(&ids);
        }
    }

    /// Take in a message of a player.
    pub fn input(&mut self, player_id: PlayerId, msg: ClientMsg, now: u64)
        requires
            now <= u64::MAX - BOOST_DURATION,
        ensures
            final(self)@ == old(self)@.told(player_id, msg@, now),
    {
        if let ClientMsg::Ping(timestamp) = msg {
            self.send_to(player_id, ServerMsg::Pong(timestamp));
            return;
        }
        if let Some(i) = self.find(player_id) {
            let ghost before = self@.players[i as int];
            proof {
                assert(before == self.players@[i as int]@);
            }
            match msg {
                ClientMsg::ChangeDirection(angle) => {
                    self.players[i].steer(angle);
                },
                ClientMsg::SetSprite(id) => {
                    self.players[i].sprite_id = id;
                },
                ClientMsg::SetName(name) => {
                    self.players[i].name = shorten(&name, NAME_LENGTH);
                },
                ClientMsg::ActivateBoost => {
                    if self.players[i].boost_points > 0 {
                        self.players[i].boost_points = self.players[i].boost_points - 1;
                        self.players[i].boost_until = Some(now + BOOST_DURATION);
                    }
                },
                ClientMsg::Ping(_) => {},
            }
            proof {
                assert(self@.players =~= old(self)@.players.update(
                    i as int,
                    self.players@[i as int]@,
                ));
                assert(self@ =~= old(self)@.told(player_id, msg@, now));
            }
        }
    }
}

/// What reaches a game from its players.
pub enum GameEvent {
    /// A player comes to a position: what is left of the others' territories, where a part was
    /// taken, and the areas of all, the newcomer last.
    Connect { position: Position, left: Vec<Option<Territory>>, areas: Vec<Float64> },
    /// A player leaves.
    Disconnect { player_id: PlayerId },
    /// A player says something.
    Input { player_id: PlayerId, msg: ClientMsg },
}

/// Whether a game can take in an event: no counter is at its end, and what comes with the event
/// is given for every player.
pub open spec fn can_handle(game: GameView, event: GameEvent, now: u64) -> bool {
    match event {
        GameEvent::Connect { position, left, areas } => {
            &&& game.next_id < u64::MAX
            &&& game.territory_version < u64::MAX
            &&& left@.len() == game.players.len()
            &&& areas@.len() == game.players.len() + 1
        },
        GameEvent::Disconnect { player_id } => game.territory_version < u64::MAX,
        GameEvent::Input { player_id, msg } => now <= u64::MAX - BOOST_DURATION,
    }
}

/// A game after an event.
pub open spec fn handled(game: GameView, event: GameEvent, now: u64) -> GameView {
    match event {
        GameEvent::Connect { position, left, areas } => game.connected(
            position,
            shapes(left@),
            areas@,
        ),
        GameEvent::Disconnect { player_id } => game.disconnected(player_id),
        GameEvent::Input { player_id, msg } => game.told(player_id, msg@, now),
    }
}

impl Game {
    /// Take in an event; who comes is given an id.
    pub fn handle_event(&mut self, event: GameEvent, now: u64) -> (r: Option<PlayerId>)
        requires
            can_handle(old(self)@, event, now),
        ensures
            final(self)@ == handled(old(self)@, event, now),
            r == (if event is Connect {
                Some(old(self)@.next_id)
            } else {
                None
            }),
    {
        match event {
            GameEvent::Connect { position, left, areas } => Some(
                self.connect(position, left, &areas),
            ),
            GameEvent::Disconnect { player_id } => {
                self.disconnect(player_id);
                None
            },
            GameEvent::Input { player_id, msg } => {
                self.input(player_id, msg, now);
                None
            },
        }
    }

    /// Empty the outbox.
    pub fn take_outbox(&mut self) -> (r: Vec<Packet>)
        ensures
            r@.map_values(|p: Packet| p@) == old(self)@.outbox,
            final(self)@ == (GameView { outbox: Seq::empty(), ..old(self)@ }),
    {
        let mut r: Vec<Packet> = Vec::new();
        std::mem::swap(&mut r, &mut self.outbox);
        proof {
            assert(self@.outbox =~= Seq::empty());
        }
        r
    }
}

impl Player {
    /// Go another way.
    pub fn steer(&mut self, angle: Float64)
        ensures
            final(self)@ == old(self)@.steered(angle),
    {
        if self.alive {
            let len = self.trail.len();
            if !self.in_territory && len > 0 && !self.angle.is_nan() {
                let last = self.trail[len - 1];
                let corner = Float64 { bits: CORNER_DISTANCE_SQUARED };
                if corner.lt(dist_sq(self.position, last)) {
                    self.trail.push(self.position);
                    self.update_trail_aabb();
                }
            }
            self.angle = angle;
        }
    }
}

}
