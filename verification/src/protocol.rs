//! The messages that the server and a client exchange.
use crate::float64::Float64;
use vstd::prelude::*;

verus! {

/// Names one player for the life of a server.
pub type PlayerId = u64;

/// How far a player moves in a second: 12.5.
pub const PLAYER_SPEED: u64 = 0x4029_0000_0000_0000;

/// How far a player sees along each axis: 250.
pub const VISIBILITY_RADIUS: u64 = 0x406f_4000_0000_0000;

/// Half the side of the square that a player starts with: 2.5.
pub const STARTING_TERRITORY_RADIUS: u64 = 0x4004_0000_0000_0000;

/// How many screen points one unit of the board takes at zoom 1: 30.
pub const CELL_SIZE: u64 = 0x403e_0000_0000_0000;

/// How close two players come before one dies: 0.15.
pub const KILL_DISTANCE: u64 = 0x3fc3_3333_3333_3333;

/// A point of the board.
#[derive(Debug, Clone, Copy, PartialEq, Eq, Structural)]
pub struct Position {
    pub x: Float64,
    pub y: Float64,
}

/// What a viewer is told of one player.
pub struct PlayerStateData {
    pub id: PlayerId,
    pub position: Position,
    pub angle: Float64,
    pub color: [u8; 3],
    pub trail: Vec<Position>,
    pub sprite_id: u32,
    pub has_crown: bool,
    pub boost_points: u8,
    pub boost_active: bool,
}

/// One outline of a player's territory.
pub struct TerritoryRingData {
    pub player_id: PlayerId,
    pub color: [u8; 3],
    pub points: Vec<Position>,
    pub sprite_id: u32,
}

/// One line of a leaderboard.
pub struct LeaderboardEntryData {
    pub name: String,
    pub value: u32,
}

/// The two leaderboards.
pub struct LeaderboardData {
    pub by_area: Vec<LeaderboardEntryData>,
    pub by_kills: Vec<LeaderboardEntryData>,
}

/// What a client sends.
pub enum ClientMsg {
    /// The angle in radians, or no number to stop.
    ChangeDirection(Float64),
    Ping(Float64),
    SetSprite(u32),
    SetName(String),
    ActivateBoost,
}

/// What the server sends.
pub enum ServerMsg {
    Welcome { player_id: PlayerId, position: Position, angle: Float64, color: [u8; 3] },
    Tick { players: Vec<PlayerStateData>, board_radius: Float64 },
    TerritorySnapshot(Vec<TerritoryRingData>),
    PlayerKilled { player_id: PlayerId, killer_id: Option<PlayerId> },
    Pong(Float64),
    Leaderboard(LeaderboardData),
}

/// The contents of a [`PlayerStateData`].
#[verifier::ext_equal]
pub struct PlayerStateView {
    pub id: PlayerId,
    pub position: Position,
    pub angle: Float64,
    pub color: [u8; 3],
    pub trail: Seq<Position>,
    pub sprite_id: u32,
    pub has_crown: bool,
    pub boost_points: u8,
    pub boost_active: bool,
}

/// The contents of a [`TerritoryRingData`].
#[verifier::ext_equal]
pub struct RingView {
    pub player_id: PlayerId,
    pub color: [u8; 3],
    pub points: Seq<Position>,
    pub sprite_id: u32,
}

/// The contents of a [`LeaderboardEntryData`].
#[verifier::ext_equal]
pub struct EntryView {
    pub name: Seq<char>,
    pub value: u32,
}

/// The contents of a [`LeaderboardData`].
#[verifier::ext_equal]
pub struct LeaderboardView {
    pub by_area: Seq<EntryView>,
    pub by_kills: Seq<EntryView>,
}

/// The contents of a [`ClientMsg`].
#[verifier::ext_equal]
pub enum ClientMsgView {
    ChangeDirection(Float64),
    Ping(Float64),
    SetSprite(u32),
    SetName(Seq<char>),
    ActivateBoost,
}

/// The contents of a [`ServerMsg`].
#[verifier::ext_equal]
pub enum ServerMsgView {
    Welcome { player_id: PlayerId, position: Position, angle: Float64, color: [u8; 3] },
    Tick { players: Seq<PlayerStateView>, board_radius: Float64 },
    TerritorySnapshot(Seq<RingView>),
    PlayerKilled { player_id: PlayerId, killer_id: Option<PlayerId> },
    Pong(Float64),
    Leaderboard(LeaderboardView),
}

impl View for PlayerStateData {
    type V = PlayerStateView;

    open spec fn view(&self) -> PlayerStateView {
        PlayerStateView {
            id: self.id,
            position: self.position,
            angle: self.angle,
            color: self.color,
            trail: self.trail@,
            sprite_id: self.sprite_id,
            has_crown: self.has_crown,
            boost_points: self.boost_points,
            boost_active: self.boost_active,
        }
    }
}

impl View for TerritoryRingData {
    type V = RingView;

    open spec fn view(&self) -> RingView {
        RingView {
            player_id: self.player_id,
            color: self.color,
            points: self.points@,
            sprite_id: self.sprite_id,
        }
    }
}

impl View for LeaderboardEntryData {
    type V = EntryView;

    open spec fn view(&self) -> EntryView {
        EntryView { name: self.name@, value: self.value }
    }
}

/// The contents of a list of player states.
pub open spec fn player_views(s: Seq<PlayerStateData>) -> Seq<PlayerStateView> {
    s.map_values(|p: PlayerStateData| p@)
}

/// The contents of a list of outlines.
pub open spec fn ring_views(s: Seq<TerritoryRingData>) -> Seq<RingView> {
    s.map_values(|r: TerritoryRingData| r@)
}

/// The contents of a list of leaderboard lines.
pub open spec fn entry_views(s: Seq<LeaderboardEntryData>) -> Seq<EntryView> {
    s.map_values(|e: LeaderboardEntryData| e@)
}

impl View for LeaderboardData {
    type V = LeaderboardView;

    open spec fn view(&self) -> LeaderboardView {
        LeaderboardView {
            by_area: entry_views(self.by_area@),
            by_kills: entry_views(self.by_kills@),
        }
    }
}

impl View for ClientMsg {
    type V = ClientMsgView;

    open spec fn view(&self) -> ClientMsgView {
        match self {
            ClientMsg::ChangeDirection(angle) => ClientMsgView::ChangeDirection(*angle),
            ClientMsg::Ping(timestamp) => ClientMsgView::Ping(*timestamp),
            ClientMsg::SetSprite(id) => ClientMsgView::SetSprite(*id),
            ClientMsg::SetName(name) => ClientMsgView::SetName(name@),
            ClientMsg::ActivateBoost => ClientMsgView::ActivateBoost,
        }
    }
}

impl View for ServerMsg {
    type V = ServerMsgView;

    open spec fn view(&self) -> ServerMsgView {
        match self {
            ServerMsg::Welcome { player_id, position, angle, color } => ServerMsgView::Welcome {
                player_id: *player_id,
                position: *position,
                angle: *angle,
                color: *color,
            },
            ServerMsg::Tick { players, board_radius } => ServerMsgView::Tick {
                players: player_views(players@),
                board_radius: *board_radius,
            },
            ServerMsg::TerritorySnapshot(rings) => ServerMsgView::TerritorySnapshot(
                ring_views(rings@),
            ),
            ServerMsg::PlayerKilled { player_id, killer_id } => ServerMsgView::PlayerKilled {
                player_id: *player_id,
                killer_id: *killer_id,
            },
            ServerMsg::Pong(timestamp) => ServerMsgView::Pong(*timestamp),
            ServerMsg::Leaderboard(board) => ServerMsgView::Leaderboard(board@),
        }
    }
}

}
