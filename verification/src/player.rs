//! A player, as the server keeps it.
use crate::float64::Float64;
use crate::geometry::{enclose, Aabb, PolygonView, Territory};
use crate::protocol::{PlayerId, PlayerStateData, PlayerStateView, Position};
use vstd::prelude::*;

verus! {

/// A player of the game.
pub struct Player {
    pub id: PlayerId,
    pub position: Position,
    /// Where the player is heading, in radians; no number while it stands.
    pub angle: Float64,
    pub color: [u8; 3],
    pub territory: Territory,
    /// The corners of the way since the player left its territory.
    pub trail: Vec<Position>,
    /// Whether the player was in its territory at the last tick.
    pub in_territory: bool,
    pub alive: bool,
    /// The box around the trail.
    pub trail_aabb: Option<Aabb>,
    pub sprite_id: u32,
    pub name: String,
    pub kill_count: u32,
    pub boost_points: u8,
    /// When the boost in use ends, in nanoseconds.
    pub boost_until: Option<u64>,
    /// The version of the territories that the player was sent last.
    pub last_territory_version: u64,
}

/// The contents of a [`Player`].
#[verifier::ext_equal]
pub struct PlayerView {
    pub id: PlayerId,
    pub position: Position,
    pub angle: Float64,
    pub color: [u8; 3],
    pub territory: Seq<PolygonView>,
    pub trail: Seq<Position>,
    pub in_territory: bool,
    pub alive: bool,
    pub trail_aabb: Option<Aabb>,
    pub sprite_id: u32,
    pub name: Seq<char>,
    pub kill_count: u32,
    pub boost_points: u8,
    pub boost_until: Option<u64>,
    pub last_territory_version: u64,
}

impl View for Player {
    type V = PlayerView;

    open spec fn view(&self) -> PlayerView {
        PlayerView {
            id: self.id,
            position: self.position,
            angle: self.angle,
            color: self.color,
            territory: self.territory@,
            trail: self.trail@,
            in_territory: self.in_territory,
            alive: self.alive,
            trail_aabb: self.trail_aabb,
            sprite_id: self.sprite_id,
            name: self.name@,
            kill_count: self.kill_count,
            boost_points: self.boost_points,
            boost_until: self.boost_until,
            last_territory_version: self.last_territory_version,
        }
    }
}

/// The contents of a list of players.
pub open spec fn contents(players: Seq<Player>) -> Seq<PlayerView> {
    players.map_values(|p: Player| p@)
}

impl PlayerView {
    /// The box around the trail and the way on from it to the player.
    pub open spec fn trail_box(self) -> Aabb {
        crate::geometry::enclosing(self.trail).widened(self.position)
    }

    /// The player with the box around its trail brought up to date.
    pub open spec fn with_trail_box(self) -> PlayerView {
        PlayerView {
            trail_aabb: if self.trail.len() == 0 {
                None
            } else {
                Some(self.trail_box())
            },
            ..self
        }
    }

    /// The player without a trail.
    pub open spec fn without_trail(self) -> PlayerView {
        PlayerView { trail: Seq::empty(), trail_aabb: None, ..self }
    }

    /// Whether a boost is in use.
    pub open spec fn boosted(self, now: u64) -> bool {
        self.boost_until is Some && now < self.boost_until.unwrap()
    }

    /// What a viewer is told of the player: outside its territory the trail is shown up to the
    /// player, inside none is.
    pub open spec fn shown(self, crowned: bool, now: u64) -> PlayerStateView {
        PlayerStateView {
            id: self.id,
            position: self.position,
            angle: self.angle,
            color: self.color,
            trail: if self.in_territory || self.trail.len() == 0 {
                Seq::empty()
            } else {
                self.trail.push(self.position)
            },
            sprite_id: self.sprite_id,
            has_crown: crowned,
            boost_points: self.boost_points,
            boost_active: self.boosted(now),
        }
    }
}

impl Player {
    /// The box around the trail and the way on from it to the player.
    pub fn trail_bounds(&self) -> (r: Aabb)
        ensures
            r == self@.trail_box(),
    {
        enclose(&self.trail).widened(self.position)
    }

    /// Bring the box around the trail up to date.
    pub fn update_trail_aabb(&mut self)
        ensures
            final(self)@ == old(self)@.with_trail_box(),
    {
        if self.trail.len() == 0 {
            self.trail_aabb = None;
        } else {
            self.trail_aabb = Some(self.trail_bounds());
        }
    }

    /// Forget the trail.
    pub fn clear_trail(&mut self)
        ensures
            final(self)@ == old(self)@.without_trail(),
    {
        self.trail.clear();
        self.trail_aabb = None;
    }

    /// Whether a boost is in use.
    pub fn boost_active(&self, now: u64) -> (r: bool)
        ensures
            r == self@.boosted(now),
    {
        match self.boost_until {
            Some(until) => now < until,
            None => false,
        }
    }

    /// What a viewer is told of the player.
    pub fn state_data(&self, crowned: bool, now: u64) -> (r: PlayerStateData)
        ensures
            r@ == self@.shown(crowned, now),
    {
        let trail = if self.in_territory || self.trail.len() == 0 {
            Vec::new()
        } else {
            let mut trail = self.trail.clone();
            trail.push(self.position);
            trail
        };
        PlayerStateData {
            id: self.id,
            position: self.position,
            angle: self.angle,
            color: self.color,
            trail,
            sprite_id: self.sprite_id,
            has_crown: crowned,
            boost_points: self.boost_points,
            boost_active: self.boost_active(now),
        }
    }
}

}
