//! One tick of a game: the board breathes, players move, leave and come back, cut trails, capture
//! and die.
use crate::float64::Float64;
use crate::game::{Game, GameView, ONE_AND_A_HALF, LEAST_BOARD_RADIUS};
use crate::geometry::{boundary_crossing, segments_cross, Aabb, ZERO};
use crate::player::{Player, PlayerView};
use crate::protocol::{PlayerId, Position, PLAYER_SPEED};
use crate::ranking::count_below;
use crate::spatial_hash::Cells;
use vstd::prelude::*;

verus! {

/// The radius of the board per root of the number of players: 30.
pub const BOARD_SCALE: u64 = 0x403e_0000_0000_0000;

/// The part of the way to its target that the radius of the board goes in a tick: 0.02.
pub const BOARD_EASING: u64 = 0x3f94_7ae1_47ae_147b;

/// How a player moves in a tick: the direction and the speed in units of the common one.
#[derive(Clone, Copy, Debug, PartialEq, Eq, Structural)]
pub struct Motion {
    pub cos: Float64,
    pub sin: Float64,
    pub factor: Float64,
}

/// A death, and who is to be credited with it.
#[derive(Clone, Copy, Debug, PartialEq, Eq, Structural)]
pub struct Kill {
    pub victim: PlayerId,
    pub killer: Option<PlayerId>,
}

// ---------------------------------------------------------------------------------------------
// The start of a tick
// ---------------------------------------------------------------------------------------------

/// How many players live.
pub open spec fn living(players: Seq<PlayerView>) -> nat
    decreases players.len(),
{
    if players.len() == 0 {
        0
    } else {
        living(players.drop_last()) + if players.last().alive {
            1nat
        } else {
            0nat
        }
    }
}

/// The radius of the board for a number of players.
pub open spec fn radius_for(living: nat) -> Float64 {
    (Float64 { bits: BOARD_SCALE }).times(
        crate::float64::count(
            if living > 1 {
                living
            } else {
                1
            },
        ).sqrt(),
    ).max(Float64 { bits: LEAST_BOARD_RADIUS })
}

/// The grid with the living players entered.
pub open spec fn entered(cell_size: Float64, players: Seq<PlayerView>) -> Cells
    decreases players.len(),
{
    if players.len() == 0 {
        Cells::empty()
    } else {
        let earlier = entered(cell_size, players.drop_last());
        let p = players.last();
        if p.alive {
            crate::spatial_hash::with_player(
                earlier,
                crate::spatial_hash::cell_of(cell_size, p.position),
                p.id,
            )
        } else {
            earlier
        }
    }
}

impl GameView {
    /// At the start of a tick: the board is nearer to its target, the grid is up to date.
    pub open spec fn begun(self) -> GameView {
        let target = radius_for(living(self.players));
        GameView {
            tick_count: (self.tick_count + 1) as u64,
            target_board_radius: target,
            board_radius: self.board_radius.plus(
                target.minus(self.board_radius).times(Float64 { bits: BOARD_EASING }),
            ),
            cells: entered(self.cell_size, self.players),
            ..self
        }
    }
}

// ---------------------------------------------------------------------------------------------
// Movement
// ---------------------------------------------------------------------------------------------

impl PlayerView {
    /// Whether the player moves.
    pub open spec fn moving(self) -> bool {
        self.alive && !self.angle.is_nan()
    }

    /// The player after a movement; a boost makes it faster as long as it lasts.
    pub open spec fn moved(self, motion: Motion, dt: Float64, now: u64) -> PlayerView {
        if !self.moving() {
            self
        } else {
            let factor = if self.boosted(now) {
                motion.factor.times(Float64 { bits: ONE_AND_A_HALF })
            } else {
                motion.factor
            };
            let speed = Float64 { bits: PLAYER_SPEED };
            let there = PlayerView {
                boost_until: if self.boosted(now) {
                    self.boost_until
                } else {
                    None
                },
                position: Position {
                    x: self.position.x.plus(motion.cos.times(speed).times(factor).times(dt)),
                    y: self.position.y.plus(motion.sin.times(speed).times(factor).times(dt)),
                },
                ..self
            };
            if !there.in_territory && there.trail.len() > 0 {
                there.with_trail_box()
            } else {
                there
            }
        }
    }

    /// Where the player was before a movement.
    pub open spec fn left_from(self) -> Option<Position> {
        if self.moving() {
            Some(self.position)
        } else {
            None
        }
    }

    /// Where the player went over the edge of its territory on its way from a point.
    pub open spec fn edge(self, before_move: Option<Position>) -> Position {
        match before_move {
            None => self.position,
            Some(from) => match crate::geometry::boundary_point(
                from,
                self.position,
                self.territory,
            ) {
                Some(p) => p,
                None => self.position,
            },
        }
    }

    /// Whether the player, now inside its territory or not, comes back with a trail.
    pub open spec fn comes_back(self, inside: bool) -> bool {
        self.alive && !self.in_territory && inside && self.trail.len() >= 2
    }

    /// The player after it was found inside its territory or not: a trail starts at the edge
    /// where it leaves and ends at the edge where it comes back.
    pub open spec fn placed(self, before_move: Option<Position>, inside: bool) -> PlayerView {
        if !self.alive {
            self
        } else if self.in_territory && !inside {
            PlayerView {
                in_territory: false,
                trail: seq![self.edge(before_move)],
                ..self
            }.with_trail_box()
        } else if self.comes_back(inside) {
            PlayerView {
                trail: self.trail.push(self.edge(before_move)),
                in_territory: true,
                trail_aabb: None,
                ..self
            }
        } else if !self.in_territory && inside {
            PlayerView { in_territory: true, ..self }.without_trail()
        } else {
            self
        }
    }
}

/// The players after a movement of each.
pub open spec fn all_moved(
    players: Seq<PlayerView>,
    motions: Seq<Motion>,
    dt: Float64,
    now: u64,
) -> Seq<PlayerView> {
    Seq::new(players.len(), |i: int| players[i].moved(motions[i], dt, now))
}

/// Where the players were before a movement.
pub open spec fn all_left_from(players: Seq<PlayerView>) -> Seq<Option<Position>> {
    Seq::new(players.len(), |i: int| players[i].left_from())
}

/// The players after each was found inside its territory or not.
pub open spec fn all_placed(
    players: Seq<PlayerView>,
    olds: Seq<Option<Position>>,
    inside: Seq<bool>,
) -> Seq<PlayerView> {
    Seq::new(players.len(), |i: int| players[i].placed(olds[i], inside[i]))
}

/// The players who come back with a trail.
pub open spec fn returning(players: Seq<PlayerView>, inside: Seq<bool>) -> Seq<PlayerId>
    decreases players.len(),
{
    if players.len() == 0 {
        Seq::empty()
    } else {
        let n = players.len() - 1;
        let earlier = returning(players.drop_last(), inside);
        if players[n].comes_back(inside[n]) {
            earlier.push(players[n].id)
        } else {
            earlier
        }
    }
}

// ---------------------------------------------------------------------------------------------
// Cut trails
// ---------------------------------------------------------------------------------------------

/// Whether a movement cuts one side of a trail.
pub open spec fn cuts(from: Position, to: Position, trail: Seq<Position>, i: int) -> bool {
    crate::geometry::crossing(from, to, trail[i], trail[i + 1])
}

/// The box around a movement.
pub open spec fn way_box(from: Position, to: Position) -> Aabb {
    Aabb {
        min_x: to.x.min(from.x),
        min_y: to.y.min(from.y),
        max_x: to.x.max(from.x),
        max_y: to.y.max(from.y),
    }
}

impl PlayerView {
    /// Whether the movement from a point cuts the player's own trail; the sides next to the
    /// player do not count.
    pub open spec fn cuts_itself(self, from: Position) -> bool {
        &&& !self.in_territory
        &&& self.trail.len() >= 3
        &&& exists|i: int|
            0 <= i < self.trail.len() - 3 && #[trigger] cuts(from, self.position, self.trail, i)
    }

    /// Whether a movement cuts the player's trail or the way on from it to the player.
    pub open spec fn is_cut(self, from: Position, to: Position) -> bool {
        &&& self.alive
        &&& self.trail.len() >= 2
        &&& !way_box(from, to).apart(self.trail_box())
        &&& (crate::geometry::crossing(from, to, self.trail.last(), self.position) || exists|i: int|
            0 <= i < self.trail.len() - 1 && #[trigger] cuts(from, to, self.trail, i))
    }
}

/// The kills that a player's movement from a point makes among the first `n` players.
pub open spec fn kills_among(players: Seq<PlayerView>, me: int, from: Position, n: int) -> Seq<Kill>
    decreases n,
{
    if n <= 0 {
        Seq::empty()
    } else {
        let earlier = kills_among(players, me, from, n - 1);
        let other = players[n - 1];
        if other.id != players[me].id && other.is_cut(from, players[me].position) {
            earlier.push(Kill { victim: other.id, killer: Some(players[me].id) })
        } else {
            earlier
        }
    }
}

/// The kills that one player's movement makes: its own death, or that of others.
pub open spec fn kills_of(
    players: Seq<PlayerView>,
    me: int,
    before_move: Option<Position>,
) -> Seq<Kill> {
    match before_move {
        None => Seq::empty(),
        Some(from) => if !players[me].alive {
            Seq::empty()
        } else if players[me].cuts_itself(from) {
            seq![Kill { victim: players[me].id, killer: None }]
        } else {
            kills_among(players, me, from, players.len() as int)
        },
    }
}

/// The kills that the movements of the first `n` players make.
pub open spec fn kills_made(players: Seq<PlayerView>, olds: Seq<Option<Position>>, n: int) -> Seq<
    Kill,
>
    decreases n,
{
    if n <= 0 {
        Seq::empty()
    } else {
        kills_made(players, olds, n - 1) + kills_of(players, n - 1, olds[n - 1])
    }
}

fn trail_cut(from: Position, to: Position, trail: &Vec<Position>, sides: usize) -> (r: bool)
    requires
        sides < trail@.len() || sides == 0,
    ensures
        r == exists|i: int| 0 <= i < sides && #[trigger] cuts(from, to, trail@, i),
{
    let mut i: usize = 0;
    while i < sides
        invariant
            i <= sides,
            sides < trail@.len() || sides == 0,
            forall|j: int| 0 <= j < i ==> !#[trigger] cuts(from, to, trail@, j),
        decreases sides - i,
    {
        if segments_cross(from, to, trail[i], trail[i + 1]) {
            proof {
                assert(cuts(from, to, trail@, i as int));
            }
            return true;
        }
        proof {
            assert(!cuts(from, to, trail@, i as int));
        }
        i += 1;
    }
    false
}

impl Player {
    /// Move in a tick.
    pub fn go(&mut self, motion: Motion, dt: Float64, now: u64) -> (before_move: Option<Position>)
        ensures
            final(self)@ == old(self)@.moved(motion, dt, now),
            before_move == old(self)@.left_from(),
    {
        if !self.alive || self.angle.is_nan() {
            return None;
        }
        let mut factor = motion.factor;
        if self.boost_active(now) {
            factor = factor.times(Float64 { bits: ONE_AND_A_HALF });
        } else {
            self.boost_until = None;
        }
        let from = self.position;
        let speed = Float64 { bits: PLAYER_SPEED };
        self.position = Position {
            x: from.x.plus(motion.cos.times(speed).times(factor).times(dt)),
            y: from.y.plus(motion.sin.times(speed).times(factor).times(dt)),
        };
        if !self.in_territory && self.trail.len() > 0 {
            self.update_trail_aabb();
        }
        Some(from)
    }

    fn edge_crossed(&self, before_move: Option<Position>) -> (r: Position)
        ensures
            r == self@.edge(before_move),
    {
        match before_move {
            None => self.position,
            Some(from) => match boundary_crossing(from, self.position, &self.territory) {
                Some(p) => p,
                None => self.position,
            },
        }
    }

    /// Note whether the player is inside its territory; whether it came back with a trail.
    pub fn place(&mut self, before_move: Option<Position>, inside: bool) -> (returned: bool)
        ensures
            final(self)@ == old(self)@.placed(before_move, inside),
            returned == old(self)@.comes_back(inside),
    {
        if !self.alive {
            return false;
        }
        if self.in_territory && !inside {
            let exit_point = self.edge_crossed(before_move);
            self.in_territory = false;
            self.trail.clear();
            self.trail.push(exit_point);
            proof {
                assert(self.trail@ =~= seq![exit_point]);
            }
            self.update_trail_aabb();
            false
        } else if !self.in_territory && inside && self.trail.len() >= 2 {
            let entry_point = self.edge_crossed(before_move);
            self.trail.push(entry_point);
            self.in_territory = true;
            self.trail_aabb = None;
            true
        } else if !self.in_territory && inside {
            self.in_territory = true;
            self.clear_trail();
            false
        } else {
            false
        }
    }

    fn cut_itself(&self, from: Position) -> (r: bool)
        ensures
            r == self@.cuts_itself(from),
    {
        let len = self.trail.len();
        if self.in_territory || len < 3 {
            return false;
        }
        let cut = trail_cut(from, self.position, &self.trail, len - 3);
        proof {
            if cut {
                let i = choose|i: int|
                    0 <= i < len - 3 && #[trigger] cuts(from, self.position, self.trail@, i);
                assert(cuts(from, self@.position, self@.trail, i));
            }
        }
        cut
    }

    fn was_cut(&self, from: Position, to: Position) -> (r: bool)
        ensures
            r == self@.is_cut(from, to),
    {
        if !self.alive || self.trail.len() < 2 {
            return false;
        }
        let way = Aabb {
            min_x: to.x.min(from.x),
            min_y: to.y.min(from.y),
            max_x: to.x.max(from.x),
            max_y: to.y.max(from.y),
        };
        if way.apart(self.trail_bounds()) {
            return false;
        }
        let len = self.trail.len();
        trail_cut(from, to, &self.trail, len - 1) || segments_cross(
            from,
            to,
            self.trail[len - 1],
            self.position,
        )
    }
}

impl Game {
    /// Count the living players.
    fn count_living(&self) -> (r: u64)
        requires
            self@.players.len() <= u32::MAX,
        ensures
            r == living(self@.players),
    {
        let ghost all = self@.players;
        let mut r: u64 = 0;
        let mut i: usize = 0;
        while i < self.players.len()
            invariant
                i <= self.players@.len() <= u32::MAX,
                all == self@.players,
                r == living(all.take(i as int)),
                r <= i,
            decreases self.players@.len() - i,
        {
            proof {
                assert(all.take(i + 1).drop_last() =~= all.take(i as int));
                assert(all.take(i + 1).last() == self.players@[i as int]@);
            }
            if self.players[i].alive {
                r = r + 1;
            }
            i += 1;
        }
        proof {
            assert(all.take(i as int) =~= all);
        }
        r
    }

    /// Enter the living players into the grid anew.
    pub fn rebuild_spatial_hash(&mut self)
        ensures
            final(self)@ == (GameView {
                cells: entered(old(self)@.cell_size, old(self)@.players),
                ..old(self)@
            }),
            final(self).players == old(self).players,
    {
        let ghost all = self@.players;
        self.spatial_hash.clear();
        let mut i: usize = 0;
        while i < self.players.len()
            invariant
                i <= self.players@.len(),
                all == self@.players,
                self.players == old(self).players,
                self@ == (GameView {
                    cells: entered(old(self)@.cell_size, all.take(i as int)),
                    ..old(self)@
                }),
            decreases self.players@.len() - i,
        {
            proof {
                assert(all.take(i + 1).drop_last() =~= all.take(i as int));
                assert(all.take(i + 1).last() == self.players@[i as int]@);
            }
            if self.players[i].alive {
                self.spatial_hash.insert(self.players[i].id, self.players[i].position);
            }
            i += 1;
        }
        proof {
            assert(all.take(i as int) =~= all);
        }
    }

    /// Begin a tick with the areas of all players; how many stand below each, by area or by kills,
    /// which makes it faster.
    pub fn begin_update(&mut self, areas: &Vec<Float64>) -> (r: Vec<u64>)
        requires
            old(self).tick_count < u64::MAX,
            old(self)@.players.len() <= u32::MAX,
            areas@.len() == old(self)@.players.len(),
        ensures
            final(self)@ == old(self)@.begun(),
            final(self).players == old(self).players,
            r@.len() == old(self)@.players.len(),
            forall|i: int|
                0 <= i < r@.len() ==> #[trigger] r@[i] == crate::ranking::below(
                    old(self)@.players,
                    areas@,
                    i,
                ),
    {
        self.tick_count = self.tick_count + 1;
        let alive = self.count_living();
        let counted: u64 = if alive > 1 {
            alive
        } else {
            1
        };
        self.target_board_radius = Float64 { bits: BOARD_SCALE }.times(
            Float64::from_count(counted).sqrt(),
        ).max(Float64 { bits: LEAST_BOARD_RADIUS });
        self.board_radius = self.board_radius.plus(
            self.target_board_radius.minus(self.board_radius).times(
                Float64 { bits: BOARD_EASING },
            ),
        );
        self.rebuild_spatial_hash();
        count_below(&self.players, areas)
    }

    /// Move the players; where they were.
    pub fn move_players(&mut self, motions: &Vec<Motion>, dt: Float64, now: u64) -> (r: Vec<
        Option<Position>,
    >)
        requires
            motions@.len() == old(self)@.players.len(),
        ensures
            final(self)@ == (GameView {
                players: all_moved(old(self)@.players, motions@, dt, now),
                ..old(self)@
            }),
            r@ == all_left_from(old(self)@.players),
    {
        let ghost target = all_moved(old(self)@.players, motions@, dt, now);
        let mut olds: Vec<Option<Position>> = Vec::new();
        let mut i: usize = 0;
        while i < self.players.len()
            invariant
                i <= self.players@.len(),
                self.players@.len() == old(self).players@.len(),
                motions@.len() == self.players@.len(),
                target == all_moved(old(self)@.players, motions@, dt, now),
                forall|j: int| 0 <= j < i ==> self@.players[j] == #[trigger] target[j],
                forall|j: int|
                    i <= j < self.players@.len() ==> self@.players[j] == old(self)@.players[j],
                self@ == (GameView { players: self@.players, ..old(self)@ }),
                olds@ =~= all_left_from(old(self)@.players).take(i as int),
            decreases self.players@.len() - i,
        {
            let ghost before = self@;
            proof {
                assert(before.players[i as int] == self.players@[i as int]@);
                assert(target[i as int] == old(self)@.players[i as int].moved(
                    motions@[i as int],
                    dt,
                    now,
                ));
            }
            let old_pos = self.players[i].go(motions[i], dt, now);
            olds.push(old_pos);
            proof {
                assert(self@.players =~= before.players.update(i as int, target[i as int]));
            }
            i += 1;
        }
        proof {
            assert(self@.players =~= target);
        }
        olds
    }

    /// Note who is inside its territory; who came back with a trail.
    pub fn place_players(&mut self, olds: &Vec<Option<Position>>, inside: &Vec<bool>) -> (r: Vec<
        PlayerId,
    >)
        requires
            olds@.len() == old(self)@.players.len(),
            inside@.len() == old(self)@.players.len(),
        ensures
            final(self)@ == (GameView {
                players: all_placed(old(self)@.players, olds@, inside@),
                ..old(self)@
            }),
            r@ == returning(old(self)@.players, inside@),
    {
        let ghost all = old(self)@.players;
        let ghost target = all_placed(all, olds@, inside@);
        let mut captures: Vec<PlayerId> = Vec::new();
        let mut i: usize = 0;
        while i < self.players.len()
            invariant
                i <= self.players@.len(),
                all == old(self)@.players,
                self.players@.len() == old(self).players@.len(),
                olds@.len() == self.players@.len(),
                inside@.len() == self.players@.len(),
                target == all_placed(all, olds@, inside@),
                forall|j: int| 0 <= j < i ==> self@.players[j] == #[trigger] target[j],
                forall|j: int| i <= j < self.players@.len() ==> self@.players[j] == all[j],
                self@ == (GameView { players: self@.players, ..old(self)@ }),
                captures@ == returning(all.take(i as int), inside@),
            decreases self.players@.len() - i,
        {
            let ghost before = self@;
            proof {
                assert(before.players[i as int] == self.players@[i as int]@);
                assert(target[i as int] == all[i as int].placed(
                    olds@[i as int],
                    inside@[i as int],
                ));
                assert(all.take(i + 1).drop_last() =~= all.take(i as int));
                assert(all.take(i + 1)[i as int] == all[i as int]);
            }
            if self.players[i].place(olds[i], inside[i]) {
                captures.push(self.players[i].id);
            }
            proof {
                assert(self@.players =~= before.players.update(i as int, target[i as int]));
            }
            i += 1;
        }
        proof {
            assert(self@.players =~= target);
            assert(all.take(i as int) =~= all);
        }
        captures
    }

    /// The kills that the movements made.
    pub fn detect_kills(&self, olds: &Vec<Option<Position>>) -> (r: Vec<Kill>)
        requires
            olds@.len() == self@.players.len(),
        ensures
            r@ == kills_made(self@.players, olds@, self@.players.len() as int),
    {
        let ghost all = self@.players;
        let mut kills: Vec<Kill> = Vec::new();
        let mut i: usize = 0;
        while i < self.players.len()
            invariant
                i <= self.players@.len(),
                olds@.len() == self.players@.len(),
                all == self@.players,
                kills@ == kills_made(all, olds@, i as int),
            decreases self.players@.len() - i,
        {
            let p = &self.players[i];
            let ghost earlier = kills@;
            proof {
                assert(all[i as int] == p@);
                assert(kills_made(all, olds@, i + 1) == earlier + kills_of(
                    all,
                    i as int,
                    olds@[i as int],
                ));
            }
            match olds[i] {
                Some(from) => {
                    if p.alive {
                        if p.cut_itself(from) {
                            kills.push(Kill { victim: p.id, killer: None });
                            proof {
                                assert(kills@ =~= earlier + seq![
                                    Kill { victim: p.id, killer: None },
                                ]);
                            }
                        } else {
                            let mut j: usize = 0;
                            proof {
                                assert(kills@ =~= earlier + kills_among(all, i as int, from, 0));
                            }
                            while j < self.players.len()
                                invariant
                                    j <= self.players@.len(),
                                    i < self.players@.len(),
                                    all == self@.players,
                                    p == self.players@[i as int],
                                    all[i as int] == p@,
                                    kills@ == earlier + kills_among(
                                        all,
                                        i as int,
                                        from,
                                        j as int,
                                    ),
                                decreases self.players@.len() - j,
                            {
                                let other = &self.players[j];
                                let ghost so_far = kills_among(all, i as int, from, j as int);
                                proof {
                                    assert(all[j as int] == other@);
                                }
                                if other.id != p.id && other.was_cut(from, p.position) {
                                    let kill = Kill { victim: other.id, killer: Some(p.id) };
                                    kills.push(kill);
                                    proof {
                                        assert(kills@ =~= earlier + so_far.push(kill));
                                    }
                                }
                                j += 1;
                            }
                        }
                    } else {
                        proof {
                            assert(earlier =~= earlier + Seq::<Kill>::empty());
                        }
                    }
                },
                None => {
                    proof {
                        assert(earlier =~= earlier + Seq::<Kill>::empty());
                    }
                },
            }
            i += 1;
        }
        kills
    }
}

// ---------------------------------------------------------------------------------------------
// The end of a tick
// ---------------------------------------------------------------------------------------------

/// Whether no counter comes to its end in the next tick.
pub open spec fn ready(game: GameView) -> bool {
    &&& game.tick_count < u64::MAX
    &&& game.players.len() <= u32::MAX
    &&& crate::capture::has_room_for(game, game.players.len() as int)
}

/// Whether some kills hold one of a player.
pub open spec fn among_victims(kills: Seq<Kill>, victim: PlayerId) -> bool {
    exists|i: int| 0 <= i < kills.len() && (#[trigger] kills[i]).victim == victim
}

impl PlayerView {
    /// The player on the board: who is beyond the edge is put onto it, in the same direction.
    pub open spec fn held_within(self, radius: Float64) -> PlayerView {
        let dist = self.position.x.times(self.position.x).plus(
            self.position.y.times(self.position.y),
        ).sqrt();
        if self.alive && radius.lt(dist) && (Float64 { bits: ZERO }).lt(dist) {
            PlayerView {
                position: Position {
                    x: self.position.x.over(dist).times(radius),
                    y: self.position.y.over(dist).times(radius),
                },
                ..self
            }
        } else {
            self
        }
    }
}

impl GameView {
    /// With some kills done, the first of each victim.
    pub open spec fn kills_done(self, kills: Seq<Kill>) -> GameView
        decreases kills.len(),
    {
        if kills.len() == 0 {
            self
        } else {
            let earlier = self.kills_done(kills.drop_last());
            if among_victims(kills.drop_last(), kills.last().victim) {
                earlier
            } else {
                earlier.killed(kills.last().victim, kills.last().killer)
            }
        }
    }

    /// With every player on the board.
    pub open spec fn held_on_board(self) -> GameView {
        GameView {
            players: Seq::new(
                self.players.len(),
                |i: int| self.players[i].held_within(self.board_radius),
            ),
            ..self
        }
    }
}

impl Player {
    /// Keep the player on the board.
    pub fn hold_within(&mut self, radius: Float64)
        ensures
            final(self)@ == old(self)@.held_within(radius),
    {
        if self.alive {
            let dist = self.position.x.times(self.position.x).plus(
                self.position.y.times(self.position.y),
            ).sqrt();
            if radius.lt(dist) && (Float64 { bits: ZERO }).lt(dist) {
                self.position = Position {
                    x: self.position.x.over(dist).times(radius),
                    y: self.position.y.over(dist).times(radius),
                };
            }
        }
    }
}

impl Game {
    /// Whether no counter comes to its end in the next tick.
    pub fn has_room(&self) -> (r: bool)
        ensures
            r == ready(self@),
    {
        let n = self.players.len();
        if self.tick_count == u64::MAX || n > u32::MAX as usize {
            return false;
        }
        let twice: u64 = 2 * n as u64;
        if self.territory_version > u64::MAX - twice {
            return false;
        }
        let most: u32 = u32::MAX - n as u32;
        let mut i: usize = 0;
        while i < n
            invariant
                i <= n == self.players@.len() <= u32::MAX,
                most == u32::MAX - n,
                forall|j: int|
                    0 <= j < i ==> (#[trigger] self@.players[j]).kill_count + n <= u32::MAX,
            decreases n - i,
        {
            proof {
                assert(self@.players[i as int] == self.players@[i as int]@);
            }
            if self.players[i].kill_count > most {
                return false;
            }
            i += 1;
        }
        true
    }

    /// Do the kills, the first of each victim.
    fn do_kills(&mut self, kills: &Vec<Kill>)
        requires
            crate::capture::has_room_for(old(self)@, 0),
        ensures
            final(self)@ == old(self)@.kills_done(kills@),
    {
        let mut i: usize = 0;
        while i < kills.len()
            invariant
                i <= kills@.len(),
                self@ == old(self)@.kills_done(kills@.take(i as int)),
                crate::capture::has_room_for(self@, 0),
            decreases kills@.len() - i,
        {
            let kill = kills[i];
            let ghost before = self@;
            proof {
                assert(kills@.take(i + 1).drop_last() =~= kills@.take(i as int));
                crate::game::lemma_index_of(before.players, kill.victim);
                if let Some(id) = kill.killer {
                    crate::game::lemma_index_of(before.players, id);
                }
                crate::capture::lemma_killed_leaves_room(before, kill.victim, kill.killer, 0);
            }
            let mut done = false;
            let mut j: usize = 0;
            while j < i && !done
                invariant
                    j <= i < kills@.len(),
                    done == among_victims(kills@.take(j as int), kill.victim),
                decreases i - j,
            {
                proof {
                    let longer = kills@.take(j + 1);
                    assert(longer[j as int] == kills@[j as int]);
                    assert(forall|k: int| 0 <= k < j ==> kills@.take(j as int)[k] == longer[k]);
                }
                done = kills[j].victim == kill.victim;
                j += 1;
            }
            proof {
                if done {
                    let k = choose|k: int|
                        0 <= k < j && (#[trigger] kills@.take(j as int)[k]).victim == kill.victim;
                    assert(kills@.take(i as int)[k].victim == kill.victim);
                }
            }
            if !done {
                self.kill_player(kill.victim, kill.killer);
            }
            i += 1;
        }
        proof {
            assert(kills@.take(i as int) =~= kills@);
        }
    }

    /// Keep every player on the board.
    fn hold_players(&mut self)
        ensures
            final(self)@ == old(self)@.held_on_board(),
    {
        let ghost target = self@.held_on_board().players;
        let radius = self.board_radius;
        let mut i: usize = 0;
        while i < self.players.len()
            invariant
                i <= self.players@.len(),
                self.players@.len() == old(self).players@.len(),
                radius == old(self)@.board_radius,
                target == old(self)@.held_on_board().players,
                forall|j: int| 0 <= j < i ==> self@.players[j] == #[trigger] target[j],
                forall|j: int|
                    i <= j < self.players@.len() ==> self@.players[j] == old(self)@.players[j],
                self@ == (GameView { players: self@.players, ..old(self)@ }),
            decreases self.players@.len() - i,
        {
            let ghost before = self@;
            proof {
                assert(before.players[i as int] == self.players@[i as int]@);
                assert(target[i as int] == old(self)@.players[i as int].held_within(radius));
            }
            self.players[i].hold_within(radius);
            proof {
                assert(self@.players =~= before.players.update(i as int, target[i as int]));
            }
            i += 1;
        }
        proof {
            assert(self@.players =~= target);
        }
    }

    /// End a tick: do the kills that the movements made, and keep every player on the board.
    pub fn end_update(&mut self, kills: &Vec<Kill>)
        requires
            crate::capture::has_room_for(old(self)@, 0),
        ensures
            final(self)@ == old(self)@.kills_done(kills@).held_on_board(),
    {
        self.do_kills(kills);
        self.hold_players();
    }
}

/// At most all players come back with a trail.
pub proof fn lemma_returning_few(players: Seq<PlayerView>, inside: Seq<bool>)
    ensures
        returning(players, inside).len() <= players.len(),
    decreases players.len(),
{
    if players.len() > 0 {
        lemma_returning_few(players.drop_last(), inside);
    }
}

}
