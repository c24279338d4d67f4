//! Where a new player starts: a clear place near the others, or else anywhere on the board.
use crate::float64::Float64;
use crate::game::Game;
use crate::geometry::{bounding_rect, Aabb, ONE, ZERO};
use crate::player::PlayerView;
use crate::protocol::{Position, STARTING_TERRITORY_RADIUS};
use vstd::prelude::*;

verus! {

/// How often a clear place is looked for.
pub const TRIES: u32 = 200;

/// How far beyond the others a place is looked for: 20.
pub const SEARCH_MARGIN: u64 = 0x4034_0000_0000_0000;

/// Two.
pub const TWO: u64 = 0x4000_0000_0000_0000;

/// The part of the board that a player starts on at random: 0.8.
pub const FALLBACK_PART: u64 = 0x3fe9_9999_9999_999a;

/// A search for a place.
#[derive(Clone, Copy, Debug, PartialEq, Eq, Structural)]
pub struct SpawnSearch {
    /// The middle of the territories.
    pub centre: Position,
    /// How far from the middle a place may be along each axis.
    pub reach: Float64,
    /// How far from the middle of the board a place may be.
    pub limit: Float64,
    /// How many places were found unfit.
    pub tries: u32,
}

/// What is to be found out next.
#[derive(Clone, Copy, Debug, PartialEq, Eq, Structural)]
pub enum SpawnAction {
    /// Two random numbers between `-reach` and `reach`.
    Draw { reach: Float64 },
    /// Whose territories the starting square around a place touches.
    Probe(Position),
    /// A random direction, and a random distance from zero up to `reach`.
    FallBack { reach: Float64 },
    /// Nothing: this is the place.
    Settle(Position),
}

/// What was found out.
pub enum SpawnEvent {
    Drawn { dx: Float64, dy: Float64 },
    Probed { at: Position, touched: Vec<bool> },
    Fallen { cos: Float64, sin: Float64, distance: Float64 },
}

/// The box around all territories.
pub open spec fn territories_box(players: Seq<PlayerView>) -> Aabb
    decreases players.len(),
{
    if players.len() == 0 {
        crate::geometry::empty_box()
    } else {
        let earlier = territories_box(players.drop_last());
        match crate::geometry::bounding_box(players.last().territory) {
            None => earlier,
            Some(b) => Aabb {
                min_x: earlier.min_x.min(b.min_x),
                min_y: earlier.min_y.min(b.min_y),
                max_x: earlier.max_x.max(b.max_x),
                max_y: earlier.max_y.max(b.max_y),
            },
        }
    }
}

/// The search for a place among some players, on a board of some radius.
pub open spec fn search_among(players: Seq<PlayerView>, board_radius: Float64) -> SpawnSearch {
    let b = territories_box(players);
    let two = Float64 { bits: TWO };
    let margin = Float64 { bits: SEARCH_MARGIN };
    SpawnSearch {
        centre: Position {
            x: b.min_x.plus(b.max_x).over(two),
            y: b.min_y.plus(b.max_y).over(two),
        },
        reach: b.max_x.minus(b.min_x).plus(b.max_y).minus(b.min_y).over(two).plus(margin).max(
            margin,
        ),
        limit: board_radius.minus(Float64 { bits: STARTING_TERRITORY_RADIUS }).minus(
            Float64 { bits: ONE },
        ),
        tries: 0,
    }
}

impl SpawnSearch {
    /// Whether a place is too far from the middle of the board.
    pub open spec fn too_far(self, at: Position) -> bool {
        self.limit.times(self.limit).lt(at.x.times(at.x).plus(at.y.times(at.y)))
    }

    /// After a place that is unfit.
    pub open spec fn failed(self) -> (SpawnSearch, SpawnAction) {
        let tries = (self.tries + 1) as u32;
        (
            SpawnSearch { tries, ..self },
            if tries < TRIES {
                SpawnAction::Draw { reach: self.reach }
            } else {
                SpawnAction::FallBack { reach: self.limit.times(Float64 { bits: FALLBACK_PART }) }
            },
        )
    }

    /// After something was found out.
    pub open spec fn stepped(self, event: SpawnEvent) -> (SpawnSearch, SpawnAction) {
        match event {
            SpawnEvent::Drawn { dx, dy } => {
                let at = Position { x: self.centre.x.plus(dx), y: self.centre.y.plus(dy) };
                if self.too_far(at) {
                    self.failed()
                } else {
                    (self, SpawnAction::Probe(at))
                }
            },
            SpawnEvent::Probed { at, touched } => if touched@.contains(true) {
                self.failed()
            } else {
                (self, SpawnAction::Settle(at))
            },
            SpawnEvent::Fallen { cos, sin, distance } => (
                self,
                SpawnAction::Settle(
                    Position { x: cos.times(distance), y: sin.times(distance) },
                ),
            ),
        }
    }
}

impl SpawnSearch {
    fn fail(&mut self) -> (r: SpawnAction)
        requires
            old(self).tries < TRIES,
        ensures
            (*final(self), r) == old(self).failed(),
            r is Draw ==> final(self).tries < TRIES,
    {
        self.tries = self.tries + 1;
        if self.tries < TRIES {
            SpawnAction::Draw { reach: self.reach }
        } else {
            SpawnAction::FallBack { reach: self.limit.times(Float64 { bits: FALLBACK_PART }) }
        }
    }

    /// Take in what was found out.
    pub fn step(&mut self, event: SpawnEvent) -> (r: SpawnAction)
        requires
            event !is Fallen ==> old(self).tries < TRIES,
        ensures
            (*final(self), r) == old(self).stepped(event),
            r is Draw || r is Probe ==> final(self).tries < TRIES,
    {
        match event {
            SpawnEvent::Drawn { dx, dy } => {
                let at = Position { x: self.centre.x.plus(dx), y: self.centre.y.plus(dy) };
                if self.limit.times(self.limit).lt(at.x.times(at.x).plus(at.y.times(at.y))) {
                    self.fail()
                } else {
                    SpawnAction::Probe(at)
                }
            },
            SpawnEvent::Probed { at, touched } => {
                let mut clear = true;
                let mut i: usize = 0;
                while i < touched.len() && clear
                    invariant
                        i <= touched@.len(),
                        clear == !touched@.take(i as int).contains(true),
                    decreases touched@.len() - i,
                {
                    proof {
                        assert(touched@.take(i + 1) =~= touched@.take(i as int).push(
                            touched@[i as int],
                        ));
                        assert(touched@.take(i + 1)[i as int] == touched@[i as int]);
                    }
                    clear = !touched[i];
                    i += 1;
                }
                proof {
                    if clear {
                        assert(touched@.take(i as int) =~= touched@);
                    } else {
                        let k = choose|k: int| 0 <= k < i && touched@.take(i as int)[k] == true;
                        assert(touched@[k] == true);
                    }
                }
                if clear {
                    SpawnAction::Settle(at)
                } else {
                    self.fail()
                }
            },
            SpawnEvent::Fallen { cos, sin, distance } => SpawnAction::Settle(
                Position { x: cos.times(distance), y: sin.times(distance) },
            ),
        }
    }
}

impl Game {
    /// Begin to look for a place for a new player. The first of all starts in the middle.
    pub fn find_spawn_position(&self) -> (r: (SpawnSearch, SpawnAction))
        ensures
            r.0 == search_among(self@.players, self@.board_radius),
            r.1 == (if self@.players.len() == 0 {
                SpawnAction::Settle(
                    Position { x: Float64 { bits: ZERO }, y: Float64 { bits: ZERO } },
                )
            } else {
                SpawnAction::Draw { reach: r.0.reach }
            }),
            r.0.tries < TRIES,
    {
        let ghost all = self@.players;
        let mut b = Aabb::new();
        let mut i: usize = 0;
        while i < self.players.len()
            invariant
                i <= self.players@.len(),
                all == self@.players,
                b == territories_box(all.take(i as int)),
            decreases self.players@.len() - i,
        {
            proof {
                assert(all.take(i + 1).drop_last() =~= all.take(i as int));
                assert(all.take(i + 1).last() == self.players@[i as int]@);
            }
            if let Some(t) = bounding_rect(&self.players[i].territory) {
                b = Aabb {
                    min_x: b.min_x.min(t.min_x),
                    min_y: b.min_y.min(t.min_y),
                    max_x: b.max_x.max(t.max_x),
                    max_y: b.max_y.max(t.max_y),
                };
            }
            i += 1;
        }
        proof {
            assert(all.take(i as int) =~= all);
        }
        let two = Float64 { bits: TWO };
        let margin = Float64 { bits: SEARCH_MARGIN };
        let search = SpawnSearch {
            centre: Position {
                x: b.min_x.plus(b.max_x).over(two),
                y: b.min_y.plus(b.max_y).over(two),
            },
            reach: b.max_x.minus(b.min_x).plus(b.max_y).minus(b.min_y).over(two).plus(
                margin,
            ).max(margin),
            limit: self.board_radius.minus(Float64 { bits: STARTING_TERRITORY_RADIUS }).minus(
                Float64 { bits: ONE },
            ),
            tries: 0,
        };
        if self.players.len() == 0 {
            (
                search,
                SpawnAction::Settle(
                    Position { x: Float64 { bits: ZERO }, y: Float64 { bits: ZERO } },
                ),
            )
        } else {
            (search, SpawnAction::Draw { reach: search.reach })
        }
    }
}

/// A place that was drawn and found clear is on the board.
pub proof fn lemma_clear_place_on_board(
    search: SpawnSearch,
    dx: Float64,
    dy: Float64,
    touched: Vec<bool>,
)
    ensures
        search.stepped(SpawnEvent::Drawn { dx, dy }).1 matches SpawnAction::Probe(at) ==> (
        search.stepped(SpawnEvent::Probed { at, touched }).1 matches SpawnAction::Settle(place)
            ==> place == at && !search.too_far(place)),
{
}

}
