//! What a user does, and what it makes a client do.
use crate::client::{ClientState, ClientView};
use crate::float64::Float64;
use crate::geometry::ZERO;
use crate::protocol::{ClientMsg, ClientMsgView};
use crate::text::{parse_u32, same_text, trim};
use vstd::arithmetic::power2::*;
use vstd::prelude::*;

verus! {

/// A quarter of a turn, in radians.
pub const QUARTER_TURN: u64 = 0x3ff9_21fb_5444_2d18;

/// Half a turn, in radians.
pub const HALF_TURN: u64 = 0x4009_21fb_5444_2d18;

/// A quarter of a turn the other way, in radians.
pub const QUARTER_TURN_BACK: u64 = 0xbff9_21fb_5444_2d18;

/// The least zoom: 0.15.
pub const LEAST_ZOOM: u64 = 0x3fc3_3333_3333_3333;

/// The greatest zoom: 5.
pub const GREATEST_ZOOM: u64 = 0x4014_0000_0000_0000;

/// What a turn of the wheel away multiplies the zoom with: 0.9.
pub const WHEEL_OUT: u64 = 0x3fec_cccc_cccc_cccd;

/// What a turn of the wheel towards multiplies the zoom with: 1.1.
pub const WHEEL_IN: u64 = 0x3ff1_9999_9999_999a;

// ---------------------------------------------------------------------------------------------
// Keys
// ---------------------------------------------------------------------------------------------

/// Whether a key is one of three.
pub open spec fn is_one_of(key: Seq<char>, a: Seq<char>, b: Seq<char>, c: Seq<char>) -> bool {
    key == a || key == b || key == c
}

/// The direction that a key stands for, in radians clockwise from the right.
pub open spec fn key_angle(key: Seq<char>) -> Option<Float64> {
    if is_one_of(key, "ArrowRight"@, "d"@, "D"@) {
        Some(Float64 { bits: ZERO })
    } else if is_one_of(key, "ArrowDown"@, "s"@, "S"@) {
        Some(Float64 { bits: QUARTER_TURN })
    } else if is_one_of(key, "ArrowLeft"@, "a"@, "A"@) {
        Some(Float64 { bits: HALF_TURN })
    } else if is_one_of(key, "ArrowUp"@, "w"@, "W"@) {
        Some(Float64 { bits: QUARTER_TURN_BACK })
    } else {
        None
    }
}

fn one_of(key: &str, a: &str, b: &str, c: &str) -> (r: bool)
    ensures
        r == is_one_of(key@, a@, b@, c@),
{
    same_text(key, a) || same_text(key, b) || same_text(key, c)
}

/// The direction that a key stands for.
pub fn angle_of_key(key: &str) -> (r: Option<Float64>)
    ensures
        r == key_angle(key@),
{
    if one_of(key, "ArrowRight", "d", "D") {
        Some(Float64 { bits: ZERO })
    } else if one_of(key, "ArrowDown", "s", "S") {
        Some(Float64 { bits: QUARTER_TURN })
    } else if one_of(key, "ArrowLeft", "a", "A") {
        Some(Float64 { bits: HALF_TURN })
    } else if one_of(key, "ArrowUp", "w", "W") {
        Some(Float64 { bits: QUARTER_TURN_BACK })
    } else {
        None
    }
}

/// Whether a key stands for a direction.
pub fn is_movement_key(key: &str) -> (r: bool)
    ensures
        r == (key_angle(key@) is Some),
{
    one_of(key, "ArrowRight", "d", "D") || one_of(key, "ArrowDown", "s", "S") || one_of(
        key,
        "ArrowLeft",
        "a",
        "A",
    ) || one_of(key, "ArrowUp", "w", "W")
}

// ---------------------------------------------------------------------------------------------
// Fingers and mouse
// ---------------------------------------------------------------------------------------------

/// A point of the screen.
#[derive(Clone, Copy, Debug, PartialEq, Eq, Structural)]
pub struct ScreenPoint {
    pub x: i32,
    pub y: i32,
}

/// What a client tells the server to do with its player.
#[derive(Clone, Copy, Debug, PartialEq, Eq, Structural)]
pub enum Steering {
    /// Nothing.
    Keep,
    /// Stop.
    Stop,
    /// Go towards a point of the screen, given from its middle.
    Toward { dx: Float64, dy: Float64 },
}

/// The distance of two fingers.
pub open spec fn finger_distance(a: ScreenPoint, b: ScreenPoint) -> Float64 {
    let dx = crate::float64::whole(a.x - b.x);
    let dy = crate::float64::whole(a.y - b.y);
    dx.times(dx).plus(dy.times(dy)).sqrt()
}

/// The distance of the first two fingers, where there are two.
pub fn touch_dist(touches: &Vec<ScreenPoint>) -> (r: Option<Float64>)
    ensures
        r == (if touches@.len() < 2 {
            None
        } else {
            Some(finger_distance(touches@[0], touches@[1]))
        }),
{
    if touches.len() < 2 {
        return None;
    }
    let a = touches[0];
    let b = touches[1];
    let dx = Float64::from_whole(a.x as i64 - b.x as i64);
    let dy = Float64::from_whole(a.y as i64 - b.y as i64);
    Some(dx.times(dx).plus(dy.times(dy)).sqrt())
}

/// A zoom within its limits.
pub open spec fn zoom_within_limits(zoom: Float64) -> Float64 {
    zoom.clamp(Float64 { bits: LEAST_ZOOM }, Float64 { bits: GREATEST_ZOOM })
}

/// Whether a zoom is within its limits.
pub open spec fn within_zooms(zoom: Float64) -> bool {
    !zoom.nan() && (Float64 { bits: LEAST_ZOOM }).value() <= zoom.value() <= (Float64 {
        bits: GREATEST_ZOOM,
    }).value()
}

impl ClientView {
    /// The way to a point of the screen.
    pub open spec fn way_to(self, p: ScreenPoint) -> Steering {
        let two = Float64 { bits: crate::spawn::TWO };
        Steering::Toward {
            dx: crate::float64::whole(p.x as int).minus(self.width.over(two)),
            dy: crate::float64::whole(p.y as int).minus(self.height.over(two)),
        }
    }

    /// After fingers touched the screen: one steers, unless two pinch; two pinch.
    pub open spec fn touched(self, fingers: Seq<ScreenPoint>) -> (ClientView, Steering) {
        if fingers.len() == 1 {
            if self.pinch_dist is None {
                (ClientView { touching: true, ..self }, self.way_to(fingers[0]))
            } else {
                (self, Steering::Keep)
            }
        } else if fingers.len() >= 2 {
            (
                ClientView {
                    touching: false,
                    pinch_dist: Some(finger_distance(fingers[0], fingers[1])),
                    pinch_zoom_start: self.zoom,
                    ..self
                },
                if self.touching {
                    Steering::Stop
                } else {
                    Steering::Keep
                },
            )
        } else {
            (self, Steering::Keep)
        }
    }

    /// After fingers moved: one steers, two zoom as their distance changes.
    pub open spec fn dragged(self, fingers: Seq<ScreenPoint>) -> (ClientView, Steering) {
        if fingers.len() == 1 && self.touching {
            (self, self.way_to(fingers[0]))
        } else if fingers.len() >= 2 && self.pinch_dist is Some {
            (
                ClientView {
                    zoom: zoom_within_limits(
                        self.pinch_zoom_start.times(
                            finger_distance(fingers[0], fingers[1]),
                        ).over(self.pinch_dist.unwrap()),
                    ),
                    ..self
                },
                Steering::Keep,
            )
        } else {
            (self, Steering::Keep)
        }
    }

    /// After fingers left the screen: with at most one left, the player stops.
    pub open spec fn lifted(self, left: nat) -> (ClientView, Steering) {
        if left <= 1 {
            (ClientView { touching: false, pinch_dist: None, ..self }, Steering::Stop)
        } else {
            (self, Steering::Keep)
        }
    }

    /// After a button of the mouse was pressed: the main one steers.
    pub open spec fn pressed(self, button: i16, at: ScreenPoint) -> (ClientView, Steering) {
        if button == 0 {
            (ClientView { mouse_down: true, ..self }, self.way_to(at))
        } else {
            (self, Steering::Keep)
        }
    }

    /// After a button of the mouse was released: the main one stops the player.
    pub open spec fn released(self, button: i16) -> (ClientView, Steering) {
        if button == 0 && self.mouse_down {
            (ClientView { mouse_down: false, ..self }, Steering::Stop)
        } else {
            (self, Steering::Keep)
        }
    }
}

impl ClientState {
    fn steer_to(&self, p: ScreenPoint) -> (r: Steering)
        ensures
            r == self@.way_to(p),
    {
        let two = Float64 { bits: crate::spawn::TWO };
        Steering::Toward {
            dx: Float64::from_whole(p.x as i64).minus(self.width.over(two)),
            dy: Float64::from_whole(p.y as i64).minus(self.height.over(two)),
        }
    }

    /// Fingers touched the screen.
    pub fn touch_start(&mut self, touches: &Vec<ScreenPoint>) -> (r: Steering)
        ensures
            (final(self)@, r) == old(self)@.touched(touches@),
    {
        let n = touches.len();
        if n == 1 {
            if self.pinch_dist.is_none() {
                self.touching = true;
                self.steer_to(touches[0])
            } else {
                Steering::Keep
            }
        } else if n >= 2 {
            let r = if self.touching {
                Steering::Stop
            } else {
                Steering::Keep
            };
            self.touching = false;
            self.pinch_dist = touch_dist(touches);
            self.pinch_zoom_start = self.zoom;
            r
        } else {
            Steering::Keep
        }
    }

    /// Fingers moved over the screen.
    pub fn touch_move(&mut self, touches: &Vec<ScreenPoint>) -> (r: Steering)
        ensures
            (final(self)@, r) == old(self)@.dragged(touches@),
    {
        let n = touches.len();
        if n == 1 {
            if self.touching {
                return self.steer_to(touches[0]);
            }
        } else if let (Some(distance), Some(start)) = (touch_dist(touches), self.pinch_dist) {
            self.zoom = self.pinch_zoom_start.times(distance).over(start).clamp(
                Float64 { bits: LEAST_ZOOM },
                Float64 { bits: GREATEST_ZOOM },
            );
        }
        Steering::Keep
    }

    /// Fingers left the screen.
    pub fn touch_end(&mut self, left: usize) -> (r: Steering)
        ensures
            (final(self)@, r) == old(self)@.lifted(left as nat),
    {
        if left <= 1 {
            self.touching = false;
            self.pinch_dist = None;
            Steering::Stop
        } else {
            Steering::Keep
        }
    }

    /// A button of the mouse was pressed.
    pub fn mouse_press(&mut self, button: i16, at: ScreenPoint) -> (r: Steering)
        ensures
            (final(self)@, r) == old(self)@.pressed(button, at),
    {
        if button != 0 {
            return Steering::Keep;
        }
        self.mouse_down = true;
        self.steer_to(at)
    }

    /// The mouse moved.
    pub fn mouse_move(&self, at: ScreenPoint) -> (r: Steering)
        ensures
            r == (if self@.mouse_down {
                self@.way_to(at)
            } else {
                Steering::Keep
            }),
    {
        if self.mouse_down {
            self.steer_to(at)
        } else {
            Steering::Keep
        }
    }

    /// A button of the mouse was released.
    pub fn mouse_release(&mut self, button: i16) -> (r: Steering)
        ensures
            (final(self)@, r) == old(self)@.released(button),
    {
        if button == 0 && self.mouse_down {
            self.mouse_down = false;
            Steering::Stop
        } else {
            Steering::Keep
        }
    }

    /// The wheel was turned.
    pub fn wheel(&mut self, delta_y: Float64)
        ensures
            final(self)@ == (ClientView {
                zoom: zoom_within_limits(
                    old(self)@.zoom.times(
                        if (Float64 { bits: ZERO }).lt(delta_y) {
                            Float64 { bits: WHEEL_OUT }
                        } else {
                            Float64 { bits: WHEEL_IN }
                        },
                    ),
                ),
                ..old(self)@
            }),
            within_zooms(old(self)@.zoom) ==> within_zooms(final(self)@.zoom),
            within_zooms(old(self)@.zoom) && (Float64 { bits: ZERO }).lt(delta_y)
                ==> final(self)@.zoom.value() <= old(self)@.zoom.value(),
            within_zooms(old(self)@.zoom) && !(Float64 { bits: ZERO }).lt(delta_y)
                ==> final(self)@.zoom.value() >= old(self)@.zoom.value(),
    {
        proof {
            if within_zooms(self.zoom) {
                crate::screen::lemma_wheel_directions(self.zoom);
            }
        }
        let factor = if (Float64 { bits: ZERO }).lt(delta_y) {
            Float64 { bits: WHEEL_OUT }
        } else {
            Float64 { bits: WHEEL_IN }
        };
        self.zoom = self.zoom.times(factor).clamp(
            Float64 { bits: LEAST_ZOOM },
            Float64 { bits: GREATEST_ZOOM },
        );
    }

    /// The window has another size.
    pub fn resize(&mut self, width: Float64, height: Float64)
        ensures
            final(self)@ == (ClientView { width, height, ..old(self)@ }),
    {
        self.width = width;
        self.height = height;
    }
}

// ---------------------------------------------------------------------------------------------
// Connection, sprite and name
// ---------------------------------------------------------------------------------------------

/// The contents of some client messages.
pub open spec fn client_msg_views(msgs: Seq<ClientMsg>) -> Seq<ClientMsgView> {
    msgs.map_values(|m: ClientMsg| m@)
}

/// The sprite that a random number below one picks.
pub open spec fn picked(random: Float64, count: u32) -> u32 {
    random.times(crate::float64::count(count as nat)).trunc_u32()
}

/// The sprite that was chosen before, if there is still one of that number.
pub open spec fn remembered(stored: Option<Seq<char>>, count: u32) -> Option<u32> {
    match stored {
        None => None,
        Some(text) => match crate::text::number_in(text) {
            Some(n) => if n < count {
                Some(n as u32)
            } else {
                None
            },
            None => None,
        },
    }
}

impl ClientView {
    /// What a client says first: its sprite, and its name if it has one.
    pub open spec fn greeting(self) -> Seq<ClientMsgView> {
        if self.my_name.len() == 0 {
            seq![ClientMsgView::SetSprite(self.my_sprite_id)]
        } else {
            seq![
                ClientMsgView::SetSprite(self.my_sprite_id),
                ClientMsgView::SetName(self.my_name),
            ]
        }
    }
}

impl ClientState {
    /// The connection is there; what to send first.
    pub fn opened(&mut self) -> (r: Vec<ClientMsg>)
        ensures
            final(self)@ == (ClientView { connected: true, ..old(self)@ }),
            client_msg_views(r@) == old(self)@.greeting(),
    {
        self.connected = true;
        let mut r: Vec<ClientMsg> = Vec::new();
        r.push(ClientMsg::SetSprite(self.my_sprite_id));
        if self.my_name.as_str().unicode_len() > 0 {
            r.push(ClientMsg::SetName(self.my_name.clone()));
        }
        proof {
            assert(client_msg_views(r@) =~= old(self)@.greeting());
        }
        r
    }

    /// The connection is gone.
    pub fn closed(&mut self)
        ensures
            final(self)@ == (ClientView {
                connected: false,
                alive: false,
                player_id: None,
                ..old(self)@
            }),
    {
        self.connected = false;
        self.alive = false;
        self.player_id = None;
    }

    /// There are so many sprites: take the one chosen before, or else one at random. Whether the
    /// choice is a new one.
    pub fn sprites_loaded(&mut self, count: u32, stored: &Option<String>, random: Float64) -> (r:
        bool)
        ensures
            ({
                let before = remembered(
                    match *stored {
                        Some(text) => Some(text@),
                        None => None,
                    },
                    count,
                );
                &&& r == (before is None)
                &&& final(self)@ == (ClientView {
                    sprite_count: count,
                    my_sprite_id: match before {
                        Some(id) => id,
                        None => picked(random, count),
                    },
                    ..old(self)@
                })
            }),
    {
        self.sprite_count = count;
        let before: Option<u32> = match stored {
            Some(text) => match parse_u32(text.as_str()) {
                Some(id) => if id < count {
                    Some(id)
                } else {
                    None
                },
                None => None,
            },
            None => None,
        };
        match before {
            Some(id) => {
                self.my_sprite_id = id;
                false
            },
            None => {
                self.my_sprite_id = random.times(Float64::from_count(count as u64)).trunc_u32();
                true
            },
        }
    }

    /// Take another sprite at random, if there are any.
    pub fn regenerate_sprite(&mut self, random: Float64) -> (r: Option<u32>)
        ensures
            if old(self)@.sprite_count > 0 {
                let id = picked(random, old(self)@.sprite_count);
                r == Some(id) && final(self)@ == (ClientView { my_sprite_id: id, ..old(self)@ })
            } else {
                r is None && final(self)@ == old(self)@
            },
    {
        if self.sprite_count > 0 {
            let id = random.times(Float64::from_count(self.sprite_count as u64)).trunc_u32();
            self.my_sprite_id = id;
            Some(id)
        } else {
            None
        }
    }

    /// Take a name as it was typed, unless it is blank.
    pub fn rename(&mut self, typed: &str) -> (r: Option<String>)
        ensures
            ({
                let name = crate::text::trimmed(typed@);
                if name.len() > 0 {
                    (r matches Some(text) && text@ == name) && final(self)@ == (ClientView {
                        my_name: name,
                        ..old(self)@
                    })
                } else {
                    r is None && final(self)@ == old(self)@
                }
            }),
    {
        let name = trim(typed);
        if name.as_str().unicode_len() == 0 {
            return None;
        }
        self.my_name = name.clone();
        Some(name)
    }
}

/// The wheel and two fingers keep the zoom within its limits, as long as it is a number.
pub proof fn lemma_zoom_stays_within_limits(zoom: Float64)
    requires
        !zoom.is_nan(),
    ensures
        (Float64 { bits: LEAST_ZOOM }).le(zoom_within_limits(zoom)),
        zoom_within_limits(zoom).le(Float64 { bits: GREATEST_ZOOM }),
{
    crate::float64::lemma_units_ordered(LEAST_ZOOM as nat, GREATEST_ZOOM as nat);
    crate::float64::lemma_clamped_in_range(
        zoom,
        Float64 { bits: LEAST_ZOOM },
        Float64 { bits: GREATEST_ZOOM },
    );
}

/// A random number below one picks one of the sprites, if there are any.
pub proof fn lemma_picked_is_a_sprite(random: Float64, count: u32)
    requires
        random.lt(Float64 { bits: crate::geometry::ONE }),
        count > 0,
    ensures
        picked(random, count) < count,
{
    crate::rounding::lemma_part_of_count(random, count);
}

/// The sprites are picked alike: as many random numbers in so many parts of one lead to each. The
/// one picked is the whole part of as many parts of the number of sprites, exactly, where nothing
/// is rounded.
pub proof fn lemma_sprites_are_picked_alike(random: Float64, count: u32, n: nat, k: nat)
    requires
        crate::exact::is_parts(random, n as int, k),
        !random.negative(),
        n < pow2(k),
        n * count < 0x20_0000_0000_0000,
        count > 0,
    ensures
        picked(random, count) as int == (n * count) as int / pow2(k) as int,
{
    let c = crate::float64::count(count as nat);
    crate::screen::lemma_whole_exact(count as int);
    crate::exact::lemma_times_exact(random, n as int, k, c, count as int, 0);
    let all = random.times(c);
    let p = pow2((1074 - k) as nat);
    let one = pow2(1074);
    let m = (n * count) as int;
    lemma_pow2_adds(k, (1074 - k) as nat);
    lemma_pow2_pos((1074 - k) as nat);
    lemma_pow2_pos(k);
    lemma_pow2_pos(1074);
    let q = pow2(k);
    reveal(crate::float64::product);
    reveal(crate::float64::trunc_clipped);
    crate::exact::lemma_size_of(c, count as int, 0);
    crate::rounding::lemma_rounded_is_nearest(
        crate::float64::units(random.magnitude()) * crate::float64::units(c.magnitude()),
        one,
    );
    assert(!all.negative());
    assert(one == p * q) by (nonlinear_arith)
        requires
            one == q * p,
    ;
    assert(m * p >= 0) by (nonlinear_arith)
        requires
            m >= 0,
            p > 0,
    ;
    vstd::arithmetic::div_mod::lemma_div_denominator(m * p, p as int, q as int);
    vstd::arithmetic::div_mod::lemma_div_by_multiple(m, p as int);
    assert(0 <= m / q as int && m / q as int <= count) by (nonlinear_arith)
        requires
            m == n * count,
            0 <= n < q,
            count > 0,
    ;
}

/// A sprite is remembered by its number as long as there are more of them than that.
pub proof fn lemma_sprite_is_remembered(n: nat, count: u32)
    ensures
        remembered(Some(crate::text::decimal(n)), count) == (if n < count {
            Some(n as u32)
        } else {
            None
        }),
        remembered(None, count) is None,
{
    crate::text::lemma_decimal_read_back(n);
}

}
