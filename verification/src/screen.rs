//! Where things are on the screen, and where a pointer on it leads.
use crate::client::{ClientView, RemotePlayerView};
use crate::float64::{Float64, INFINITY_BITS};
use crate::geometry::ONE;
use crate::input::{ScreenPoint, Steering, GREATEST_ZOOM, LEAST_ZOOM, WHEEL_IN, WHEEL_OUT};
use crate::protocol::{Position, PLAYER_SPEED};
use crate::render::{Camera, Heading, FIFTEEN_HUNDREDTHS, MILLISECONDS};
use crate::spawn::TWO;
use vstd::arithmetic::power2::*;
use vstd::prelude::*;

verus! {

// ---------------------------------------------------------------------------------------------
// The camera
// ---------------------------------------------------------------------------------------------

/// Whether a point is where another is on the screen: as far from the middle of the screen as on
/// the board from the middle of what is seen, times the scale.
pub open spec fn is_drawn_at(
    at: Position,
    x: int,
    y: int,
    cx: int,
    cy: int,
    scale: int,
    width: int,
    height: int,
    k: nat,
) -> bool {
    crate::exact::is_at(at, (x - cx) * scale + width, (y - cy) * scale + height, k)
}

/// Points of the board are drawn to scale around the middle of the screen, rightwards and
/// downwards: exactly, where nothing is rounded. Here half of the width and height of the screen
/// are `width` and `height` parts.
pub proof fn lemma_drawn_to_scale(
    camera: Camera,
    p: Position,
    x: int,
    y: int,
    cx: int,
    cy: int,
    scale: int,
    width: int,
    height: int,
    k: nat,
    j: nat,
)
    requires
        1 <= k <= 100,
        j <= 100,
        crate::exact::is_at(p, x, y, k),
        crate::exact::is_at(camera.center, cx, cy, k),
        crate::exact::is_parts(camera.scale, scale, j),
        crate::exact::is_parts(camera.width, width, (k + j - 1) as nat),
        crate::exact::is_parts(camera.height, height, (k + j - 1) as nat),
        crate::exact::few(x - cx) && crate::exact::few(y - cy),
        crate::exact::few((x - cx) * scale) && crate::exact::few((y - cy) * scale),
        crate::exact::few(width) && crate::exact::few(height),
        crate::exact::few((x - cx) * scale + width),
        crate::exact::few((y - cy) * scale + height),
    ensures
        is_drawn_at(camera.point_of(p), x, y, cx, cy, scale, width, height, k + j),
{
    let half_w = camera.width.over(Float64 { bits: TWO });
    let half_h = camera.height.over(Float64 { bits: TWO });
    let dx = p.x.minus(camera.center.x);
    let dy = p.y.minus(camera.center.y);
    crate::places::lemma_halved_exact(camera.width, width, (k + j - 1) as nat);
    crate::places::lemma_halved_exact(camera.height, height, (k + j - 1) as nat);
    crate::exact::lemma_minus_exact(p.x, x, camera.center.x, cx, k);
    crate::exact::lemma_minus_exact(p.y, y, camera.center.y, cy, k);
    crate::exact::lemma_times_exact(dx, x - cx, k, camera.scale, scale, j);
    crate::exact::lemma_times_exact(dy, y - cy, k, camera.scale, scale, j);
    crate::exact::lemma_plus_exact(
        dx.times(camera.scale),
        (x - cx) * scale,
        half_w,
        width,
        k + j,
    );
    crate::exact::lemma_plus_exact(
        dy.times(camera.scale),
        (y - cy) * scale,
        half_h,
        height,
        k + j,
    );
}

/// The camera is on the own player, and shows thirty screen points to a unit at zoom one.
pub proof fn lemma_camera_follows(
    client: ClientView,
    headings: Seq<Heading>,
    now: Float64,
    i: int,
    zoom: int,
    k: nat,
)
    requires
        crate::client::distinct(client.players),
        headings.len() == client.players.len(),
        0 <= i < client.players.len(),
        client.player_id == Some(client.players[i].id),
        crate::exact::is_parts(client.zoom, zoom, k),
        k <= 1000,
        crate::exact::few(30 * zoom),
    ensures
        ({
            let camera = client.camera(headings, now);
            &&& camera.center == client.players[i].guessed(headings[i], now)
            &&& camera.width == client.width
            &&& camera.height == client.height
            &&& crate::exact::is_parts(camera.scale, 30 * zoom, k)
        }),
{
    let id = client.players[i].id;
    crate::client::lemma_place_of(client.players, id);
    let f = crate::client::place_of(client.players, id).unwrap();
    if f < i {
        assert(client.players[f].id != client.players[i].id);
    } else if i < f {
        assert(client.players[i].id != client.players[f].id);
    }
    crate::exact::lemma_screen_constants();
    crate::exact::lemma_times_exact(
        Float64 { bits: crate::protocol::CELL_SIZE },
        30,
        0,
        client.zoom,
        zoom,
        k,
    );
}

// ---------------------------------------------------------------------------------------------
// Guesses
// ---------------------------------------------------------------------------------------------

proof fn lemma_times_not_negative(a: Float64, b: Float64)
    requires
        a.magnitude() < INFINITY_BITS,
        b.magnitude() < INFINITY_BITS,
        b.value() >= 0,
    ensures
        !a.times(b).nan(),
        a.value() >= 0 ==> a.times(b).value() >= 0,
        a.value() <= 0 ==> a.times(b).value() <= 0,
{
    assert(crate::float64::units(0) == 0);
    if b.value() > 0 {
        crate::motion::lemma_times_positive(a, b);
        if a.magnitude() > 0 {
            crate::float64::lemma_units_ordered(0, a.magnitude());
        }
    } else {
        if b.magnitude() > 0 {
            crate::float64::lemma_units_ordered(0, b.magnitude());
        }
        crate::rounding::lemma_times_nought(a, b);
        reveal(crate::float64::product);
        crate::rounding::lemma_units_of_one();
        crate::rounding::lemma_rounded_is_nearest(
            crate::float64::units(a.magnitude()) * crate::float64::units(b.magnitude()),
            crate::float64::unity(),
        );
    }
}

/// How long a movement is guessed for.
spec fn guessed_time(p: RemotePlayerView, now: Float64) -> Float64 {
    now.minus(p.server_time).over(Float64 { bits: MILLISECONDS }).min(
        Float64 { bits: FIFTEEN_HUNDREDTHS },
    )
}

/// Who stands is where it was seen. Who moves is guessed to have gone on along its heading since:
/// up where the sine is positive, down where it is negative, and right or left by the cosine.
pub proof fn lemma_guess_goes_on(p: RemotePlayerView, heading: Heading, now: Float64)
    requires
        p.position.x.magnitude() < INFINITY_BITS,
        p.position.y.magnitude() < INFINITY_BITS,
        !heading.cos.nan() && heading.cos.magnitude() <= ONE,
        !heading.sin.nan() && heading.sin.magnitude() <= ONE,
        now.magnitude() < INFINITY_BITS,
        p.server_time.magnitude() < INFINITY_BITS,
        now.value() >= p.server_time.value(),
    ensures
        ({
            let at = p.guessed(heading, now);
            &&& p.angle.nan() ==> at == p.position
            &&& heading.cos.value() >= 0 ==> at.x.value() >= p.position.x.value()
            &&& heading.cos.value() <= 0 ==> at.x.value() <= p.position.x.value()
            &&& heading.sin.value() >= 0 ==> at.y.value() >= p.position.y.value()
            &&& heading.sin.value() <= 0 ==> at.y.value() <= p.position.y.value()
        }),
{
    if !p.angle.nan() {
        let dt = guessed_time(p, now);
        lemma_guessed_time(p, now);
        let speed = Float64 { bits: PLAYER_SPEED };
        crate::exact::lemma_constants();
        lemma_pow2_pos(1073);
        lemma_speed_of_part(heading.cos);
        lemma_speed_of_part(heading.sin);
        lemma_times_not_negative(heading.cos.times(speed), dt);
        lemma_times_not_negative(heading.sin.times(speed), dt);
        let dx = heading.cos.times(speed).times(dt);
        let dy = heading.sin.times(speed).times(dt);
        if dx.value() >= 0 {
            crate::motion::lemma_plus_up(p.position.x, dx);
        }
        if dx.value() <= 0 {
            crate::motion::lemma_plus_down(p.position.x, dx);
        }
        if dy.value() >= 0 {
            crate::motion::lemma_plus_up(p.position.y, dy);
        }
        if dy.value() <= 0 {
            crate::motion::lemma_plus_down(p.position.y, dy);
        }
    }
}

proof fn lemma_speed_of_part(a: Float64)
    requires
        !a.nan(),
        a.magnitude() <= ONE,
    ensures
        ({
            let b = a.times(Float64 { bits: PLAYER_SPEED });
            &&& b.magnitude() < INFINITY_BITS
            &&& a.value() >= 0 ==> b.value() >= 0
            &&& a.value() <= 0 ==> b.value() <= 0
        }),
{
    let speed = Float64 { bits: PLAYER_SPEED };
    crate::exact::lemma_constants();
    lemma_pow2_pos(1073);
    crate::places::lemma_times_part(a, speed);
    lemma_times_not_negative(a, speed);
}

proof fn lemma_guessed_time(p: RemotePlayerView, now: Float64)
    requires
        now.magnitude() < INFINITY_BITS,
        p.server_time.magnitude() < INFINITY_BITS,
        now.value() >= p.server_time.value(),
    ensures
        guessed_time(p, now).magnitude() < INFINITY_BITS,
        guessed_time(p, now).value() >= 0,
{
    let gone = now.minus(p.server_time);
    let most = Float64 { bits: FIFTEEN_HUNDREDTHS };
    let thousand = Float64 { bits: MILLISECONDS };
    reveal(crate::float64::sum);
    reveal(crate::float64::quotient);
    crate::rounding::lemma_negated_parts(p.server_time);
    assert(crate::float64::units(0) == 0);
    let exact = now.value() - p.server_time.value();
    assert(now.value() + p.server_time.negated().value() == exact);
    crate::rounding::lemma_rounded_is_nearest(exact as nat, 1);
    assert(!gone.nan());
    assert(gone.value() >= 0);
    crate::float64::lemma_units_ordered(0, thousand.magnitude());
    crate::float64::lemma_units_ordered(0, most.magnitude());
    let v = crate::float64::units(thousand.magnitude());
    let q = gone.over(thousand);
    if gone.infinite() {
        crate::float64::lemma_units_ordered(0, INFINITY_BITS as nat);
        crate::float64::lemma_units_ordered(FIFTEEN_HUNDREDTHS as nat, INFINITY_BITS as nat);
    } else {
        let u = crate::float64::units(gone.magnitude());
        let one = crate::float64::unity();
        crate::rounding::lemma_rounded_is_nearest(u * one, v);
        if gone.magnitude() > 0 {
            crate::float64::lemma_units_ordered(0, gone.magnitude());
        } else {
            assert(u * one == 0) by (nonlinear_arith)
                requires
                    u == 0,
            ;
            crate::rounding::lemma_rounded_exact(u * one, v, 0);
        }
        if q.infinite() {
            crate::float64::lemma_units_ordered(FIFTEEN_HUNDREDTHS as nat, INFINITY_BITS as nat);
        }
    }
}

/// A movement is not guessed for longer than about a seventh of a second: from 151 milliseconds on
/// the guess stays what it is.
pub proof fn lemma_guess_ends(
    p: RemotePlayerView,
    heading: Heading,
    now: Float64,
    later: Float64,
    t: int,
    m: int,
    n: int,
)
    requires
        crate::exact::is_parts(p.server_time, t, 0),
        crate::exact::is_parts(now, m, 0),
        crate::exact::is_parts(later, n, 0),
        151 <= m - t <= 0x10_0000_0000_0000,
        151 <= n - t <= 0x10_0000_0000_0000,
    ensures
        p.guessed(heading, now) == p.guessed(heading, later),
{
    lemma_long_ago(p, now, t, m);
    lemma_long_ago(p, later, t, n);
}

proof fn lemma_long_ago(p: RemotePlayerView, now: Float64, t: int, m: int)
    requires
        crate::exact::is_parts(p.server_time, t, 0),
        crate::exact::is_parts(now, m, 0),
        151 <= m - t <= 0x10_0000_0000_0000,
    ensures
        guessed_time(p, now) == (Float64 { bits: FIFTEEN_HUNDREDTHS }),
{
    let gone = now.minus(p.server_time);
    let thousand = Float64 { bits: MILLISECONDS };
    let most = Float64 { bits: FIFTEEN_HUNDREDTHS };
    crate::exact::lemma_minus_exact(now, m, p.server_time, t, 0);
    crate::exact::lemma_screen_constants();
    crate::exact::lemma_size_of(gone, m - t, 0);
    crate::exact::lemma_size_of(thousand, 1000, 0);
    reveal(crate::float64::quotient);
    let one = crate::float64::unity();
    let u = crate::float64::units(gone.magnitude());
    let v = crate::float64::units(thousand.magnitude());
    lemma_pow2_pos(1074);
    lemma2_to64();
    lemma2_to64_rest();
    lemma_pow2_adds(55, 1019);
    let x = pow2(1019);
    let f = crate::float64::units(FIFTEEN_HUNDREDTHS as nat);
    assert(FIFTEEN_HUNDREDTHS as nat / 0x10_0000_0000_0000 == 0x3fc);
    assert(FIFTEEN_HUNDREDTHS as nat % 0x10_0000_0000_0000 == 0x3_3333_3333_3333);
    assert(f == 0x13_3333_3333_3333 * x);
    assert(one == 0x80_0000_0000_0000 * x);
    let d = m - t;
    assert(u * one >= v * f) by (nonlinear_arith)
        requires
            u == d * one,
            v == 1000 * one,
            f == 0x13_3333_3333_3333 * x,
            one == 0x80_0000_0000_0000 * x,
            d >= 151,
            x > 0,
    ;
    crate::rounding::lemma_rounded_is_nearest(u * one, v);
    crate::rounding::lemma_rounded_at_least(u * one, v, FIFTEEN_HUNDREDTHS as nat);
    let r = crate::float64::rounded(u * one, v);
    if FIFTEEN_HUNDREDTHS < r {
        crate::float64::lemma_units_ordered(FIFTEEN_HUNDREDTHS as nat, r);
    }
}

/// The two axes are alike: who was seen at the mirrored point with the mirrored heading is guessed
/// at the mirrored point.
pub proof fn lemma_guess_axes_alike(
    p: RemotePlayerView,
    q: RemotePlayerView,
    heading: Heading,
    now: Float64,
)
    requires
        q.angle.nan() == p.angle.nan(),
        q.server_time == p.server_time,
        q.position == (Position { x: p.position.y, y: p.position.x }),
    ensures
        ({
            let a = p.guessed(heading, now);
            let b = q.guessed(Heading { cos: heading.sin, sin: heading.cos }, now);
            a.x == b.y && a.y == b.x
        }),
{
}

// ---------------------------------------------------------------------------------------------
// Pointers
// ---------------------------------------------------------------------------------------------

/// A whole number is as many ones.
pub proof fn lemma_whole_exact(n: int)
    requires
        crate::exact::few(n),
    ensures
        crate::exact::is_parts(crate::float64::whole(n), n, 0),
{
    reveal(crate::float64::count);
    let s = crate::exact::size(n);
    let mag = crate::rounding::lemma_small_multiple(s, 1074);
    crate::rounding::lemma_rounded_exact(s * crate::float64::unity(), 1, mag);
    crate::exact::lemma_signed_parts(false, mag, s as int, 0);
    if n < 0 {
        crate::exact::lemma_negated_exact(crate::float64::count(s), s as int, 0);
    }
}

/// A pointer on the screen leads from the middle of the screen to where it is: exactly, for a
/// screen of whole points. In halves of a point it is twice its place less the size of the screen.
pub proof fn lemma_pointer_leads_from_the_middle(
    client: ClientView,
    p: ScreenPoint,
    width: int,
    height: int,
)
    requires
        crate::exact::is_parts(client.width, width, 0),
        crate::exact::is_parts(client.height, height, 0),
        0 <= width <= 0x1_0000_0000,
        0 <= height <= 0x1_0000_0000,
    ensures
        client.way_to(p) matches Steering::Toward { dx, dy } && crate::exact::is_parts(
            dx,
            2 * p.x - width,
            1,
        ) && crate::exact::is_parts(dy, 2 * p.y - height, 1),
{
    lemma2_to64();
    let x = crate::float64::whole(p.x as int);
    let y = crate::float64::whole(p.y as int);
    lemma_whole_exact(p.x as int);
    lemma_whole_exact(p.y as int);
    crate::places::lemma_halved_exact(client.width, width, 0);
    crate::places::lemma_halved_exact(client.height, height, 0);
    crate::exact::lemma_finer(x, p.x as int, 0, 1);
    crate::exact::lemma_finer(y, p.y as int, 0, 1);
    crate::exact::lemma_minus_exact(
        x,
        p.x * pow2(1),
        client.width.over(Float64 { bits: TWO }),
        width,
        1,
    );
    crate::exact::lemma_minus_exact(
        y,
        p.y * pow2(1),
        client.height.over(Float64 { bits: TWO }),
        height,
        1,
    );
}

/// One finger on the screen steers towards it, two pinch and stop the player, and none that is left
/// stops it; a pinch that is over does not steer.
pub proof fn lemma_fingers(client: ClientView, fingers: Seq<ScreenPoint>, left: nat)
    ensures
        ({
            let (down, steering) = client.touched(fingers);
            let (up, after) = down.lifted(left);
            &&& fingers.len() == 1 && client.pinch_dist is None ==> down.touching && steering
                == client.way_to(fingers[0])
            &&& fingers.len() == 1 && client.pinch_dist is Some ==> steering is Keep
            &&& fingers.len() >= 2 ==> !down.touching && down.pinch_dist is Some
                && down.pinch_zoom_start == client.zoom && steering !is Toward
            &&& fingers.len() >= 2 && client.touching ==> steering is Stop
            &&& fingers.len() == 0 ==> down == client && steering is Keep
            &&& left <= 1 ==> !up.touching && up.pinch_dist is None && after is Stop
            &&& left >= 2 ==> up == down && after is Keep
            &&& down.zoom == client.zoom && up.zoom == client.zoom
        }),
{
}

/// Fingers that move steer if one is down for that, and zoom if two pinch; and never both.
pub proof fn lemma_dragging(client: ClientView, fingers: Seq<ScreenPoint>)
    ensures
        ({
            let (after, steering) = client.dragged(fingers);
            &&& fingers.len() == 1 && client.touching ==> steering == client.way_to(fingers[0])
                && after == client
            &&& fingers.len() == 1 && !client.touching ==> steering is Keep && after == client
            &&& fingers.len() != 1 ==> steering is Keep
            &&& after == (ClientView { zoom: after.zoom, ..client })
            &&& client.pinch_dist is None ==> after == client
        }),
{
}

/// Fingers are as far apart as the longest side of a right triangle with their distances across and
/// along as the others: exactly, where that is a whole number.
pub proof fn lemma_fingers_apart(a: ScreenPoint, b: ScreenPoint, r: nat)
    requires
        (a.x - b.x) * (a.x - b.x) + (a.y - b.y) * (a.y - b.y) == r * r,
        1 <= r <= 0xff_ffff,
    ensures
        crate::exact::is_parts(crate::input::finger_distance(a, b), r as int, 0),
{
    let m = a.x - b.x;
    let n = a.y - b.y;
    assert(m * m >= 0 && n * n >= 0 && r * r < 0x1_0000_0000_0000) by (nonlinear_arith)
        requires
            0 <= r <= 0xff_ffff,
    ;
    let dx = crate::float64::whole(m);
    let dy = crate::float64::whole(n);
    lemma_whole_exact(m);
    lemma_whole_exact(n);
    crate::exact::lemma_times_exact(dx, m, 0, dx, m, 0);
    crate::exact::lemma_times_exact(dy, n, 0, dy, n, 0);
    crate::exact::lemma_plus_exact(dx.times(dx), m * m, dy.times(dy), n * n, 0);
    crate::sizes::lemma_root_of_square(dx.times(dx).plus(dy.times(dy)), r);
}

/// Two fingers zoom by as much as they go apart: to the distance that they had when they came down,
/// the zoom from then is as the zoom to their distance now. That holds exactly where nothing is
/// rounded, and within the limits.
pub proof fn lemma_pinch_zooms_in_proportion(
    client: ClientView,
    fingers: Seq<ScreenPoint>,
    z: int,
    k: nat,
    d: int,
    r: nat,
    q: int,
)
    requires
        fingers.len() >= 2,
        k <= 1000,
        crate::exact::is_parts(client.pinch_zoom_start, z, k),
        client.pinch_dist matches Some(dist) && crate::exact::is_parts(dist, d, 0),
        d > 0,
        (fingers[0].x - fingers[1].x) * (fingers[0].x - fingers[1].x) + (fingers[0].y
            - fingers[1].y) * (fingers[0].y - fingers[1].y) == r * r,
        1 <= r <= 0xff_ffff,
        crate::exact::few(z * r),
        crate::exact::few(q),
        z * r == q * d,
    ensures
        ({
            let zoom = client.dragged(fingers).0.zoom;
            let least = (Float64 { bits: LEAST_ZOOM }).value();
            let most = (Float64 { bits: GREATEST_ZOOM }).value();
            let exact = q * pow2((1074 - k) as nat);
            &&& least <= exact <= most ==> crate::exact::is_parts(zoom, q, k)
            &&& exact < least ==> zoom == (Float64 { bits: LEAST_ZOOM })
            &&& exact > most ==> zoom == (Float64 { bits: GREATEST_ZOOM })
        }),
{
    let start = client.pinch_zoom_start;
    let dist = client.pinch_dist.unwrap();
    let now = crate::input::finger_distance(fingers[0], fingers[1]);
    lemma_fingers_apart(fingers[0], fingers[1], r);
    crate::exact::lemma_times_exact(start, z, k, now, r as int, 0);
    crate::exact::lemma_over_exact(start.times(now), q, k, dist, d, 0);
    let zoom = start.times(now).over(dist);
    let least = Float64 { bits: LEAST_ZOOM };
    let most = Float64 { bits: GREATEST_ZOOM };
    assert(!zoom.nan() && !least.nan() && !most.nan());
    crate::float64::lemma_units_ordered(least.magnitude(), most.magnitude());
    assert(least.value() < most.value());
    assert(zoom.lt(least) == (zoom.value() < least.value()));
    assert(most.lt(zoom) == (most.value() < zoom.value()));
}

/// The main button steers while it is down, and stops the player when it is let go; other buttons
/// do nothing.
pub proof fn lemma_main_button(client: ClientView, button: i16, at: ScreenPoint)
    ensures
        ({
            let (down, steering) = client.pressed(button, at);
            let (up, after) = down.released(button);
            &&& button == 0 ==> down.mouse_down && steering == client.way_to(at) && after is Stop
                && !up.mouse_down && up == (ClientView { mouse_down: false, ..client })
            &&& button != 0 ==> down == client && steering is Keep && up == client && after is Keep
        }),
{
}

/// A turn of the wheel away does not enlarge what is seen, and one towards does not shrink it, as
/// long as the zoom was within its limits.
pub proof fn lemma_wheel_directions(zoom: Float64)
    requires
        crate::input::within_zooms(zoom),
    ensures
        crate::input::within_zooms(
            crate::input::zoom_within_limits(zoom.times(Float64 { bits: WHEEL_OUT })),
        ),
        crate::input::within_zooms(
            crate::input::zoom_within_limits(zoom.times(Float64 { bits: WHEEL_IN })),
        ),
        crate::input::zoom_within_limits(zoom.times(Float64 { bits: WHEEL_OUT })).value()
            <= zoom.value(),
        crate::input::zoom_within_limits(zoom.times(Float64 { bits: WHEEL_IN })).value()
            >= zoom.value(),
{
    let out = Float64 { bits: WHEEL_OUT };
    let inwards = Float64 { bits: WHEEL_IN };
    assert(crate::float64::units(0) == 0);
    crate::float64::lemma_units_ordered(0, LEAST_ZOOM as nat);
    if zoom.magnitude() >= INFINITY_BITS {
        crate::float64::lemma_units_ordered(GREATEST_ZOOM as nat, INFINITY_BITS as nat);
    }
    assert(!zoom.negative() && zoom.magnitude() < INFINITY_BITS);
    crate::places::lemma_times_part(out, zoom);
    crate::rounding::lemma_times_signs(out, zoom);
    let a = zoom.times(out);
    if a.magnitude() < zoom.magnitude() {
        crate::float64::lemma_units_ordered(a.magnitude(), zoom.magnitude());
    }
    reveal(crate::float64::product);
    let u = crate::float64::units(zoom.magnitude());
    let v = crate::float64::units(WHEEL_IN as nat);
    let one = crate::float64::unity();
    crate::rounding::lemma_units_of_one();
    crate::float64::lemma_units_ordered(ONE as nat, WHEEL_IN as nat);
    assert(u * v >= one * u) by (nonlinear_arith)
        requires
            v >= one,
            u >= 0,
    ;
    crate::rounding::lemma_rounded_is_nearest(u * v, one);
    crate::rounding::lemma_rounded_at_least(u * v, one, zoom.magnitude());
    let b = zoom.times(inwards);
    crate::input::lemma_zoom_stays_within_limits(a);
    crate::input::lemma_zoom_stays_within_limits(b);
    if zoom.magnitude() < b.magnitude() {
        crate::float64::lemma_units_ordered(zoom.magnitude(), b.magnitude());
    }
}

}
