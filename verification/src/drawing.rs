//! What a frame shows, and where on the screen.
use crate::client::{ClientView, RemotePlayerView, TerritoryRingView};
use crate::float64::{Float64, INFINITY_BITS};
use crate::protocol::Position;
use crate::render::{Camera, DrawView, Heading, PatternKey, FOUR_TENTHS, SPRITE_SCALE};
use crate::spawn::TWO;
use vstd::prelude::*;

verus! {

/// Whether some steps are found in others from a place on.
spec fn is_at(all: Seq<DrawView>, part: Seq<DrawView>, from: int) -> bool {
    0 <= from && from + part.len() <= all.len() && forall|k: int|
        #![trigger part[k]]
        0 <= k < part.len() ==> all[from + k] == part[k]
}

/// Whether some steps are found in others.
spec fn holds(all: Seq<DrawView>, part: Seq<DrawView>) -> bool {
    exists|from: int| #[trigger] is_at(all, part, from)
}

proof fn lemma_holds_between(before: Seq<DrawView>, part: Seq<DrawView>, after: Seq<DrawView>)
    ensures
        holds(before + part + after, part),
        holds(before + part, part),
{
    assert(is_at(before + part + after, part, before.len() as int));
    assert(is_at(before + part, part, before.len() as int));
}

proof fn lemma_holds_chain(all: Seq<DrawView>, more: Seq<DrawView>, part: Seq<DrawView>)
    requires
        holds(all, more),
        holds(more, part),
    ensures
        holds(all, part),
{
    let a = choose|a: int| #[trigger] is_at(all, more, a);
    let b = choose|b: int| #[trigger] is_at(more, part, b);
    assert forall|k: int| #![trigger part[k]] 0 <= k < part.len() implies all[a + b + k]
        == part[k] by {
        assert(more[b + k] == part[k]);
    }
    assert(is_at(all, part, a + b));
}

proof fn lemma_frame_parts(
    client: ClientView,
    headings: Seq<Heading>,
    patterns: Seq<PatternKey>,
    images: Seq<u32>,
    now: Float64,
)
    requires
        client.connected,
        client.alive,
    ensures
        ({
            let all = client.frame(headings, patterns, images, now);
            let camera = client.camera(headings, now);
            let rings = client.territory.len() as int;
            let n = client.players.len() as int;
            &&& holds(all, crate::render::territories(camera, client.territory, patterns, rings))
            &&& holds(all, crate::render::trails(camera, client.players, n))
            &&& holds(
                all,
                crate::render::players_drawn(camera, client.players, headings, images, now, n),
            )
        }),
{
    let all = client.frame(headings, patterns, images, now);
    let camera = client.camera(headings, now);
    let start = seq![
        DrawView::FillStyle("#ffffff"@),
        DrawView::FillRect { width: client.width, height: client.height },
    ];
    let n = client.players.len() as int;
    let grid = crate::render::grid(camera);
    let land = crate::render::territories(
        camera,
        client.territory,
        patterns,
        client.territory.len() as int,
    );
    let trails = crate::render::trails(camera, client.players, n);
    let players = crate::render::players_drawn(camera, client.players, headings, images, now, n);
    assert(all =~= (start + grid) + land + (trails + players));
    lemma_holds_between(start + grid, land, trails + players);
    assert(all =~= (start + grid + land) + trails + players);
    lemma_holds_between(start + grid + land, trails, players);
    assert(all =~= (start + grid + land + trails) + players);
    lemma_holds_between(start + grid + land + trails, players, Seq::empty());
}

// ---------------------------------------------------------------------------------------------
// Players
// ---------------------------------------------------------------------------------------------

/// Whether a step draws a sprite with its middle at a point.
pub open spec fn is_sprite_at(op: DrawView, sprite_id: u32, at: Position) -> bool {
    op matches DrawView::Sprite { sprite_id: s, corner, size } && s == sprite_id && corner.x
        == at.x.minus(size.over(Float64 { bits: TWO })) && corner.y == at.y.minus(
        size.over(Float64 { bits: TWO }),
    )
}

/// Whether a step draws a disc with its middle at a point.
pub open spec fn is_disc_at(op: DrawView, at: Position) -> bool {
    op matches DrawView::Circle { center, radius } && center == at
}

/// Whether a step draws a crown straight over a point: no lower than it, where the board is drawn
/// at some scale and the point is not infinitely far.
pub open spec fn is_crown_over(op: DrawView, at: Position, scale: Float64) -> bool {
    op matches DrawView::Crown { size, at: c } && c.x == at.x && (!scale.nan() && scale.value() > 0
        && at.y.magnitude() < INFINITY_BITS ==> !c.y.nan() && c.y.value() <= at.y.value())
}

/// To go up on the screen by some parts of a scale does not lead down.
proof fn lemma_goes_up(scale: Float64, y: Float64)
    requires
        !scale.nan(),
        scale.value() > 0,
        y.magnitude() < INFINITY_BITS,
    ensures
        ({
            let part = Float64 { bits: FOUR_TENTHS };
            let size = scale.times(part).times(Float64 { bits: SPRITE_SCALE });
            let up = y.minus(size.times(part));
            !up.nan() && up.value() <= y.value()
        }),
{
    let part = Float64 { bits: FOUR_TENTHS };
    let eight = Float64 { bits: SPRITE_SCALE };
    assert(crate::float64::units(0) == 0);
    crate::float64::lemma_units_ordered(0, part.magnitude());
    crate::float64::lemma_units_ordered(0, eight.magnitude());
    crate::motion::lemma_times_positive(scale, part);
    crate::motion::lemma_times_positive(scale.times(part), eight);
    let size = scale.times(part).times(eight);
    crate::motion::lemma_times_positive(size, part);
    crate::motion::lemma_plus_down(y, size.times(part).negated());
}

/// Whether two steps draw a line from a point in a direction, of one length along both axes.
pub open spec fn is_pointer(a: DrawView, b: DrawView, at: Position, heading: Heading) -> bool {
    &&& a == DrawView::MoveTo(at)
    &&& b matches DrawView::LineTo(to) && exists|length: Float64|
        to == (Position {
            x: at.x.plus(#[trigger] heading.cos.times(length)),
            y: at.y.plus(heading.sin.times(length)),
        })
}

proof fn lemma_players_hold(
    camera: Camera,
    players: Seq<RemotePlayerView>,
    headings: Seq<Heading>,
    images: Seq<u32>,
    now: Float64,
    n: int,
    i: int,
)
    requires
        0 <= i < n <= players.len(),
    ensures
        holds(
            crate::render::players_drawn(camera, players, headings, images, now, n),
            crate::render::player_drawn(
                camera,
                players[i],
                players[crate::render::first_with_sprite(players, players[i].sprite_id)],
                headings[i],
                images,
                now,
            ),
        ),
    decreases n,
{
    let p = players[n - 1];
    let fewer = crate::render::players_drawn(camera, players, headings, images, now, n - 1);
    let last = crate::render::player_drawn(
        camera,
        p,
        players[crate::render::first_with_sprite(players, p.sprite_id)],
        headings[n - 1],
        images,
        now,
    );
    lemma_holds_between(fewer, last, Seq::empty());
    if i < n - 1 {
        lemma_players_hold(camera, players, headings, images, now, n - 1, i);
        lemma_holds_between(Seq::empty(), fewer, last);
        assert(Seq::<DrawView>::empty() + fewer + last =~= fewer + last);
        lemma_holds_chain(
            fewer + last,
            fewer,
            crate::render::player_drawn(
                camera,
                players[i],
                players[crate::render::first_with_sprite(players, players[i].sprite_id)],
                headings[i],
                images,
                now,
            ),
        );
    }
}

/// What is drawn of a player at a point: it, the line ahead of it, and its crown.
spec fn shows_player(
    all: Seq<DrawView>,
    p: RemotePlayerView,
    heading: Heading,
    images: Seq<u32>,
    at: Position,
    scale: Float64,
) -> bool {
    &&& images.contains(p.sprite_id) ==> exists|k: int|
        0 <= k < all.len() && is_sprite_at(#[trigger] all[k], p.sprite_id, at)
    &&& !images.contains(p.sprite_id) ==> exists|k: int|
        0 <= k < all.len() && is_disc_at(#[trigger] all[k], at)
    &&& p.has_crown ==> exists|k: int|
        0 <= k < all.len() && is_crown_over(#[trigger] all[k], at, scale)
    &&& !p.angle.nan() ==> exists|k: int|
        0 <= k < all.len() - 1 && is_pointer(#[trigger] all[k], all[k + 1], at, heading)
}

proof fn lemma_player_drawn(
    camera: Camera,
    p: RemotePlayerView,
    colors: RemotePlayerView,
    heading: Heading,
    images: Seq<u32>,
    now: Float64,
)
    ensures
        shows_player(
            crate::render::player_drawn(camera, p, colors, heading, images, now),
            p,
            heading,
            images,
            camera.point_of(p.guessed(heading, now)),
            camera.scale,
        ),
{
    let part = crate::render::player_drawn(camera, p, colors, heading, images, now);
    let at = camera.point_of(p.guessed(heading, now));
    let body = if images.contains(p.sprite_id) {
        1int
    } else {
        4int
    };
    if images.contains(p.sprite_id) {
        assert(is_sprite_at(part[0], p.sprite_id, at));
    } else {
        assert(is_disc_at(part[2], at));
    }
    if !p.angle.nan() {
        assert(part[body + 3] == DrawView::MoveTo(at));
        let ahead = camera.scale.times(Float64 { bits: FOUR_TENTHS }).times(
            Float64 { bits: crate::render::POINTER_SCALE },
        );
        let step = heading.cos.times(ahead);
        assert(part[body + 4] is LineTo);
        assert(is_pointer(part[body + 3], part[body + 3 + 1], at, heading));
    }
    if p.has_crown {
        if !camera.scale.nan() && camera.scale.value() > 0 && at.y.magnitude() < INFINITY_BITS {
            lemma_goes_up(camera.scale, at.y);
        }
        assert(is_crown_over(part[part.len() - 1], at, camera.scale));
    }
}

proof fn lemma_shows_player_too(
    all: Seq<DrawView>,
    part: Seq<DrawView>,
    p: RemotePlayerView,
    heading: Heading,
    images: Seq<u32>,
    at: Position,
    scale: Float64,
)
    requires
        holds(all, part),
        shows_player(part, p, heading, images, at, scale),
    ensures
        shows_player(all, p, heading, images, at, scale),
{
    let from = choose|from: int| #[trigger] is_at(all, part, from);
    if images.contains(p.sprite_id) {
        let k = choose|k: int|
            0 <= k < part.len() && is_sprite_at(#[trigger] part[k], p.sprite_id, at);
        assert(all[from + k] == part[k]);
    } else {
        let k = choose|k: int| 0 <= k < part.len() && is_disc_at(#[trigger] part[k], at);
        assert(all[from + k] == part[k]);
    }
    if p.has_crown {
        let k = choose|k: int|
            0 <= k < part.len() && is_crown_over(#[trigger] part[k], at, scale);
        assert(all[from + k] == part[k]);
    }
    if !p.angle.nan() {
        let k = choose|k: int|
            0 <= k < part.len() - 1 && is_pointer(#[trigger] part[k], part[k + 1], at, heading);
        assert(all[from + k] == part[k]);
        assert(all[from + (k + 1)] == part[k + 1]);
        assert(is_pointer(all[from + k], all[from + k + 1], at, heading));
    }
}

/// A client that plays draws each player that it knows where it guesses the player to be: as its
/// sprite, if there is an image of it, and else as a disc; who moves with a line from there in its
/// direction, who leads with a crown straight over it.
pub proof fn lemma_players_are_shown(
    client: ClientView,
    headings: Seq<Heading>,
    patterns: Seq<PatternKey>,
    images: Seq<u32>,
    now: Float64,
    i: int,
)
    requires
        client.connected,
        client.alive,
        headings.len() == client.players.len(),
        0 <= i < client.players.len(),
    ensures
        ({
            let all = client.frame(headings, patterns, images, now);
            let p = client.players[i];
            let at = client.camera(headings, now).point_of(p.guessed(headings[i], now));
            &&& images.contains(p.sprite_id) ==> exists|k: int|
                0 <= k < all.len() && is_sprite_at(#[trigger] all[k], p.sprite_id, at)
            &&& !images.contains(p.sprite_id) ==> exists|k: int|
                0 <= k < all.len() && is_disc_at(#[trigger] all[k], at)
            &&& p.has_crown ==> exists|k: int|
                0 <= k < all.len() && is_crown_over(
                    #[trigger] all[k],
                    at,
                    client.camera(headings, now).scale,
                )
            &&& !p.angle.nan() ==> exists|k: int|
                0 <= k < all.len() - 1 && is_pointer(
                    #[trigger] all[k],
                    all[k + 1],
                    at,
                    headings[i],
                )
        }),
{
    let all = client.frame(headings, patterns, images, now);
    let camera = client.camera(headings, now);
    let p = client.players[i];
    let n = client.players.len() as int;
    let at = camera.point_of(p.guessed(headings[i], now));
    let colors =
        client.players[crate::render::first_with_sprite(client.players, p.sprite_id)];
    let part = crate::render::player_drawn(camera, p, colors, headings[i], images, now);
    lemma_frame_parts(client, headings, patterns, images, now);
    lemma_players_hold(camera, client.players, headings, images, now, n, i);
    lemma_holds_chain(
        all,
        crate::render::players_drawn(camera, client.players, headings, images, now, n),
        part,
    );
    lemma_player_drawn(camera, p, colors, headings[i], images, now);
    lemma_shows_player_too(all, part, p, headings[i], images, at, camera.scale);
}

// ---------------------------------------------------------------------------------------------
// Trails and territories
// ---------------------------------------------------------------------------------------------

/// Whether the steps from a place on go through some points of the board, in their order.
pub open spec fn goes_through(
    all: Seq<DrawView>,
    from: int,
    camera: Camera,
    points: Seq<Position>,
) -> bool {
    &&& 0 <= from && from + points.len() <= all.len()
    &&& forall|j: int|
        #![trigger points[j]]
        0 <= j < points.len() ==> all[from + j] == if j == 0 {
            DrawView::MoveTo(camera.point_of(points[j]))
        } else {
            DrawView::LineTo(camera.point_of(points[j]))
        }
}

proof fn lemma_path_goes_through(
    all: Seq<DrawView>,
    camera: Camera,
    points: Seq<Position>,
)
    requires
        holds(all, crate::render::path(camera, points)),
    ensures
        exists|from: int| #[trigger] goes_through(all, from, camera, points),
{
    let part = crate::render::path(camera, points);
    let from = choose|from: int| #[trigger] is_at(all, part, from);
    assert forall|j: int|
        #![trigger points[j]]
        0 <= j < points.len() implies all[from + j] == if j == 0 {
        DrawView::MoveTo(camera.point_of(points[j]))
    } else {
        DrawView::LineTo(camera.point_of(points[j]))
    } by {
        assert(all[from + j] == part[j]);
    }
    assert(goes_through(all, from, camera, points));
}

proof fn lemma_trails_hold(camera: Camera, players: Seq<RemotePlayerView>, n: int, i: int)
    requires
        0 <= i < n <= players.len(),
        players[i].trail.len() >= 2,
    ensures
        holds(
            crate::render::trails(camera, players, n),
            crate::render::path(camera, players[i].trail),
        ),
    decreases n,
{
    let fewer = crate::render::trails(camera, players, n - 1);
    let all = crate::render::trails(camera, players, n);
    let path = crate::render::path(camera, players[i].trail);
    if i < n - 1 {
        lemma_trails_hold(camera, players, n - 1, i);
        let more = all.skip(fewer.len() as int);
        assert(all =~= Seq::<DrawView>::empty() + fewer + more);
        lemma_holds_between(Seq::empty(), fewer, more);
        lemma_holds_chain(all, fewer, path);
    } else {
        let before = all.take(fewer.len() as int + 4);
        assert(all =~= before + path + seq![DrawView::Stroke]);
        lemma_holds_between(before, path, seq![DrawView::Stroke]);
    }
}

/// A client that plays draws the whole trail of each player that it knows, corner by corner, where
/// it has more than one.
pub proof fn lemma_trails_are_shown(
    client: ClientView,
    headings: Seq<Heading>,
    patterns: Seq<PatternKey>,
    images: Seq<u32>,
    now: Float64,
    i: int,
)
    requires
        client.connected,
        client.alive,
        0 <= i < client.players.len(),
        client.players[i].trail.len() >= 2,
    ensures
        exists|from: int| #[trigger]
            goes_through(
                client.frame(headings, patterns, images, now),
                from,
                client.camera(headings, now),
                client.players[i].trail,
            ),
{
    let all = client.frame(headings, patterns, images, now);
    let camera = client.camera(headings, now);
    let n = client.players.len() as int;
    lemma_frame_parts(client, headings, patterns, images, now);
    lemma_trails_hold(camera, client.players, n, i);
    lemma_holds_chain(
        all,
        crate::render::trails(camera, client.players, n),
        crate::render::path(camera, client.players[i].trail),
    );
    lemma_path_goes_through(all, camera, client.players[i].trail);
}

/// Whether the box of an outline is on the screen, at least in part.
pub open spec fn on_screen(ring: TerritoryRingView, camera: Camera) -> bool {
    let left = camera.x_of(ring.bounds.min_x);
    let right = camera.x_of(ring.bounds.max_x);
    let above = camera.y_of(ring.bounds.min_y);
    let below = camera.y_of(ring.bounds.max_y);
    &&& 0 <= right.value() && left.value() <= camera.width.value()
    &&& 0 <= below.value() && above.value() <= camera.height.value()
}

/// Whether the places of the sides of a box on the screen are numbers.
pub open spec fn has_place(ring: TerritoryRingView, camera: Camera) -> bool {
    &&& !camera.x_of(ring.bounds.min_x).nan() && !camera.x_of(ring.bounds.max_x).nan()
    &&& !camera.y_of(ring.bounds.min_y).nan() && !camera.y_of(ring.bounds.max_y).nan()
    &&& !camera.width.nan() && !camera.height.nan()
}

proof fn lemma_drawn(ring: TerritoryRingView, camera: Camera)
    requires
        has_place(ring, camera),
    ensures
        ring.drawn(camera) == (ring.points.len() >= 3 && on_screen(ring, camera)),
{
    let zero = Float64 { bits: crate::geometry::ZERO };
    crate::exact::lemma_constants();
    assert(!zero.nan() && zero.value() == 0);
}

proof fn lemma_outlines_hold(
    camera: Camera,
    rings: Seq<TerritoryRingView>,
    n: int,
    i: int,
)
    requires
        0 <= i < n <= rings.len(),
        rings[i].drawn(camera),
    ensures
        holds(
            crate::render::outlines_in(camera, rings, rings[i].color, n),
            crate::render::path(camera, rings[i].points),
        ),
    decreases n,
{
    let color = rings[i].color;
    let fewer = crate::render::outlines_in(camera, rings, color, n - 1);
    let all = crate::render::outlines_in(camera, rings, color, n);
    let path = crate::render::path(camera, rings[i].points);
    if i < n - 1 {
        lemma_outlines_hold(camera, rings, n - 1, i);
        let more = all.skip(fewer.len() as int);
        assert(all =~= Seq::<DrawView>::empty() + fewer + more);
        lemma_holds_between(Seq::empty(), fewer, more);
        lemma_holds_chain(all, fewer, path);
    } else {
        assert(all =~= fewer + path + seq![DrawView::ClosePath]);
        lemma_holds_between(fewer, path, seq![DrawView::ClosePath]);
    }
}

/// An outline that is drawn has one of its color that leads.
proof fn lemma_led(camera: Camera, rings: Seq<TerritoryRingView>, i: int) -> (l: int)
    requires
        0 <= i < rings.len(),
        rings[i].drawn(camera),
    ensures
        0 <= l <= i,
        crate::render::leads(camera, rings, l),
        rings[l].color == rings[i].color,
    decreases i,
{
    if crate::render::leads(camera, rings, i) {
        i
    } else {
        let k = choose|k: int|
            0 <= k < i && (#[trigger] rings[k]).drawn(camera) && rings[k].color == rings[i].color;
        lemma_led(camera, rings, k)
    }
}

proof fn lemma_territories_hold(
    camera: Camera,
    rings: Seq<TerritoryRingView>,
    patterns: Seq<PatternKey>,
    n: int,
    l: int,
)
    requires
        0 <= l < n <= rings.len(),
        crate::render::leads(camera, rings, l),
    ensures
        holds(
            crate::render::territories(camera, rings, patterns, n),
            crate::render::filled(camera, rings, patterns, l),
        ),
    decreases n,
{
    let fewer = crate::render::territories(camera, rings, patterns, n - 1);
    let all = crate::render::territories(camera, rings, patterns, n);
    let part = crate::render::filled(camera, rings, patterns, l);
    if l < n - 1 {
        lemma_territories_hold(camera, rings, patterns, n - 1, l);
        let more = all.skip(fewer.len() as int);
        assert(all =~= Seq::<DrawView>::empty() + fewer + more);
        lemma_holds_between(Seq::empty(), fewer, more);
        lemma_holds_chain(all, fewer, part);
    } else {
        lemma_holds_between(fewer, part, Seq::empty());
    }
}

/// A client that plays draws each outline of three corners or more whose box is on the screen,
/// corner by corner.
pub proof fn lemma_land_is_shown(
    client: ClientView,
    headings: Seq<Heading>,
    patterns: Seq<PatternKey>,
    images: Seq<u32>,
    now: Float64,
    i: int,
)
    requires
        client.connected,
        client.alive,
        0 <= i < client.territory.len(),
        client.territory[i].points.len() >= 3,
        has_place(client.territory[i], client.camera(headings, now)),
        on_screen(client.territory[i], client.camera(headings, now)),
    ensures
        exists|from: int| #[trigger]
            goes_through(
                client.frame(headings, patterns, images, now),
                from,
                client.camera(headings, now),
                client.territory[i].points,
            ),
{
    let all = client.frame(headings, patterns, images, now);
    let camera = client.camera(headings, now);
    let rings = client.territory;
    let n = rings.len() as int;
    let path = crate::render::path(camera, rings[i].points);
    lemma_frame_parts(client, headings, patterns, images, now);
    lemma_drawn(rings[i], camera);
    let l = lemma_led(camera, rings, i);
    let part = crate::render::filled(camera, rings, patterns, l);
    let paths = crate::render::outlines_in(camera, rings, rings[l].color, n);
    lemma_territories_hold(camera, rings, patterns, n, l);
    lemma_outlines_hold(camera, rings, n, i);
    let start = part.take(2);
    assert(part =~= start + paths + seq![DrawView::Fill]);
    lemma_holds_between(start, paths, seq![DrawView::Fill]);
    lemma_holds_chain(part, paths, path);
    lemma_holds_chain(crate::render::territories(camera, rings, patterns, n), part, path);
    lemma_holds_chain(all, crate::render::territories(camera, rings, patterns, n), path);
    lemma_path_goes_through(all, camera, rings[i].points);
}

proof fn lemma_no_land(
    camera: Camera,
    rings: Seq<TerritoryRingView>,
    patterns: Seq<PatternKey>,
    n: int,
)
    requires
        0 <= n <= rings.len(),
        forall|k: int| 0 <= k < n ==> !(#[trigger] rings[k]).drawn(camera),
    ensures
        crate::render::territories(camera, rings, patterns, n) == Seq::<DrawView>::empty(),
    decreases n,
{
    if n > 0 {
        lemma_no_land(camera, rings, patterns, n - 1);
        assert(!rings[n - 1].drawn(camera));
    }
}

/// Outlines that are off the screen or have fewer than three corners are not drawn: the frame is as
/// if there were none.
pub proof fn lemma_land_out_of_sight(
    client: ClientView,
    headings: Seq<Heading>,
    patterns: Seq<PatternKey>,
    images: Seq<u32>,
    now: Float64,
)
    requires
        forall|k: int|
            #![trigger client.territory[k]]
            0 <= k < client.territory.len() ==> has_place(
                client.territory[k],
                client.camera(headings, now),
            ) && !(client.territory[k].points.len() >= 3 && on_screen(
                client.territory[k],
                client.camera(headings, now),
            )),
    ensures
        client.frame(headings, patterns, images, now) == (ClientView {
            territory: Seq::empty(),
            ..client
        }).frame(headings, patterns, images, now),
{
    let camera = client.camera(headings, now);
    let rings = client.territory;
    assert forall|k: int| 0 <= k < rings.len() implies !(#[trigger] rings[k]).drawn(camera) by {
        lemma_drawn(rings[k], camera);
    }
    lemma_no_land(camera, rings, patterns, rings.len() as int);
    let bare = ClientView { territory: Seq::empty(), ..client };
    assert(bare.camera(headings, now) == camera);
    lemma_no_land(camera, bare.territory, patterns, 0);
}

// ---------------------------------------------------------------------------------------------
// Waiting
// ---------------------------------------------------------------------------------------------

/// A client that does not play draws nothing but a message in the middle of the screen, which says
/// whether it is connecting or dead.
pub proof fn lemma_who_waits_is_told(
    client: ClientView,
    headings: Seq<Heading>,
    patterns: Seq<PatternKey>,
    images: Seq<u32>,
    now: Float64,
)
    requires
        !client.connected || !client.alive,
    ensures
        ({
            let all = client.frame(headings, patterns, images, now);
            &&& all.len() == 3
            &&& all[2] matches DrawView::Message { text, at } && text == (if client.connected {
                "You died! Reconnecting..."@
            } else {
                "Connecting..."@
            }) && at.x == client.width.over(Float64 { bits: TWO }) && at.y == client.height.over(
                Float64 { bits: TWO },
            )
        }),
{
}

// ---------------------------------------------------------------------------------------------
// What is to be loaded
// ---------------------------------------------------------------------------------------------

/// To be loaded are just the sprites that some player has and that are not known yet.
pub proof fn lemma_sprites_to_load(
    players: Seq<RemotePlayerView>,
    known: Seq<u32>,
    sprite_id: u32,
)
    ensures
        crate::render::sprites_missing(players, known).contains(sprite_id) == (!known.contains(
            sprite_id,
        ) && exists|i: int| 0 <= i < players.len() && (#[trigger] players[i]).sprite_id
            == sprite_id),
    decreases players.len(),
{
    if players.len() > 0 {
        let rest = players.drop_last();
        lemma_sprites_to_load(rest, known, sprite_id);
        let fewer = crate::render::sprites_missing(rest, known);
        let all = crate::render::sprites_missing(players, known);
        if fewer.contains(sprite_id) {
            let k = choose|k: int| 0 <= k < fewer.len() && fewer[k] == sprite_id;
            assert(all[k] == sprite_id);
            let i = choose|i: int|
                0 <= i < rest.len() && (#[trigger] rest[i]).sprite_id == sprite_id;
            assert(players[i].sprite_id == sprite_id);
        }
        if all.contains(sprite_id) {
            let k = choose|k: int| 0 <= k < all.len() && all[k] == sprite_id;
            if k < fewer.len() {
                assert(fewer[k] == sprite_id);
            } else {
                assert(players[players.len() - 1].sprite_id == sprite_id);
            }
        }
        if exists|i: int| 0 <= i < players.len() && (#[trigger] players[i]).sprite_id
            == sprite_id {
            let i = choose|i: int|
                0 <= i < players.len() && (#[trigger] players[i]).sprite_id == sprite_id;
            if i < rest.len() {
                assert(rest[i].sprite_id == sprite_id);
            } else if !known.contains(sprite_id) {
                assert(all[all.len() - 1] == sprite_id);
            }
        }
    }
}

}
