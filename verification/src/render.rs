//! What a client draws, as a list of steps for a canvas.
use crate::client::{ClientState, ClientView, RemotePlayer, RemotePlayerView, TerritoryRingView};
use crate::float64::Float64;
use crate::geometry::{ONE, ZERO};
use crate::protocol::{Position, CELL_SIZE, PLAYER_SPEED};
use crate::spawn::TWO;
use vstd::prelude::*;

verus! {

/// The width of a grid line, and the size of a crown in sprites: 0.5.
pub const HALF: u64 = 0x3fe0_0000_0000_0000;

/// The width of a trail in cells, and the longest time for which a movement is guessed, in
/// seconds: 0.15.
pub const FIFTEEN_HUNDREDTHS: u64 = 0x3fc3_3333_3333_3333;

/// The radius of a player in cells, and how far above it its crown is in sprites: 0.4.
pub const FOUR_TENTHS: u64 = 0x3fd9_9999_9999_999a;

/// The size of a sprite in radii: 8.
pub const SPRITE_SCALE: u64 = 0x4020_0000_0000_0000;

/// The length of the line ahead of a player in radii: 1.6.
pub const POINTER_SCALE: u64 = 0x3ff9_9999_9999_999a;

/// The milliseconds of a second: 1000.
pub const MILLISECONDS: u64 = 0x408f_4000_0000_0000;

/// One step of drawing.
pub enum DrawOp {
    FillStyle(String),
    /// Fill with the pattern of a sprite in a color.
    FillPattern { sprite_id: u32, color: [u8; 3] },
    StrokeStyle(String),
    LineWidth(Float64),
    /// Draw lines with round ends and corners.
    RoundLines,
    BeginPath,
    MoveTo(Position),
    LineTo(Position),
    ClosePath,
    Fill,
    Stroke,
    /// Fill from the upper left corner.
    FillRect { width: Float64, height: Float64 },
    Circle { center: Position, radius: Float64 },
    /// Draw a sprite with its upper left corner at a point.
    Sprite { sprite_id: u32, corner: Position, size: Float64 },
    /// Draw a golden crown above a point.
    Crown { size: Float64, at: Position },
    /// Write a text around a point.
    Message { text: String, at: Position },
}

/// The contents of a [`DrawOp`].
#[verifier::ext_equal]
pub enum DrawView {
    FillStyle(Seq<char>),
    FillPattern { sprite_id: u32, color: [u8; 3] },
    StrokeStyle(Seq<char>),
    LineWidth(Float64),
    RoundLines,
    BeginPath,
    MoveTo(Position),
    LineTo(Position),
    ClosePath,
    Fill,
    Stroke,
    FillRect { width: Float64, height: Float64 },
    Circle { center: Position, radius: Float64 },
    Sprite { sprite_id: u32, corner: Position, size: Float64 },
    Crown { size: Float64, at: Position },
    Message { text: Seq<char>, at: Position },
}

impl View for DrawOp {
    type V = DrawView;

    open spec fn view(&self) -> DrawView {
        match self {
            DrawOp::FillStyle(style) => DrawView::FillStyle(style@),
            DrawOp::FillPattern { sprite_id, color } => DrawView::FillPattern {
                sprite_id: *sprite_id,
                color: *color,
            },
            DrawOp::StrokeStyle(style) => DrawView::StrokeStyle(style@),
            DrawOp::LineWidth(width) => DrawView::LineWidth(*width),
            DrawOp::RoundLines => DrawView::RoundLines,
            DrawOp::BeginPath => DrawView::BeginPath,
            DrawOp::MoveTo(p) => DrawView::MoveTo(*p),
            DrawOp::LineTo(p) => DrawView::LineTo(*p),
            DrawOp::ClosePath => DrawView::ClosePath,
            DrawOp::Fill => DrawView::Fill,
            DrawOp::Stroke => DrawView::Stroke,
            DrawOp::FillRect { width, height } => DrawView::FillRect {
                width: *width,
                height: *height,
            },
            DrawOp::Circle { center, radius } => DrawView::Circle {
                center: *center,
                radius: *radius,
            },
            DrawOp::Sprite { sprite_id, corner, size } => DrawView::Sprite {
                sprite_id: *sprite_id,
                corner: *corner,
                size: *size,
            },
            DrawOp::Crown { size, at } => DrawView::Crown { size: *size, at: *at },
            DrawOp::Message { text, at } => DrawView::Message { text: text@, at: *at },
        }
    }
}

/// The contents of some steps of drawing.
pub open spec fn steps(ops: Seq<DrawOp>) -> Seq<DrawView> {
    ops.map_values(|op: DrawOp| op@)
}

/// The direction of a player.
#[derive(Clone, Copy, Debug, PartialEq, Eq, Structural)]
pub struct Heading {
    pub cos: Float64,
    pub sin: Float64,
}

/// A pattern: a sprite in a color.
#[derive(Clone, Copy, Debug)]
pub struct PatternKey {
    pub sprite_id: u32,
    pub color: [u8; 3],
}

// ---------------------------------------------------------------------------------------------
// The camera
// ---------------------------------------------------------------------------------------------

/// Where the middle of the screen is on the board, and how large a unit of the board is drawn.
#[derive(Clone, Copy, Debug, PartialEq, Eq, Structural)]
pub struct Camera {
    pub center: Position,
    pub scale: Float64,
    pub width: Float64,
    pub height: Float64,
}

impl Camera {
    /// What `x_of` returns.
    pub open spec fn spec_x_of(self, x: Float64) -> Float64 {
        x.minus(self.center.x).times(self.scale).plus(self.width.over(Float64 { bits: TWO }))
    }

    /// Where a coordinate of the board is on the screen, from the left.
    #[verifier::when_used_as_spec(spec_x_of)]
    pub fn x_of(self, x: Float64) -> (r: Float64)
        ensures
            r == self.spec_x_of(x),
    {
        x.minus(self.center.x).times(self.scale).plus(self.width.over(Float64 { bits: TWO }))
    }

    /// What `y_of` returns.
    pub open spec fn spec_y_of(self, y: Float64) -> Float64 {
        y.minus(self.center.y).times(self.scale).plus(self.height.over(Float64 { bits: TWO }))
    }

    /// Where a coordinate of the board is on the screen, from above.
    #[verifier::when_used_as_spec(spec_y_of)]
    pub fn y_of(self, y: Float64) -> (r: Float64)
        ensures
            r == self.spec_y_of(y),
    {
        y.minus(self.center.y).times(self.scale).plus(self.height.over(Float64 { bits: TWO }))
    }

    /// What `point_of` returns.
    pub open spec fn spec_point_of(self, p: Position) -> Position {
        Position { x: self.x_of(p.x), y: self.y_of(p.y) }
    }

    /// Where a point of the board is on the screen.
    #[verifier::when_used_as_spec(spec_point_of)]
    pub fn point_of(self, p: Position) -> (r: Position)
        ensures
            r == self.spec_point_of(p),
    {
        Position { x: self.x_of(p.x), y: self.y_of(p.y) }
    }
}

impl RemotePlayerView {
    /// Where the player is by now, if it has gone on as it was seen; not for long.
    pub open spec fn guessed(self, heading: Heading, now: Float64) -> Position {
        if self.angle.is_nan() {
            self.position
        } else {
            let dt = now.minus(self.server_time).over(Float64 { bits: MILLISECONDS }).min(
                Float64 { bits: FIFTEEN_HUNDREDTHS },
            );
            let speed = Float64 { bits: PLAYER_SPEED };
            Position {
                x: self.position.x.plus(heading.cos.times(speed).times(dt)),
                y: self.position.y.plus(heading.sin.times(speed).times(dt)),
            }
        }
    }
}

impl RemotePlayer {
    /// Where the player is by now, if it has gone on as it was seen.
    pub fn extrap(&self, heading: Heading, now: Float64) -> (r: Position)
        ensures
            r == self@.guessed(heading, now),
    {
        if self.angle.is_nan() {
            return self.position;
        }
        let dt = now.minus(self.server_time).over(Float64 { bits: MILLISECONDS }).min(
            Float64 { bits: FIFTEEN_HUNDREDTHS },
        );
        let speed = Float64 { bits: PLAYER_SPEED };
        Position {
            x: self.position.x.plus(heading.cos.times(speed).times(dt)),
            y: self.position.y.plus(heading.sin.times(speed).times(dt)),
        }
    }
}

impl ClientView {
    /// The camera on the own player, or on the middle of the board.
    pub open spec fn camera(self, headings: Seq<Heading>, now: Float64) -> Camera {
        let middle = Position { x: Float64 { bits: ZERO }, y: Float64 { bits: ZERO } };
        Camera {
            center: match self.player_id {
                None => middle,
                Some(id) => match crate::client::place_of(self.players, id) {
                    None => middle,
                    Some(i) => self.players[i].guessed(headings[i], now),
                },
            },
            scale: (Float64 { bits: CELL_SIZE }).times(self.zoom),
            width: self.width,
            height: self.height,
        }
    }
}

// ---------------------------------------------------------------------------------------------
// The grid
// ---------------------------------------------------------------------------------------------

/// The upright lines of the grid from one coordinate to another.
pub open spec fn columns(camera: Camera, from: int, to: int) -> Seq<DrawView>
    decreases to - from + 1,
{
    if to < from {
        Seq::empty()
    } else {
        let x = camera.x_of(crate::float64::whole(to));
        columns(camera, from, to - 1) + seq![
            DrawView::MoveTo(Position { x, y: Float64 { bits: ZERO } }),
            DrawView::LineTo(Position { x, y: camera.height }),
        ]
    }
}

/// The level lines of the grid from one coordinate to another.
pub open spec fn rows(camera: Camera, from: int, to: int) -> Seq<DrawView>
    decreases to - from + 1,
{
    if to < from {
        Seq::empty()
    } else {
        let y = camera.y_of(crate::float64::whole(to));
        rows(camera, from, to - 1) + seq![
            DrawView::MoveTo(Position { x: Float64 { bits: ZERO }, y }),
            DrawView::LineTo(Position { x: camera.width, y }),
        ]
    }
}

/// How many lines of the grid a length of the screen takes on either side of its middle.
pub open spec fn lines_beside(length: Float64, scale: Float64) -> int {
    length.over(scale).over(Float64 { bits: TWO }).ceil_i32() + 1
}

/// The grid.
pub open spec fn grid(camera: Camera) -> Seq<DrawView> {
    let across = lines_beside(camera.width, camera.scale);
    let along = lines_beside(camera.height, camera.scale);
    let x = camera.center.x.floor_i32();
    let y = camera.center.y.floor_i32();
    seq![
        DrawView::StrokeStyle("rgba(0,0,0,0.04)"@),
        DrawView::LineWidth(Float64 { bits: HALF }),
        DrawView::BeginPath,
    ] + columns(camera, x - across, x + across) + rows(camera, y - along, y + along) + seq![
        DrawView::Stroke,
    ]
}

fn push_op(out: &mut Vec<DrawOp>, op: DrawOp)
    ensures
        steps(final(out)@) == steps(old(out)@).push(op@),
{
    out.push(op);
    proof {
        assert(steps(out@) =~= steps(old(out)@).push(op@));
    }
}

fn push_columns(out: &mut Vec<DrawOp>, camera: Camera, from: i64, to: i64)
    requires
        to < i64::MAX,
    ensures
        steps(final(out)@) == steps(old(out)@) + columns(camera, from as int, to as int),
{
    let ghost start = steps(out@);
    let mut i = from;
    proof {
        assert(start =~= start + columns(camera, from as int, from - 1));
        assert(to < from ==> columns(camera, from as int, to as int) =~= Seq::empty());
    }
    while i <= to
        invariant
            from <= i,
            i <= to + 1 || i == from,
            to < i64::MAX,
            steps(out@) == start + columns(camera, from as int, i - 1),
        decreases to + 1 - i,
    {
        let x = camera.x_of(Float64::from_whole(i));
        push_op(out, DrawOp::MoveTo(Position { x, y: Float64 { bits: ZERO } }));
        push_op(out, DrawOp::LineTo(Position { x, y: camera.height }));
        proof {
            assert(steps(out@) =~= start + columns(camera, from as int, i as int));
        }
        i += 1;
    }
    proof {
        if from <= to {
            assert(i == to + 1);
        } else {
            assert(start + columns(camera, from as int, to as int) =~= start + columns(
                camera,
                from as int,
                from - 1,
            ));
        }
    }
}

fn push_rows(out: &mut Vec<DrawOp>, camera: Camera, from: i64, to: i64)
    requires
        to < i64::MAX,
    ensures
        steps(final(out)@) == steps(old(out)@) + rows(camera, from as int, to as int),
{
    let ghost start = steps(out@);
    let mut i = from;
    proof {
        assert(start =~= start + rows(camera, from as int, from - 1));
        assert(to < from ==> rows(camera, from as int, to as int) =~= Seq::empty());
    }
    while i <= to
        invariant
            from <= i,
            i <= to + 1 || i == from,
            to < i64::MAX,
            steps(out@) == start + rows(camera, from as int, i - 1),
        decreases to + 1 - i,
    {
        let y = camera.y_of(Float64::from_whole(i));
        push_op(out, DrawOp::MoveTo(Position { x: Float64 { bits: ZERO }, y }));
        push_op(out, DrawOp::LineTo(Position { x: camera.width, y }));
        proof {
            assert(steps(out@) =~= start + rows(camera, from as int, i as int));
        }
        i += 1;
    }
    proof {
        if from <= to {
            assert(i == to + 1);
        } else {
            assert(start + rows(camera, from as int, to as int) =~= start + rows(
                camera,
                from as int,
                from - 1,
            ));
        }
    }
}

fn push_grid(out: &mut Vec<DrawOp>, camera: Camera)
    ensures
        steps(final(out)@) == steps(old(out)@) + grid(camera),
{
    let two = Float64 { bits: TWO };
    let across: i64 = camera.width.over(camera.scale).over(two).ceil_i32() as i64 + 1;
    let along: i64 = camera.height.over(camera.scale).over(two).ceil_i32() as i64 + 1;
    let x: i64 = camera.center.x.floor_i32() as i64;
    let y: i64 = camera.center.y.floor_i32() as i64;
    push_op(out, DrawOp::StrokeStyle(String::from_str("rgba(0,0,0,0.04)")));
    push_op(out, DrawOp::LineWidth(Float64 { bits: HALF }));
    push_op(out, DrawOp::BeginPath);
    push_columns(out, camera, x - across, x + across);
    push_rows(out, camera, y - along, y + along);
    push_op(out, DrawOp::Stroke);
    proof {
        assert(steps(out@) =~= steps(old(out)@) + grid(camera));
    }
}

// ---------------------------------------------------------------------------------------------
// Territories
// ---------------------------------------------------------------------------------------------

/// A path through some points.
pub open spec fn path(camera: Camera, points: Seq<Position>) -> Seq<DrawView> {
    Seq::new(
        points.len(),
        |i: int|
            if i == 0 {
                DrawView::MoveTo(camera.point_of(points[i]))
            } else {
                DrawView::LineTo(camera.point_of(points[i]))
            },
    )
}

impl TerritoryRingView {
    /// Whether an outline is drawn: it has a surface, and its box is not off the screen.
    pub open spec fn drawn(self, camera: Camera) -> bool {
        let zero = Float64 { bits: ZERO };
        &&& self.points.len() >= 3
        &&& !camera.x_of(self.bounds.max_x).lt(zero)
        &&& !camera.width.lt(camera.x_of(self.bounds.min_x))
        &&& !camera.y_of(self.bounds.max_y).lt(zero)
        &&& !camera.height.lt(camera.y_of(self.bounds.min_y))
    }
}

/// The paths of the first `n` outlines in a color.
pub open spec fn outlines_in(
    camera: Camera,
    rings: Seq<TerritoryRingView>,
    color: [u8; 3],
    n: int,
) -> Seq<DrawView>
    decreases n,
{
    if n <= 0 {
        Seq::empty()
    } else {
        let ring = rings[n - 1];
        let earlier = outlines_in(camera, rings, color, n - 1);
        if ring.drawn(camera) && ring.color == color {
            earlier + path(camera, ring.points) + seq![DrawView::ClosePath]
        } else {
            earlier
        }
    }
}

/// Whether an outline is the first of those drawn in its color.
pub open spec fn leads(camera: Camera, rings: Seq<TerritoryRingView>, i: int) -> bool {
    &&& rings[i].drawn(camera)
    &&& forall|k: int|
        0 <= k < i && (#[trigger] rings[k]).drawn(camera) ==> rings[k].color != rings[i].color
}

/// Whether there is a pattern of a sprite in a color.
pub open spec fn has_pattern(patterns: Seq<PatternKey>, sprite_id: u32, color: [u8; 3]) -> bool {
    exists|k: int|
        0 <= k < patterns.len() && (#[trigger] patterns[k]).sprite_id == sprite_id
            && patterns[k].color == color
}

/// All outlines in the color of one, filled at once with its pattern or else with its color.
pub open spec fn filled(
    camera: Camera,
    rings: Seq<TerritoryRingView>,
    patterns: Seq<PatternKey>,
    i: int,
) -> Seq<DrawView> {
    let ring = rings[i];
    seq![
        if has_pattern(patterns, ring.sprite_id, ring.color) {
            DrawView::FillPattern { sprite_id: ring.sprite_id, color: ring.color }
        } else {
            DrawView::FillStyle(ring.color_str)
        },
        DrawView::BeginPath,
    ] + outlines_in(camera, rings, ring.color, rings.len() as int) + seq![DrawView::Fill]
}

/// The territories whose color comes first with one of the first `n` outlines.
pub open spec fn territories(
    camera: Camera,
    rings: Seq<TerritoryRingView>,
    patterns: Seq<PatternKey>,
    n: int,
) -> Seq<DrawView>
    decreases n,
{
    if n <= 0 {
        Seq::empty()
    } else if leads(camera, rings, n - 1) {
        territories(camera, rings, patterns, n - 1) + filled(camera, rings, patterns, n - 1)
    } else {
        territories(camera, rings, patterns, n - 1)
    }
}

fn push_path(out: &mut Vec<DrawOp>, camera: Camera, points: &Vec<Position>)
    ensures
        steps(final(out)@) == steps(old(out)@) + path(camera, points@),
{
    let ghost start = steps(out@);
    let mut i: usize = 0;
    proof {
        assert(start =~= start + path(camera, points@).take(0));
    }
    while i < points.len()
        invariant
            i <= points@.len(),
            steps(out@) == start + path(camera, points@).take(i as int),
        decreases points@.len() - i,
    {
        let p = camera.point_of(points[i]);
        if i == 0 {
            push_op(out, DrawOp::MoveTo(p));
        } else {
            push_op(out, DrawOp::LineTo(p));
        }
        proof {
            assert(steps(out@) =~= start + path(camera, points@).take(i + 1));
        }
        i += 1;
    }
    proof {
        assert(path(camera, points@).take(i as int) =~= path(camera, points@));
    }
}

/// Whether there is a pattern of a sprite in a color.
fn pattern_known(patterns: &Vec<PatternKey>, sprite_id: u32, color: [u8; 3]) -> (r: bool)
    ensures
        r == has_pattern(patterns@, sprite_id, color),
{
    let mut i: usize = 0;
    while i < patterns.len()
        invariant
            i <= patterns@.len(),
            forall|k: int|
                0 <= k < i ==> !((#[trigger] patterns@[k]).sprite_id == sprite_id
                    && patterns@[k].color == color),
        decreases patterns@.len() - i,
    {
        if patterns[i].sprite_id == sprite_id && crate::client::same_color(
            patterns[i].color,
            color,
        ) {
            return true;
        }
        i += 1;
    }
    false
}

impl ClientState {
    fn is_drawn(&self, camera: Camera, i: usize) -> (r: bool)
        requires
            i < self.territory@.len(),
        ensures
            r == self@.territory[i as int].drawn(camera),
    {
        let ring = &self.territory[i];
        proof {
            assert(self@.territory[i as int] == ring@);
        }
        let zero = Float64 { bits: ZERO };
        ring.points.len() >= 3 && !camera.x_of(ring.bounds.max_x).lt(zero) && !camera.width.lt(
            camera.x_of(ring.bounds.min_x),
        ) && !camera.y_of(ring.bounds.max_y).lt(zero) && !camera.height.lt(
            camera.y_of(ring.bounds.min_y),
        )
    }

    fn is_leading(&self, camera: Camera, i: usize) -> (r: bool)
        requires
            i < self.territory@.len(),
        ensures
            r == leads(camera, self@.territory, i as int),
    {
        if !self.is_drawn(camera, i) {
            return false;
        }
        let ghost rings = self@.territory;
        let mut k: usize = 0;
        while k < i
            invariant
                k <= i < self.territory@.len(),
                rings == self@.territory,
                forall|j: int|
                    0 <= j < k && (#[trigger] rings[j]).drawn(camera) ==> rings[j].color
                        != rings[i as int].color,
            decreases i - k,
        {
            proof {
                assert(rings[k as int] == self.territory@[k as int]@);
                assert(rings[i as int] == self.territory@[i as int]@);
            }
            if self.is_drawn(camera, k) && crate::client::same_color(
                self.territory[k].color,
                self.territory[i].color,
            ) {
                return false;
            }
            k += 1;
        }
        true
    }

    fn push_filled(
        &self,
        out: &mut Vec<DrawOp>,
        camera: Camera,
        patterns: &Vec<PatternKey>,
        i: usize,
    )
        requires
            i < self.territory@.len(),
        ensures
            steps(final(out)@) == steps(old(out)@) + filled(
                camera,
                self@.territory,
                patterns@,
                i as int,
            ),
    {
        let ghost rings = self@.territory;
        let ghost start = steps(out@);
        let ring = &self.territory[i];
        proof {
            assert(rings[i as int] == ring@);
        }
        if pattern_known(patterns, ring.sprite_id, ring.color) {
            push_op(out, DrawOp::FillPattern { sprite_id: ring.sprite_id, color: ring.color });
        } else {
            push_op(out, DrawOp::FillStyle(ring.color_str.clone()));
        }
        push_op(out, DrawOp::BeginPath);
        let ghost head = steps(out@);
        let mut k: usize = 0;
        proof {
            assert(head =~= head + outlines_in(camera, rings, ring.color, 0));
        }
        while k < self.territory.len()
            invariant
                k <= self.territory@.len(),
                rings == self@.territory,
                steps(out@) == head + outlines_in(camera, rings, ring.color, k as int),
            decreases self.territory@.len() - k,
        {
            let other = &self.territory[k];
            let ghost earlier = outlines_in(camera, rings, ring.color, k as int);
            proof {
                assert(rings[k as int] == other@);
            }
            if self.is_drawn(camera, k) && crate::client::same_color(other.color, ring.color) {
                push_path(out, camera, &other.points);
                push_op(out, DrawOp::ClosePath);
                proof {
                    assert(steps(out@) =~= head + (earlier + path(camera, other.points@) + seq![
                        DrawView::ClosePath,
                    ]));
                }
            }
            k += 1;
        }
        push_op(out, DrawOp::Fill);
        proof {
            assert(steps(out@) =~= start + filled(camera, rings, patterns@, i as int));
        }
    }

    fn push_territories(&self, out: &mut Vec<DrawOp>, camera: Camera, patterns: &Vec<PatternKey>)
        ensures
            steps(final(out)@) == steps(old(out)@) + territories(
                camera,
                self@.territory,
                patterns@,
                self@.territory.len() as int,
            ),
    {
        let ghost rings = self@.territory;
        let ghost start = steps(out@);
        let mut i: usize = 0;
        proof {
            assert(start =~= start + territories(camera, rings, patterns@, 0));
        }
        while i < self.territory.len()
            invariant
                i <= self.territory@.len(),
                rings == self@.territory,
                steps(out@) == start + territories(camera, rings, patterns@, i as int),
            decreases self.territory@.len() - i,
        {
            let ghost earlier = territories(camera, rings, patterns@, i as int);
            if self.is_leading(camera, i) {
                self.push_filled(out, camera, patterns, i);
                proof {
                    assert(steps(out@) =~= start + (earlier + filled(
                        camera,
                        rings,
                        patterns@,
                        i as int,
                    )));
                }
            }
            i += 1;
        }
    }
}

// ---------------------------------------------------------------------------------------------
// Trails and players
// ---------------------------------------------------------------------------------------------

/// The trails of the first `n` players.
pub open spec fn trails(camera: Camera, players: Seq<RemotePlayerView>, n: int) -> Seq<DrawView>
    decreases n,
{
    if n <= 0 {
        Seq::empty()
    } else {
        let p = players[n - 1];
        let earlier = trails(camera, players, n - 1);
        if p.trail.len() < 2 {
            earlier
        } else {
            earlier + seq![
                DrawView::StrokeStyle(p.color_trail),
                DrawView::LineWidth(
                    camera.scale.times(Float64 { bits: FIFTEEN_HUNDREDTHS }).max(
                        Float64 { bits: ONE },
                    ),
                ),
                DrawView::RoundLines,
                DrawView::BeginPath,
            ] + path(camera, p.trail) + seq![DrawView::Stroke]
        }
    }
}

/// The first player with a sprite, whose colors go with the sprite.
pub open spec fn first_with_sprite(players: Seq<RemotePlayerView>, sprite_id: u32) -> int
    decreases players.len(),
{
    if players.len() == 0 {
        0
    } else {
        let k = first_with_sprite(players.drop_last(), sprite_id);
        if k < players.len() - 1 || players.last().sprite_id == sprite_id {
            k
        } else {
            players.len() as int
        }
    }
}

/// One player: its sprite, or else a disc, the line ahead of it, and its crown.
pub open spec fn player_drawn(
    camera: Camera,
    p: RemotePlayerView,
    colors: RemotePlayerView,
    heading: Heading,
    images: Seq<u32>,
    now: Float64,
) -> Seq<DrawView> {
    let at = camera.point_of(p.guessed(heading, now));
    let radius = camera.scale.times(Float64 { bits: FOUR_TENTHS });
    let size = radius.times(Float64 { bits: SPRITE_SCALE });
    let half = size.over(Float64 { bits: TWO });
    let ahead = radius.times(Float64 { bits: POINTER_SCALE });
    (if images.contains(p.sprite_id) {
        seq![
            DrawView::Sprite {
                sprite_id: p.sprite_id,
                corner: Position { x: at.x.minus(half), y: at.y.minus(half) },
                size,
            },
        ]
    } else {
        seq![
            DrawView::FillStyle(colors.color_fill),
            DrawView::BeginPath,
            DrawView::Circle { center: at, radius },
            DrawView::Fill,
        ]
    }) + (if p.angle.is_nan() {
        Seq::<DrawView>::empty()
    } else {
        seq![
            DrawView::StrokeStyle(colors.color_trail),
            DrawView::LineWidth(Float64 { bits: TWO }),
            DrawView::BeginPath,
            DrawView::MoveTo(at),
            DrawView::LineTo(
                Position {
                    x: at.x.plus(heading.cos.times(ahead)),
                    y: at.y.plus(heading.sin.times(ahead)),
                },
            ),
            DrawView::Stroke,
        ]
    }) + (if p.has_crown {
        seq![
            DrawView::Crown {
                size: size.times(Float64 { bits: HALF }),
                at: Position { x: at.x, y: at.y.minus(size.times(Float64 { bits: FOUR_TENTHS })) },
            },
        ]
    } else {
        Seq::<DrawView>::empty()
    })
}

/// The first `n` players.
pub open spec fn players_drawn(
    camera: Camera,
    players: Seq<RemotePlayerView>,
    headings: Seq<Heading>,
    images: Seq<u32>,
    now: Float64,
    n: int,
) -> Seq<DrawView>
    decreases n,
{
    if n <= 0 {
        Seq::empty()
    } else {
        let p = players[n - 1];
        players_drawn(camera, players, headings, images, now, n - 1) + player_drawn(
            camera,
            p,
            players[first_with_sprite(players, p.sprite_id)],
            headings[n - 1],
            images,
            now,
        )
    }
}

proof fn lemma_first_with_sprite(players: Seq<RemotePlayerView>, sprite_id: u32, i: int)
    requires
        0 <= i < players.len(),
        players[i].sprite_id == sprite_id,
    ensures
        0 <= first_with_sprite(players, sprite_id) < players.len(),
    decreases players.len(),
{
    lemma_first_with_sprite_bounds(players.drop_last(), sprite_id);
    if i < players.len() - 1 {
        lemma_first_with_sprite(players.drop_last(), sprite_id, i);
    }
}

proof fn lemma_first_with_sprite_bounds(players: Seq<RemotePlayerView>, sprite_id: u32)
    ensures
        0 <= first_with_sprite(players, sprite_id) <= players.len(),
    decreases players.len(),
{
    if players.len() > 0 {
        lemma_first_with_sprite_bounds(players.drop_last(), sprite_id);
    }
}

/// Whether a list holds a sprite.
fn holds_sprite(sprites: &Vec<u32>, sprite_id: u32) -> (r: bool)
    ensures
        r == sprites@.contains(sprite_id),
{
    let mut i: usize = 0;
    while i < sprites.len()
        invariant
            i <= sprites@.len(),
            forall|j: int| 0 <= j < i ==> sprites@[j] != sprite_id,
        decreases sprites@.len() - i,
    {
        if sprites[i] == sprite_id {
            return true;
        }
        i += 1;
    }
    false
}

impl ClientView {
    /// The frame that a client draws.
    pub open spec fn frame(
        self,
        headings: Seq<Heading>,
        patterns: Seq<PatternKey>,
        images: Seq<u32>,
        now: Float64,
    ) -> Seq<DrawView> {
        let two = Float64 { bits: TWO };
        let middle = Position { x: self.width.over(two), y: self.height.over(two) };
        let camera = self.camera(headings, now);
        seq![
            DrawView::FillStyle("#ffffff"@),
            DrawView::FillRect { width: self.width, height: self.height },
        ] + if !self.connected {
            seq![DrawView::Message { text: "Connecting..."@, at: middle }]
        } else if !self.alive {
            seq![DrawView::Message { text: "You died! Reconnecting..."@, at: middle }]
        } else {
            grid(camera) + territories(
                camera,
                self.territory,
                patterns,
                self.territory.len() as int,
            ) + trails(camera, self.players, self.players.len() as int) + players_drawn(
                camera,
                self.players,
                headings,
                images,
                now,
                self.players.len() as int,
            )
        }
    }
}

impl ClientState {
    fn place_camera(&self, headings: &Vec<Heading>, now: Float64) -> (r: Camera)
        requires
            headings@.len() == self@.players.len(),
        ensures
            r == self@.camera(headings@, now),
    {
        let middle = Position { x: Float64 { bits: ZERO }, y: Float64 { bits: ZERO } };
        let center = match self.player_id {
            None => middle,
            Some(id) => match self.find(id) {
                None => middle,
                Some(i) => {
                    proof {
                        assert(self@.players[i as int] == self.players@[i as int]@);
                    }
                    self.players[i].extrap(headings[i], now)
                },
            },
        };
        Camera {
            center,
            scale: (Float64 { bits: CELL_SIZE }).times(self.zoom),
            width: self.width,
            height: self.height,
        }
    }

    fn push_trails(&self, out: &mut Vec<DrawOp>, camera: Camera)
        ensures
            steps(final(out)@) == steps(old(out)@) + trails(
                camera,
                self@.players,
                self@.players.len() as int,
            ),
    {
        let ghost players = self@.players;
        let ghost start = steps(out@);
        let width = camera.scale.times(Float64 { bits: FIFTEEN_HUNDREDTHS }).max(
            Float64 { bits: ONE },
        );
        let mut i: usize = 0;
        proof {
            assert(start =~= start + trails(camera, players, 0));
        }
        while i < self.players.len()
            invariant
                i <= self.players@.len(),
                players == self@.players,
                width == camera.scale.times(Float64 { bits: FIFTEEN_HUNDREDTHS }).max(
                    Float64 { bits: ONE },
                ),
                steps(out@) == start + trails(camera, players, i as int),
            decreases self.players@.len() - i,
        {
            let p = &self.players[i];
            let ghost earlier = trails(camera, players, i as int);
            proof {
                assert(players[i as int] == p@);
            }
            if p.trail.len() >= 2 {
                push_op(out, DrawOp::StrokeStyle(p.color_trail.clone()));
                push_op(out, DrawOp::LineWidth(width));
                push_op(out, DrawOp::RoundLines);
                push_op(out, DrawOp::BeginPath);
                push_path(out, camera, &p.trail);
                push_op(out, DrawOp::Stroke);
                proof {
                    assert(steps(out@) =~= start + trails(camera, players, i + 1));
                }
            }
            i += 1;
        }
    }

    /// The first player with the sprite of one.
    fn first_alike(&self, i: usize) -> (r: usize)
        requires
            i < self@.players.len(),
        ensures
            r == first_with_sprite(self@.players, self@.players[i as int].sprite_id),
            r < self.players@.len(),
    {
        let ghost players = self@.players;
        let sprite_id = self.players[i].sprite_id;
        let mut found: usize = 0;
        let mut done = false;
        let mut k: usize = 0;
        proof {
            assert(players[i as int] == self.players@[i as int]@);
            lemma_first_with_sprite(players, sprite_id, i as int);
        }
        while k < self.players.len()
            invariant
                k <= self.players@.len(),
                players == self@.players,
                first_with_sprite(players.take(k as int), sprite_id) == (if done {
                    found as int
                } else {
                    k as int
                }),
                done ==> found < k,
            decreases self.players@.len() - k,
        {
            proof {
                assert(players.take(k + 1).drop_last() =~= players.take(k as int));
                assert(players.take(k + 1).last() == self.players@[k as int]@);
            }
            if !done && self.players[k].sprite_id == sprite_id {
                done = true;
                found = k;
            }
            k += 1;
        }
        proof {
            assert(players.take(k as int) =~= players);
        }
        found
    }

    fn push_player(
        &self,
        out: &mut Vec<DrawOp>,
        camera: Camera,
        i: usize,
        heading: Heading,
        images: &Vec<u32>,
        now: Float64,
    )
        requires
            i < self@.players.len(),
        ensures
            steps(final(out)@) == steps(old(out)@) + player_drawn(
                camera,
                self@.players[i as int],
                self@.players[first_with_sprite(
                    self@.players,
                    self@.players[i as int].sprite_id,
                )],
                heading,
                images@,
                now,
            ),
    {
        let ghost players = self@.players;
        let ghost start = steps(out@);
        let p = &self.players[i];
        let colors = &self.players[self.first_alike(i)];
        proof {
            assert(players[i as int] == p@);
            assert(players[first_with_sprite(players, p@.sprite_id)] == colors@);
        }
        let at = camera.point_of(p.extrap(heading, now));
        let radius = camera.scale.times(Float64 { bits: FOUR_TENTHS });
        let size = radius.times(Float64 { bits: SPRITE_SCALE });
        if holds_sprite(images, p.sprite_id) {
            let half = size.over(Float64 { bits: TWO });
            push_op(
                out,
                DrawOp::Sprite {
                    sprite_id: p.sprite_id,
                    corner: Position { x: at.x.minus(half), y: at.y.minus(half) },
                    size,
                },
            );
        } else {
            push_op(out, DrawOp::FillStyle(colors.color_fill.clone()));
            push_op(out, DrawOp::BeginPath);
            push_op(out, DrawOp::Circle { center: at, radius });
            push_op(out, DrawOp::Fill);
        }
        if !p.angle.is_nan() {
            let ahead = radius.times(Float64 { bits: POINTER_SCALE });
            push_op(out, DrawOp::StrokeStyle(colors.color_trail.clone()));
            push_op(out, DrawOp::LineWidth(Float64 { bits: TWO }));
            push_op(out, DrawOp::BeginPath);
            push_op(out, DrawOp::MoveTo(at));
            push_op(
                out,
                DrawOp::LineTo(
                    Position {
                        x: at.x.plus(heading.cos.times(ahead)),
                        y: at.y.plus(heading.sin.times(ahead)),
                    },
                ),
            );
            push_op(out, DrawOp::Stroke);
        }
        if p.has_crown {
            push_op(
                out,
                DrawOp::Crown {
                    size: size.times(Float64 { bits: HALF }),
                    at: Position {
                        x: at.x,
                        y: at.y.minus(size.times(Float64 { bits: FOUR_TENTHS })),
                    },
                },
            );
        }
        proof {
            assert(steps(out@) =~= start + player_drawn(
                camera,
                p@,
                colors@,
                heading,
                images@,
                now,
            ));
        }
    }

    /// The frame to draw, given the directions of all players, the patterns that there are, and
    /// the sprites whose images can be drawn.
    pub fn render(
        &self,
        headings: &Vec<Heading>,
        patterns: &Vec<PatternKey>,
        images: &Vec<u32>,
        now: Float64,
    ) -> (r: Vec<DrawOp>)
        requires
            headings@.len() == self@.players.len(),
        ensures
            steps(r@) == self@.frame(headings@, patterns@, images@, now),
    {
        let two = Float64 { bits: TWO };
        let middle = Position { x: self.width.over(two), y: self.height.over(two) };
        let mut out: Vec<DrawOp> = Vec::new();
        push_op(&mut out, DrawOp::FillStyle(String::from_str("#ffffff")));
        push_op(&mut out, DrawOp::FillRect { width: self.width, height: self.height });
        if !self.connected {
            let text = String::from_str("Connecting...");
            push_op(&mut out, DrawOp::Message { text, at: middle });
        } else if !self.alive {
            let text = String::from_str("You died! Reconnecting...");
            push_op(&mut out, DrawOp::Message { text, at: middle });
        } else {
            let camera = self.place_camera(headings, now);
            push_grid(&mut out, camera);
            self.push_territories(&mut out, camera, patterns);
            self.push_trails(&mut out, camera);
            let ghost players = self@.players;
            let ghost head = steps(out@);
            let mut i: usize = 0;
            proof {
                assert(head =~= head + players_drawn(camera, players, headings@, images@, now, 0));
            }
            while i < self.players.len()
                invariant
                    i <= self.players@.len(),
                    headings@.len() == self.players@.len(),
                    players == self@.players,
                    steps(out@) == head + players_drawn(
                        camera,
                        players,
                        headings@,
                        images@,
                        now,
                        i as int,
                    ),
                decreases self.players@.len() - i,
            {
                self.push_player(&mut out, camera, i, headings[i], images, now);
                proof {
                    assert(steps(out@) =~= head + players_drawn(
                        camera,
                        players,
                        headings@,
                        images@,
                        now,
                        i + 1,
                    ));
                }
                i += 1;
            }
        }
        proof {
            assert(steps(out@) =~= self@.frame(headings@, patterns@, images@, now));
        }
        out
    }
}

// ---------------------------------------------------------------------------------------------
// What is to be loaded before
// ---------------------------------------------------------------------------------------------

/// The sprites of players that are not known yet.
pub open spec fn sprites_missing(players: Seq<RemotePlayerView>, known: Seq<u32>) -> Seq<u32>
    decreases players.len(),
{
    if players.len() == 0 {
        Seq::empty()
    } else {
        let earlier = sprites_missing(players.drop_last(), known);
        if known.contains(players.last().sprite_id) {
            earlier
        } else {
            earlier.push(players.last().sprite_id)
        }
    }
}

/// The patterns of outlines that are not known yet.
pub open spec fn patterns_missing(
    rings: Seq<TerritoryRingView>,
    known: Seq<PatternKey>,
) -> Seq<PatternKey>
    decreases rings.len(),
{
    if rings.len() == 0 {
        Seq::empty()
    } else {
        let ring = rings.last();
        let earlier = patterns_missing(rings.drop_last(), known);
        if has_pattern(known, ring.sprite_id, ring.color) {
            earlier
        } else {
            earlier.push(PatternKey { sprite_id: ring.sprite_id, color: ring.color })
        }
    }
}

impl ClientState {
    /// The sprites of players that are not known yet.
    pub fn missing_sprites(&self, known: &Vec<u32>) -> (r: Vec<u32>)
        ensures
            r@ == sprites_missing(self@.players, known@),
    {
        let ghost all = self@.players;
        let mut r: Vec<u32> = Vec::new();
        let mut i: usize = 0;
        while i < self.players.len()
            invariant
                i <= self.players@.len(),
                all == self@.players,
                r@ == sprites_missing(all.take(i as int), known@),
            decreases self.players@.len() - i,
        {
            proof {
                assert(all.take(i + 1).drop_last() =~= all.take(i as int));
                assert(all.take(i + 1).last() == self.players@[i as int]@);
            }
            if !holds_sprite(known, self.players[i].sprite_id) {
                r.push(self.players[i].sprite_id);
            }
            i += 1;
        }
        proof {
            assert(all.take(i as int) =~= all);
        }
        r
    }

    /// The patterns of outlines that are not known yet.
    pub fn missing_patterns(&self, known: &Vec<PatternKey>) -> (r: Vec<PatternKey>)
        ensures
            r@ == patterns_missing(self@.territory, known@),
    {
        let ghost all = self@.territory;
        let mut r: Vec<PatternKey> = Vec::new();
        let mut i: usize = 0;
        while i < self.territory.len()
            invariant
                i <= self.territory@.len(),
                all == self@.territory,
                r@ == patterns_missing(all.take(i as int), known@),
            decreases self.territory@.len() - i,
        {
            let ring = &self.territory[i];
            proof {
                assert(all.take(i + 1).drop_last() =~= all.take(i as int));
                assert(all.take(i + 1).last() == ring@);
            }
            if !pattern_known(known, ring.sprite_id, ring.color) {
                r.push(PatternKey { sprite_id: ring.sprite_id, color: ring.color });
            }
            i += 1;
        }
        proof {
            assert(all.take(i as int) =~= all);
        }
        r
    }
}

}
