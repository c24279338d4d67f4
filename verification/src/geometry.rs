//! Segments, outlines and boxes on the board.
use crate::float64::Float64;
use crate::protocol::Position;
use vstd::prelude::*;

verus! {

/// Zero.
pub const ZERO: u64 = 0;

/// One.
pub const ONE: u64 = 0x3ff0_0000_0000_0000;

/// Below this cross product, 1e-10, two segments count as parallel.
pub const PARALLEL: u64 = 0x3ddb_7cdf_d9d7_bdbb;

/// How far inside both segments, 1e-6 of their length, a crossing has to lie.
pub const MARGIN: u64 = 0x3eb0_c6f7_a0b5_ed8d;

/// The largest finite number.
pub const LARGEST: u64 = 0x7fef_ffff_ffff_ffff;

/// The smallest finite number.
pub const SMALLEST: u64 = 0xffef_ffff_ffff_ffff;

/// A crossing this near the start of a movement, 0.01 of it, is taken at once.
pub const NEAR_START: u64 = 0x3f84_7ae1_47ae_147b;

/// One outline of a territory, with the outlines of its holes.
pub struct Polygon {
    pub exterior: Vec<Position>,
    pub interiors: Vec<Vec<Position>>,
}

/// The contents of a [`Polygon`].
#[verifier::ext_equal]
pub struct PolygonView {
    pub exterior: Seq<Position>,
    pub interiors: Seq<Seq<Position>>,
}

impl View for Polygon {
    type V = PolygonView;

    open spec fn view(&self) -> PolygonView {
        PolygonView {
            exterior: self.exterior@,
            interiors: self.interiors@.map_values(|r: Vec<Position>| r@),
        }
    }
}

/// What a player owns: any number of polygons.
pub struct Territory {
    pub polygons: Vec<Polygon>,
}

impl View for Territory {
    type V = Seq<PolygonView>;

    open spec fn view(&self) -> Seq<PolygonView> {
        self.polygons@.map_values(|p: Polygon| p@)
    }
}

// ---------------------------------------------------------------------------------------------
// Segments
// ---------------------------------------------------------------------------------------------

/// The cross product of the directions of two segments.
pub open spec fn cross(a1: Position, a2: Position, b1: Position, b2: Position) -> Float64 {
    let d1x = a2.x.minus(a1.x);
    let d1y = a2.y.minus(a1.y);
    let d2x = b2.x.minus(b1.x);
    let d2y = b2.y.minus(b1.y);
    d1x.times(d2y).minus(d1y.times(d2x))
}

/// How far along the first segment the two lines meet.
pub open spec fn along_first(a1: Position, a2: Position, b1: Position, b2: Position) -> Float64 {
    let d2x = b2.x.minus(b1.x);
    let d2y = b2.y.minus(b1.y);
    b1.x.minus(a1.x).times(d2y).minus(b1.y.minus(a1.y).times(d2x)).over(cross(a1, a2, b1, b2))
}

/// How far along the second segment the two lines meet.
pub open spec fn along_second(a1: Position, a2: Position, b1: Position, b2: Position) -> Float64 {
    let d1x = a2.x.minus(a1.x);
    let d1y = a2.y.minus(a1.y);
    b1.x.minus(a1.x).times(d1y).minus(b1.y.minus(a1.y).times(d1x)).over(cross(a1, a2, b1, b2))
}

/// Whether two segments run side by side.
pub open spec fn parallel(a1: Position, a2: Position, b1: Position, b2: Position) -> bool {
    cross(a1, a2, b1, b2).abs().lt(Float64 { bits: PARALLEL })
}

/// Whether `t` is a place on a segment, ends and all.
pub open spec fn on_segment(t: Float64) -> bool {
    Float64 { bits: ZERO }.le(t) && t.le(Float64 { bits: ONE })
}

/// Whether `t` is a place strictly inside a segment.
pub open spec fn inside_segment(t: Float64) -> bool {
    Float64 { bits: MARGIN }.lt(t) && t.lt(
        Float64 { bits: ONE }.minus(Float64 { bits: MARGIN }),
    )
}

/// The point at `t` along a segment.
pub open spec fn point_along(a1: Position, a2: Position, t: Float64) -> Position {
    Position {
        x: a1.x.plus(t.times(a2.x.minus(a1.x))),
        y: a1.y.plus(t.times(a2.y.minus(a1.y))),
    }
}

/// Where the first segment meets the second, and how far along it.
pub open spec fn meeting(a1: Position, a2: Position, b1: Position, b2: Position) -> Option<
    (Position, Float64),
> {
    let t = along_first(a1, a2, b1, b2);
    if !parallel(a1, a2, b1, b2) && on_segment(t) && on_segment(along_second(a1, a2, b1, b2)) {
        Some((point_along(a1, a2, t), t))
    } else {
        None
    }
}

/// Whether two segments cross strictly inside both.
pub open spec fn crossing(a1: Position, a2: Position, b1: Position, b2: Position) -> bool {
    &&& !parallel(a1, a2, b1, b2)
    &&& inside_segment(along_first(a1, a2, b1, b2))
    &&& inside_segment(along_second(a1, a2, b1, b2))
}

/// Where the first segment meets the second, and how far along it.
pub fn seg_intersection(a1: Position, a2: Position, b1: Position, b2: Position) -> (r: Option<
    (Position, Float64),
>)
    ensures
        r == meeting(a1, a2, b1, b2),
{
    let d1x = a2.x.minus(a1.x);
    let d1y = a2.y.minus(a1.y);
    let d2x = b2.x.minus(b1.x);
    let d2y = b2.y.minus(b1.y);
    let denom = d1x.times(d2y).minus(d1y.times(d2x));
    if denom.abs().lt(Float64 { bits: PARALLEL }) {
        return None;
    }
    let ox = b1.x.minus(a1.x);
    let oy = b1.y.minus(a1.y);
    let t = ox.times(d2y).minus(oy.times(d2x)).over(denom);
    let u = ox.times(d1y).minus(oy.times(d1x)).over(denom);
    let zero = Float64 { bits: ZERO };
    let one = Float64 { bits: ONE };
    if zero.le(t) && t.le(one) && zero.le(u) && u.le(one) {
        Some((Position { x: a1.x.plus(t.times(d1x)), y: a1.y.plus(t.times(d1y)) }, t))
    } else {
        None
    }
}

/// Whether two segments cross strictly inside both.
pub fn segments_cross(a1: Position, a2: Position, b1: Position, b2: Position) -> (r: bool)
    ensures
        r == crossing(a1, a2, b1, b2),
{
    let d1x = a2.x.minus(a1.x);
    let d1y = a2.y.minus(a1.y);
    let d2x = b2.x.minus(b1.x);
    let d2y = b2.y.minus(b1.y);
    let denom = d1x.times(d2y).minus(d1y.times(d2x));
    if denom.abs().lt(Float64 { bits: PARALLEL }) {
        return false;
    }
    let ox = b1.x.minus(a1.x);
    let oy = b1.y.minus(a1.y);
    let t = ox.times(d2y).minus(oy.times(d2x)).over(denom);
    let u = ox.times(d1y).minus(oy.times(d1x)).over(denom);
    let low = Float64 { bits: MARGIN };
    let high = Float64 { bits: ONE }.minus(Float64 { bits: MARGIN });
    low.lt(t) && t.lt(high) && low.lt(u) && u.lt(high)
}

/// Two segments do not cross where one starts at an end of the other.
pub proof fn lemma_shared_ends_do_not_cross(a1: Position, a2: Position, b: Position)
    ensures
        !crossing(a1, a2, a1, b),
        !crossing(a1, a2, b, a1),
        !crossing(a1, a2, a2, b),
{
    lemma_same_start(a1, a2, b);
    lemma_start_at_end(a1, a2, b);
    lemma_end_at_start(a1, a2, b);
}

proof fn lemma_nought_not_inside(t: Float64)
    requires
        t.nought(),
    ensures
        !inside_segment(t),
{
    assert(crate::float64::units(0) == 0);
}

proof fn lemma_same_start(a1: Position, a2: Position, b: Position)
    ensures
        !crossing(a1, a2, a1, b),
{
    let dx = b.x.minus(a1.x);
    let dy = b.y.minus(a1.y);
    let ox = a1.x.minus(a1.x);
    let oy = a1.y.minus(a1.y);
    crate::rounding::lemma_minus_self(a1.x);
    crate::rounding::lemma_minus_self(a1.y);
    crate::rounding::lemma_times_nought(ox, dy);
    crate::rounding::lemma_times_nought(oy, dx);
    crate::rounding::lemma_plus_nought(ox.times(dy), oy.times(dx));
    crate::rounding::lemma_nought_over(
        ox.times(dy).minus(oy.times(dx)),
        cross(a1, a2, a1, b),
    );
    lemma_nought_not_inside(along_first(a1, a2, a1, b));
}

proof fn lemma_end_at_start(a1: Position, a2: Position, b: Position)
    ensures
        !crossing(a1, a2, b, a1),
{
    let px = b.x.minus(a1.x);
    let py = b.y.minus(a1.y);
    let dx = a1.x.minus(b.x);
    let dy = a1.y.minus(b.y);
    crate::rounding::lemma_minus_swapped(b.x, a1.x);
    crate::rounding::lemma_minus_swapped(b.y, a1.y);
    if (px.nought() && dx.nought()) || (py.nought() && dy.nought()) {
        crate::rounding::lemma_times_nought(px, dy);
        crate::rounding::lemma_times_nought(py, dx);
        crate::rounding::lemma_plus_nought(px.times(dy), py.times(dx));
    } else {
        crate::rounding::lemma_times_signs(px, py);
        assert(px.times(dy) == py.times(dx));
        crate::rounding::lemma_minus_self(px.times(dy));
    }
    crate::rounding::lemma_nought_over(
        px.times(dy).minus(py.times(dx)),
        cross(a1, a2, b, a1),
    );
    lemma_nought_not_inside(along_first(a1, a2, b, a1));
}

proof fn lemma_start_at_end(a1: Position, a2: Position, b: Position)
    ensures
        !crossing(a1, a2, a2, b),
{
    let one = Float64 { bits: ONE };
    let margin = Float64 { bits: MARGIN };
    crate::rounding::lemma_over_self(cross(a1, a2, a2, b));
    assert(along_first(a1, a2, a2, b) == cross(a1, a2, a2, b).over(cross(a1, a2, a2, b)));
    crate::rounding::lemma_minus_positive(one, margin);
    if !along_first(a1, a2, a2, b).nan() {
        assert(along_first(a1, a2, a2, b) == one);
        assert(!one.lt(one.minus(margin)));
    }
}

// ---------------------------------------------------------------------------------------------
// Boundaries
// ---------------------------------------------------------------------------------------------

/// The sides of an outline, in order.
pub open spec fn ring_sides(ring: Seq<Position>) -> Seq<(Position, Position)> {
    Seq::new((ring.len() - 1) as nat, |i: int| (ring[i], ring[i + 1]))
}

/// The sides of all the outlines of a territory, in order; holes do not count.
pub open spec fn sides(polygons: Seq<PolygonView>) -> Seq<(Position, Position)>
    decreases polygons.len(),
{
    if polygons.len() == 0 {
        Seq::empty()
    } else {
        let last = polygons.last().exterior;
        sides(polygons.drop_last()) + (if last.len() == 0 {
            Seq::empty()
        } else {
            ring_sides(last)
        })
    }
}

/// How a search for the first crossing of a boundary stands.
pub enum Search {
    /// A crossing at the very start ended the search.
    Found(Position),
    /// The nearest crossing so far.
    Best(Option<(Position, Float64)>),
}

/// One side more in the search for where `from` to `to` crosses a boundary.
pub open spec fn search_side(
    state: Search,
    from: Position,
    to: Position,
    side: (Position, Position),
) -> Search {
    match (state, meeting(from, to, side.0, side.1)) {
        (Search::Best(best), Some((point, t))) => {
            if t.lt(Float64 { bits: NEAR_START }) {
                Search::Found(point)
            } else if best is None || t.lt(best.unwrap().1) {
                Search::Best(Some((point, t)))
            } else {
                state
            }
        },
        _ => state,
    }
}

/// The search over the given sides, in order.
pub open spec fn search(from: Position, to: Position, sides: Seq<(Position, Position)>) -> Search
    decreases sides.len(),
{
    if sides.len() == 0 {
        Search::Best(None)
    } else {
        search_side(search(from, to, sides.drop_last()), from, to, sides.last())
    }
}

/// The point where the segment crosses the boundary of a territory, if it does.
pub open spec fn boundary_point(from: Position, to: Position, territory: Seq<PolygonView>) -> Option<
    Position,
> {
    match search(from, to, sides(territory)) {
        Search::Found(point) => Some(point),
        Search::Best(Some((point, _))) => Some(point),
        Search::Best(None) => None,
    }
}

/// Once a crossing at the start is found, no later side changes the result.
proof fn lemma_search_found(
    from: Position,
    to: Position,
    first: Seq<(Position, Position)>,
    rest: Seq<(Position, Position)>,
)
    requires
        search(from, to, first) is Found,
    ensures
        search(from, to, first + rest) == search(from, to, first),
    decreases rest.len(),
{
    if rest.len() == 0 {
        assert(first + rest =~= first);
    } else {
        lemma_search_found(from, to, first, rest.drop_last());
        assert((first + rest).drop_last() =~= first + rest.drop_last());
        assert((first + rest).last() == rest.last());
    }
}

/// The sides of the first polygons come first.
proof fn lemma_sides_prefix(polygons: Seq<PolygonView>, k: int) -> (rest: Seq<(Position, Position)>)
    requires
        0 <= k <= polygons.len(),
    ensures
        sides(polygons) == sides(polygons.take(k)) + rest,
    decreases polygons.len(),
{
    if k == polygons.len() {
        assert(polygons.take(k) =~= polygons);
        assert(sides(polygons) + Seq::<(Position, Position)>::empty() =~= sides(polygons));
        Seq::empty()
    } else {
        let inner = lemma_sides_prefix(polygons.drop_last(), k);
        assert(polygons.drop_last().take(k) =~= polygons.take(k));
        let last = polygons.last().exterior;
        let tail = if last.len() == 0 {
            Seq::empty()
        } else {
            ring_sides(last)
        };
        assert((sides(polygons.take(k)) + inner) + tail =~= sides(polygons.take(k)) + (inner
            + tail));
        inner + tail
    }
}

/// Whether a side is not met before `t` along the segment.
spec fn met_from(from: Position, to: Position, side: (Position, Position), t: Float64) -> bool {
    meeting(from, to, side.0, side.1) matches Some((_, u)) ==> t.le(u)
}

proof fn lemma_search(from: Position, to: Position, sides: Seq<(Position, Position)>)
    ensures
        match search(from, to, sides) {
            Search::Found(point) => exists|i: int, t: Float64|
                0 <= i < sides.len() && #[trigger] meeting(from, to, sides[i].0, sides[i].1)
                    == Some((point, t)) && #[trigger] t.lt(Float64 { bits: NEAR_START }),
            Search::Best(Some((point, t))) => {
                &&& exists|i: int|
                    0 <= i < sides.len() && #[trigger] meeting(from, to, sides[i].0, sides[i].1)
                        == Some((point, t))
                &&& forall|j: int|
                    0 <= j < sides.len() ==> #[trigger] met_from(from, to, sides[j], t)
            },
            Search::Best(None) => forall|j: int|
                0 <= j < sides.len() ==> #[trigger] meeting(from, to, sides[j].0, sides[j].1)
                    is None,
        },
    decreases sides.len(),
{
    if sides.len() > 0 {
        let shorter = sides.drop_last();
        let last = sides.last();
        let n = sides.len() - 1;
        assert(sides[n] == last);
        assert(forall|j: int| 0 <= j < n ==> shorter[j] == #[trigger] sides[j]);
        lemma_search(from, to, shorter);
        match search(from, to, shorter) {
            Search::Found(point) => {
                let (i, t) = choose|i: int, t: Float64|
                    0 <= i < shorter.len() && #[trigger] meeting(
                        from,
                        to,
                        shorter[i].0,
                        shorter[i].1,
                    ) == Some((point, t)) && #[trigger] t.lt(Float64 { bits: NEAR_START });
                assert(meeting(from, to, sides[i].0, sides[i].1) == Some((point, t)));
            },
            Search::Best(best) => {
                if let Some((point, t)) = best {
                    let i = choose|i: int|
                        0 <= i < shorter.len() && #[trigger] meeting(
                            from,
                            to,
                            shorter[i].0,
                            shorter[i].1,
                        ) == Some((point, t));
                    assert(meeting(from, to, sides[i].0, sides[i].1) == Some((point, t)));
                }
                if let Some((point, t)) = meeting(from, to, last.0, last.1) {
                    assert(meeting(from, to, sides[n].0, sides[n].1) == Some((point, t)));
                    assert forall|j: int|
                        best is None || t.lt(best.unwrap().1) implies #[trigger] met_from(
                        from,
                        to,
                        sides[j],
                        t,
                    ) || !(0 <= j < sides.len()) by {
                        if 0 <= j < n {
                            assert(shorter[j] == sides[j]);
                            if best is Some {
                                assert(met_from(from, to, shorter[j], best.unwrap().1));
                            } else {
                                assert(meeting(from, to, shorter[j].0, shorter[j].1) is None);
                            }
                        }
                    }
                }
                if let Some((point, t)) = best {
                    assert forall|j: int| 0 <= j < n implies #[trigger] met_from(
                        from,
                        to,
                        sides[j],
                        t,
                    ) by {
                        assert(met_from(from, to, shorter[j], t));
                    }
                } else {
                    assert forall|j: int| 0 <= j < n implies #[trigger] meeting(
                        from,
                        to,
                        sides[j].0,
                        sides[j].1,
                    ) is None by {
                        assert(meeting(from, to, shorter[j].0, shorter[j].1) is None);
                    }
                }
            },
        }
    }
}

/// A way that crosses no side of a territory has no crossing; any other has one on a side of it,
/// and no other comes before that, but for a crossing at the very start, after which none is
/// looked for.
pub proof fn lemma_boundary_point_is_first(
    from: Position,
    to: Position,
    territory: Seq<PolygonView>,
)
    ensures
        match boundary_point(from, to, territory) {
            None => forall|j: int|
                0 <= j < sides(territory).len() ==> #[trigger] meeting(
                    from,
                    to,
                    sides(territory)[j].0,
                    sides(territory)[j].1,
                ) is None,
            Some(point) => exists|i: int, t: Float64|
                0 <= i < sides(territory).len() && #[trigger] meeting(
                    from,
                    to,
                    sides(territory)[i].0,
                    sides(territory)[i].1,
                ) == Some((point, t)) && (#[trigger] t.lt(Float64 { bits: NEAR_START }) || forall|
                    j: int,
                |
                    0 <= j < sides(territory).len() ==> (#[trigger] meeting(
                        from,
                        to,
                        sides(territory)[j].0,
                        sides(territory)[j].1,
                    ) matches Some((_, u)) ==> t.le(u))),
        },
{
    let all = sides(territory);
    lemma_search(from, to, all);
    match search(from, to, all) {
        Search::Found(point) => {
            let (i, t) = choose|i: int, t: Float64|
                0 <= i < all.len() && #[trigger] meeting(from, to, all[i].0, all[i].1) == Some(
                    (point, t),
                ) && #[trigger] t.lt(Float64 { bits: NEAR_START });
            assert(t.lt(Float64 { bits: NEAR_START }));
        },
        Search::Best(Some((point, t))) => {
            let i = choose|i: int|
                0 <= i < all.len() && #[trigger] meeting(from, to, all[i].0, all[i].1) == Some(
                    (point, t),
                );
            let early = t.lt(Float64 { bits: NEAR_START });
            assert forall|j: int| 0 <= j < all.len() implies (#[trigger] meeting(
                from,
                to,
                all[j].0,
                all[j].1,
            ) matches Some((_, u)) ==> t.le(u)) by {
                assert(met_from(from, to, all[j], t));
            }
        },
        Search::Best(None) => {},
    }
}

/// Which side a way first crosses, and how far along it: none other comes before, but for a crossing
/// at the very start.
pub proof fn lemma_first_side_crossed(
    from: Position,
    to: Position,
    territory: Seq<PolygonView>,
) -> (found: (int, Float64))
    requires
        boundary_point(from, to, territory) is Some,
    ensures
        0 <= found.0 < sides(territory).len(),
        meeting(from, to, sides(territory)[found.0].0, sides(territory)[found.0].1) == Some(
            (boundary_point(from, to, territory).unwrap(), found.1),
        ),
        found.1.lt(Float64 { bits: NEAR_START }) || forall|j: int|
            0 <= j < sides(territory).len() ==> (#[trigger] meeting(
                from,
                to,
                sides(territory)[j].0,
                sides(territory)[j].1,
            ) matches Some((_, u)) ==> found.1.le(u)),
{
    let all = sides(territory);
    lemma_search(from, to, all);
    match search(from, to, all) {
        Search::Found(point) => {
            choose|i: int, t: Float64|
                0 <= i < all.len() && #[trigger] meeting(from, to, all[i].0, all[i].1) == Some(
                    (point, t),
                ) && #[trigger] t.lt(Float64 { bits: NEAR_START })
        },
        Search::Best(Some((point, t))) => {
            let i = choose|i: int|
                0 <= i < all.len() && #[trigger] meeting(from, to, all[i].0, all[i].1) == Some(
                    (point, t),
                );
            assert forall|j: int| 0 <= j < all.len() implies (#[trigger] meeting(
                from,
                to,
                all[j].0,
                all[j].1,
            ) matches Some((_, u)) ==> t.le(u)) by {
                assert(met_from(from, to, all[j], t));
            }
            (i, t)
        },
        Search::Best(None) => (0, from.x),
    }
}

/// Find the exact point where the segment from `from` to `to` crosses the boundary.
pub fn boundary_crossing(from: Position, to: Position, territory: &Territory) -> (r: Option<
    Position,
>)
    ensures
        r == boundary_point(from, to, territory@),
{
    let mut best: Option<(Position, Float64)> = None;
    let mut p: usize = 0;
    proof {
        assert(territory@.take(0) =~= Seq::empty());
    }
    while p < territory.polygons.len()
        invariant
            p <= territory.polygons@.len(),
            search(from, to, sides(territory@.take(p as int))) == Search::Best(best),
        decreases territory.polygons@.len() - p,
    {
        let ring = &territory.polygons[p].exterior;
        let ghost before = sides(territory@.take(p as int));
        proof {
            assert(territory@.take(p + 1).drop_last() =~= territory@.take(p as int));
            assert(territory@.take(p + 1).last() == territory.polygons@[p as int]@);
            assert(before + ring_sides(ring@).take(0) =~= before);
            assert(ring@.len() == 0 ==> sides(territory@.take(p + 1)) =~= before);
        }
        let mut i: usize = 1;
        while i < ring.len()
            invariant
                1 <= i,
                p < territory.polygons@.len(),
                i <= ring@.len() || (ring@.len() == 0 && i == 1),
                ring@ == territory.polygons@[p as int].exterior@,
                before == sides(territory@.take(p as int)),
                search(from, to, before + ring_sides(ring@).take(i - 1)) == Search::Best(best),
                ring@.len() > 0 ==> sides(territory@.take(p + 1)) == before + ring_sides(ring@),
            decreases ring@.len() - i,
        {
            let b1 = ring[i - 1];
            let b2 = ring[i];
            let ghost done = before + ring_sides(ring@).take(i as int);
            proof {
                assert(done.drop_last() =~= before + ring_sides(ring@).take(i - 1));
                assert(done.last() == (b1, b2));
            }
            if let Some((point, t)) = seg_intersection(from, to, b1, b2) {
                if t.lt(Float64 { bits: NEAR_START }) {
                    proof {
                        let more = ring_sides(ring@).skip(i as int);
                        lemma_search_found(from, to, done, more);
                        assert(done + more =~= before + ring_sides(ring@));
                        let rest = lemma_sides_prefix(territory@, p + 1);
                        lemma_search_found(from, to, sides(territory@.take(p + 1)), rest);
                    }
                    return Some(point);
                }
                let nearer = match best {
                    None => true,
                    Some((_, t0)) => t.lt(t0),
                };
                if nearer {
                    best = Some((point, t));
                }
            }
            i += 1;
        }
        proof {
            if ring@.len() > 0 {
                assert(ring_sides(ring@).take(i - 1) =~= ring_sides(ring@));
            }
        }
        p += 1;
    }
    proof {
        assert(territory@.take(p as int) =~= territory@);
    }
    match best {
        Some((point, _)) => Some(point),
        None => None,
    }
}

// ---------------------------------------------------------------------------------------------
// Captured areas
// ---------------------------------------------------------------------------------------------

/// The square of the distance between two points.
pub open spec fn spec_dist_sq(c: Position, p: Position) -> Float64 {
    c.x.minus(p.x).times(c.x.minus(p.x)).plus(c.y.minus(p.y).times(c.y.minus(p.y)))
}

/// The square of the distance between two points.
#[verifier::when_used_as_spec(spec_dist_sq)]
pub fn dist_sq(c: Position, p: Position) -> (r: Float64)
    ensures
        r == spec_dist_sq(c, p),
{
    let dx = c.x.minus(p.x);
    let dy = c.y.minus(p.y);
    dx.times(dx).plus(dy.times(dy))
}

/// The first of the vertices than which none before it was as near to `p`.
pub open spec fn nearest_vertex(coords: Seq<Position>, p: Position) -> nat
    decreases coords.len(),
{
    if coords.len() <= 1 {
        0
    } else {
        let best = nearest_vertex(coords.drop_last(), p);
        if dist_sq(coords.last(), p).lt(dist_sq(coords[best as int], p)) {
            (coords.len() - 1) as nat
        } else {
            best
        }
    }
}

proof fn lemma_nearest_vertex_in_range(coords: Seq<Position>, p: Position)
    requires
        coords.len() > 0,
    ensures
        nearest_vertex(coords, p) < coords.len(),
    decreases coords.len(),
{
    if coords.len() > 1 {
        lemma_nearest_vertex_in_range(coords.drop_last(), p);
    }
}

/// No vertex is nearer to `p` than the nearest one.
pub proof fn lemma_nearest_vertex_is_nearest(coords: Seq<Position>, p: Position, i: int)
    requires
        0 <= i < coords.len(),
        forall|k: int| 0 <= k < coords.len() ==> !(#[trigger] dist_sq(coords[k], p)).is_nan(),
    ensures
        nearest_vertex(coords, p) < coords.len(),
        dist_sq(coords[nearest_vertex(coords, p) as int], p).le(dist_sq(coords[i], p)),
    decreases coords.len(),
{
    lemma_nearest_vertex_in_range(coords, p);
    if coords.len() > 1 {
        let shorter = coords.drop_last();
        assert forall|k: int| 0 <= k < shorter.len() implies !(#[trigger] dist_sq(
            shorter[k],
            p,
        )).is_nan() by {
            assert(shorter[k] == coords[k]);
        }
        let best = nearest_vertex(shorter, p);
        lemma_nearest_vertex_in_range(shorter, p);
        assert(shorter[best as int] == coords[best as int]);
        assert(!dist_sq(coords[best as int], p).is_nan());
        assert(!dist_sq(coords.last(), p).is_nan()) by {
            assert(coords.last() == coords[coords.len() - 1]);
        }
        if i < shorter.len() {
            lemma_nearest_vertex_is_nearest(shorter, p, i);
            assert(shorter[i] == coords[i]);
        }
    }
}

/// The index of the vertex nearest to `p`.
pub fn nearest_vertex_idx(coords: &Vec<Position>, p: Position) -> (r: usize)
    ensures
        r == nearest_vertex(coords@, p),
        coords@.len() > 0 ==> r < coords@.len(),
{
    if coords.len() == 0 {
        return 0;
    }
    let mut best: usize = 0;
    let mut i: usize = 1;
    assert(coords@.take(1).len() == 1);
    while i < coords.len()
        invariant
            1 <= i <= coords@.len(),
            best < i,
            best == nearest_vertex(coords@.take(i as int), p),
        decreases coords@.len() - i,
    {
        proof {
            assert(coords@.take(i + 1).drop_last() =~= coords@.take(i as int));
        }
        if dist_sq(coords[i], p).lt(dist_sq(coords[best], p)) {
            best = i;
        }
        i += 1;
    }
    proof {
        assert(coords@.take(i as int) =~= coords@);
    }
    best
}

/// Whether two points are one.
pub open spec fn same_point(a: Position, b: Position) -> bool {
    a.x.equals(b.x) && a.y.equals(b.y)
}

/// An outline without the repetition of its first point at its end.
pub open spec fn without_closing(ring: Seq<Position>) -> Seq<Position> {
    if ring.len() > 1 && same_point(ring.first(), ring.last()) {
        ring.drop_last()
    } else {
        ring
    }
}

/// An outline, the places on it nearest to two points, and how near they are.
#[verifier::ext_equal]
pub struct RingChoice {
    pub ring: Seq<Position>,
    pub start: nat,
    pub end: nat,
    pub total: Float64,
}

/// The best outline so far, and whether it is near enough to look no further.
#[verifier::ext_equal]
pub struct RingSearch {
    pub best: Option<RingChoice>,
    pub done: bool,
}

/// One polygon more in the search for the outline nearest to both points.
pub open spec fn search_ring(
    state: RingSearch,
    exterior: Seq<Position>,
    start: Position,
    end: Position,
) -> RingSearch {
    let ring = without_closing(exterior);
    if state.done || ring.len() < 3 {
        state
    } else {
        let is = nearest_vertex(ring, start);
        let ie = nearest_vertex(ring, end);
        let ds = dist_sq(ring[is as int], start);
        let de = dist_sq(ring[ie as int], end);
        let total = ds.plus(de);
        RingSearch {
            best: if state.best is None || total.lt(state.best.unwrap().total) {
                Some(RingChoice { ring, start: is, end: ie, total })
            } else {
                state.best
            },
            done: ds.lt(Float64 { bits: ONE }) && de.lt(Float64 { bits: ONE }),
        }
    }
}

/// The search over the given polygons, in order.
pub open spec fn nearest_ring(
    polygons: Seq<PolygonView>,
    start: Position,
    end: Position,
) -> RingSearch
    decreases polygons.len(),
{
    if polygons.len() == 0 {
        RingSearch { best: None, done: false }
    } else {
        search_ring(
            nearest_ring(polygons.drop_last(), start, end),
            polygons.last().exterior,
            start,
            end,
        )
    }
}

proof fn lemma_nearest_ring_done(
    polygons: Seq<PolygonView>,
    k: int,
    start: Position,
    end: Position,
)
    requires
        0 <= k <= polygons.len(),
        nearest_ring(polygons.take(k), start, end).done,
    ensures
        nearest_ring(polygons, start, end) == nearest_ring(polygons.take(k), start, end),
    decreases polygons.len(),
{
    if k == polygons.len() {
        assert(polygons.take(k) =~= polygons);
    } else {
        assert(polygons.drop_last().take(k) =~= polygons.take(k));
        lemma_nearest_ring_done(polygons.drop_last(), k, start, end);
    }
}

/// How near an outline comes to two points: the squares of the distances of its nearest places.
pub open spec fn ring_total(exterior: Seq<Position>, start: Position, end: Position) -> Float64 {
    let ring = without_closing(exterior);
    dist_sq(ring[nearest_vertex(ring, start) as int], start).plus(
        dist_sq(ring[nearest_vertex(ring, end) as int], end),
    )
}

/// No outline that was looked at is nearer to both points than the chosen one.
pub proof fn lemma_nearest_ring_is_nearest(
    polygons: Seq<PolygonView>,
    start: Position,
    end: Position,
    i: int,
)
    requires
        0 <= i < polygons.len(),
        without_closing(polygons[i].exterior).len() >= 3,
        !nearest_ring(polygons.take(i), start, end).done,
        forall|k: int|
            0 <= k < polygons.len() ==> !(#[trigger] ring_total(
                polygons[k].exterior,
                start,
                end,
            )).is_nan(),
    ensures
        nearest_ring(polygons, start, end).best matches Some(c) && c.total.le(
            ring_total(polygons[i].exterior, start, end),
        ) && !c.total.is_nan(),
    decreases polygons.len(),
{
    let shorter = polygons.drop_last();
    let n = polygons.len() - 1;
    assert forall|k: int| 0 <= k < shorter.len() implies !(#[trigger] ring_total(
        shorter[k].exterior,
        start,
        end,
    )).is_nan() by {
        assert(!ring_total(polygons[k].exterior, start, end).is_nan());
    }
    assert(!ring_total(polygons[n].exterior, start, end).is_nan());
    lemma_best_is_a_number(shorter, start, end);
    if i < n {
        assert(shorter.take(i) =~= polygons.take(i));
        lemma_nearest_ring_is_nearest(shorter, start, end, i);
    } else {
        assert(polygons.take(i) =~= shorter);
    }
}

proof fn lemma_best_is_a_number(polygons: Seq<PolygonView>, start: Position, end: Position)
    requires
        forall|k: int|
            0 <= k < polygons.len() ==> !(#[trigger] ring_total(
                polygons[k].exterior,
                start,
                end,
            )).is_nan(),
    ensures
        nearest_ring(polygons, start, end).best matches Some(c) ==> !c.total.is_nan(),
    decreases polygons.len(),
{
    if polygons.len() > 0 {
        let shorter = polygons.drop_last();
        let n = polygons.len() - 1;
        assert forall|k: int| 0 <= k < shorter.len() implies !(#[trigger] ring_total(
            shorter[k].exterior,
            start,
            end,
        )).is_nan() by {
            assert(!ring_total(polygons[k].exterior, start, end).is_nan());
        }
        assert(!ring_total(polygons[n].exterior, start, end).is_nan());
        lemma_best_is_a_number(shorter, start, end);
    }
}

/// The outline that a search chose has at least three points, and its places are on it.
pub open spec fn choice_in_range(c: RingChoice) -> bool {
    &&& c.ring.len() >= 3
    &&& c.start < c.ring.len()
    &&& c.end < c.ring.len()
}

/// The first `n` points.
fn first_points(points: &Vec<Position>, n: usize) -> (r: Vec<Position>)
    requires
        n <= points@.len(),
    ensures
        r@ == points@.take(n as int),
{
    let mut r: Vec<Position> = Vec::new();
    let mut i: usize = 0;
    while i < n
        invariant
            i <= n <= points@.len(),
            r@ == points@.take(i as int),
        decreases n - i,
    {
        r.push(points[i]);
        assert(r@ =~= points@.take(i + 1));
        i += 1;
    }
    r
}

/// The outline nearest to both points, without the repetition of its first point, and the
/// nearest places on it.
pub fn find_ring_and_vertices(territory: &Territory, start: Position, end: Position) -> (r: Option<
    (Vec<Position>, usize, usize),
>)
    ensures
        match nearest_ring(territory@, start, end).best {
            Some(c) => r matches Some((ring, is, ie)) && ring@ == c.ring && is == c.start && ie
                == c.end && choice_in_range(c),
            None => r is None,
        },
{
    let mut best: Option<(Vec<Position>, usize, usize, Float64)> = None;
    let mut p: usize = 0;
    let mut done = false;
    proof {
        assert(territory@.take(0) =~= Seq::empty());
    }
    while p < territory.polygons.len() && !done
        invariant
            p <= territory.polygons@.len(),
            ({
                let state = nearest_ring(territory@.take(p as int), start, end);
                &&& state.done == done
                &&& match state.best {
                    Some(c) => best matches Some((ring, is, ie, total)) && ring@ == c.ring && is
                        == c.start && ie == c.end && total == c.total && choice_in_range(c),
                    None => best is None,
                }
            }),
        decreases territory.polygons@.len() - p,
    {
        let ring = &territory.polygons[p].exterior;
        proof {
            assert(territory@.take(p + 1).drop_last() =~= territory@.take(p as int));
            assert(territory@.take(p + 1).last() == territory.polygons@[p as int]@);
        }
        let len = ring.len();
        let n: usize = if len > 1 && ring[0].x.equals(ring[len - 1].x) && ring[0].y.equals(
            ring[len - 1].y,
        ) {
            len - 1
        } else {
            len
        };
        if n >= 3 {
            let coords = first_points(ring, n);
            proof {
                assert(coords@ =~= without_closing(ring@));
            }
            let is = nearest_vertex_idx(&coords, start);
            let ie = nearest_vertex_idx(&coords, end);
            let ds = dist_sq(coords[is], start);
            let de = dist_sq(coords[ie], end);
            let total = ds.plus(de);
            let better = match &best {
                None => true,
                Some(b) => total.lt(b.3),
            };
            if better {
                best = Some((coords, is, ie, total));
            }
            done = ds.lt(Float64 { bits: ONE }) && de.lt(Float64 { bits: ONE });
        } else {
            proof {
                assert(without_closing(ring@).len() < 3);
            }
        }
        p += 1;
    }
    proof {
        if p < territory.polygons@.len() {
            lemma_nearest_ring_done(territory@, p as int, start, end);
        } else {
            assert(territory@.take(p as int) =~= territory@);
        }
    }
    match best {
        Some((ring, is, ie, _)) => Some((ring, is, ie)),
        None => None,
    }
}

/// How many sides lie between two places on an outline of `n` points, in one direction.
pub open spec fn steps_between(n: nat, from: int, to: int, forward: bool) -> nat {
    let ahead = if forward {
        to - from
    } else {
        from - to
    };
    (if ahead >= 0 {
        ahead
    } else {
        ahead + n
    }) as nat
}

/// The place `k` sides away on an outline of `n` points.
pub open spec fn place_after(n: nat, from: int, k: int, forward: bool) -> int {
    if forward {
        if from + k < n {
            from + k
        } else {
            from + k - n
        }
    } else {
        if from >= k {
            from - k
        } else {
            from - k + n
        }
    }
}

/// The points met on the way along an outline, both ends included.
pub open spec fn walk(ring: Seq<Position>, from: int, to: int, forward: bool) -> Seq<Position> {
    Seq::new(
        steps_between(ring.len(), from, to, forward) + 1,
        |k: int| ring[place_after(ring.len(), from, k, forward)],
    )
}

/// Walk along the points of an outline from one to another, both ends included.
pub fn walk_ring(coords: &Vec<Position>, from: usize, to: usize, forward: bool) -> (r: Vec<
    Position,
>)
    requires
        from < coords@.len(),
        to < coords@.len(),
    ensures
        r@ == walk(coords@, from as int, to as int, forward),
{
    let n = coords.len();
    let mut result: Vec<Position> = Vec::new();
    let mut i = from;
    let ghost all = walk(coords@, from as int, to as int, forward);
    let ghost steps = steps_between(n as nat, from as int, to as int, forward);
    while i != to
        invariant
            n == coords@.len(),
            from < n,
            to < n,
            i < n,
            all == walk(coords@, from as int, to as int, forward),
            steps == steps_between(n as nat, from as int, to as int, forward),
            result@.len() <= steps,
            i == place_after(n as nat, from as int, result@.len() as int, forward),
            result@ == all.take(result@.len() as int),
        decreases steps - result@.len(),
    {
        proof {
            assert(all[result@.len() as int] == coords@[i as int]);
        }
        let ghost before = result@;
        result.push(coords[i]);
        proof {
            assert(result@ =~= all.take((before.len() + 1) as int));
        }
        i = if forward {
            if i + 1 == n {
                0
            } else {
                i + 1
            }
        } else {
            if i == 0 {
                n - 1
            } else {
                i - 1
            }
        };
    }
    result.push(coords[i]);
    proof {
        assert(result@ =~= all);
    }
    result
}

/// The area that a trail cuts off: the trail, then the shorter way back along the outline that it
/// left and came back to, closed.
pub open spec fn captured(trail: Seq<Position>, territory: Seq<PolygonView>) -> Option<
    Seq<PolygonView>,
> {
    match nearest_ring(territory, trail.first(), trail.last()).best {
        None => None,
        Some(c) => {
            let forward = walk(c.ring, c.end as int, c.start as int, true);
            let backward = walk(c.ring, c.end as int, c.start as int, false);
            let way_back = if forward.len() <= backward.len() {
                forward
            } else {
                backward
            };
            let outline = (trail + way_back).push(trail.first());
            if outline.len() < 4 {
                None
            } else {
                Some(seq![PolygonView { exterior: outline, interiors: Seq::empty() }])
            }
        },
    }
}

/// A walk along an outline starts and ends where it is told to.
pub proof fn lemma_walk_ends(ring: Seq<Position>, from: int, to: int, forward: bool)
    requires
        0 <= from < ring.len(),
        0 <= to < ring.len(),
    ensures
        walk(ring, from, to, forward).len() > 0,
        walk(ring, from, to, forward).first() == ring[from],
        walk(ring, from, to, forward).last() == ring[to],
{
}

/// The area that a trail cuts off is one closed outline, which begins with the trail.
pub proof fn lemma_captured_closed(trail: Seq<Position>, territory: Seq<PolygonView>)
    requires
        trail.len() > 0,
    ensures
        captured(trail, territory) matches Some(area) ==> {
            let outline = area[0].exterior;
            &&& area.len() == 1
            &&& area[0].interiors.len() == 0
            &&& trail.is_prefix_of(outline)
            &&& outline.len() >= 4
            &&& outline.last() == outline.first()
        },
{
}

/// Build the polygon that a trail captures.
pub fn build_capture_polygon(trail: &Vec<Position>, territory: &Territory) -> (r: Option<Territory>)
    requires
        trail@.len() > 0,
    ensures
        match captured(trail@, territory@) {
            Some(area) => r matches Some(t) && t@ == area,
            None => r is None,
        },
{
    let trail_start = trail[0];
    let trail_end = trail[trail.len() - 1];
    match find_ring_and_vertices(territory, trail_start, trail_end) {
        None => None,
        Some((ring, idx_start, idx_end)) => {
            let walk_fwd = walk_ring(&ring, idx_end, idx_start, true);
            let walk_bwd = walk_ring(&ring, idx_end, idx_start, false);
            let boundary = if walk_fwd.len() <= walk_bwd.len() {
                walk_fwd
            } else {
                walk_bwd
            };
            let mut coords = first_points(trail, trail.len());
            let mut i: usize = 0;
            proof {
                assert(coords@ =~= trail@ + boundary@.take(0));
            }
            while i < boundary.len()
                invariant
                    i <= boundary@.len(),
                    coords@ == trail@ + boundary@.take(i as int),
                decreases boundary@.len() - i,
            {
                coords.push(boundary[i]);
                proof {
                    assert(coords@ =~= trail@ + boundary@.take(i + 1));
                }
                i += 1;
            }
            proof {
                assert(boundary@.take(i as int) =~= boundary@);
            }
            coords.push(trail_start);
            if coords.len() < 4 {
                return None;
            }
            let polygon = Polygon { exterior: coords, interiors: Vec::new() };
            let mut polygons: Vec<Polygon> = Vec::new();
            polygons.push(polygon);
            let area = Territory { polygons };
            proof {
                assert(polygon@.interiors =~= Seq::empty());
                assert(area@ =~= seq![polygon@]);
            }
            Some(area)
        },
    }
}

/// The outline of a rectangle.
pub open spec fn rectangle(min_x: Float64, min_y: Float64, max_x: Float64, max_y: Float64) -> Seq<
    Position,
> {
    seq![
        Position { x: min_x, y: min_y },
        Position { x: max_x, y: min_y },
        Position { x: max_x, y: max_y },
        Position { x: min_x, y: max_y },
        Position { x: min_x, y: min_y },
    ]
}

/// The polygon of a rectangle.
pub fn rect_polygon(min_x: Float64, min_y: Float64, max_x: Float64, max_y: Float64) -> (r: Polygon)
    ensures
        r@ == (PolygonView {
            exterior: rectangle(min_x, min_y, max_x, max_y),
            interiors: Seq::empty(),
        }),
{
    let exterior: Vec<Position> = vec![
        Position { x: min_x, y: min_y },
        Position { x: max_x, y: min_y },
        Position { x: max_x, y: max_y },
        Position { x: min_x, y: max_y },
        Position { x: min_x, y: min_y },
    ];
    let r = Polygon { exterior, interiors: Vec::new() };
    proof {
        assert(r@.exterior =~= rectangle(min_x, min_y, max_x, max_y));
        assert(r@.interiors =~= Seq::empty());
    }
    r
}

// ---------------------------------------------------------------------------------------------
// Boxes
// ---------------------------------------------------------------------------------------------

/// An upright box.
#[derive(Debug, Clone, Copy, PartialEq, Eq, Structural)]
pub struct Aabb {
    pub min_x: Float64,
    pub min_y: Float64,
    pub max_x: Float64,
    pub max_y: Float64,
}

/// The box that any point widens.
pub open spec fn empty_box() -> Aabb {
    Aabb {
        min_x: Float64 { bits: LARGEST },
        min_y: Float64 { bits: LARGEST },
        max_x: Float64 { bits: SMALLEST },
        max_y: Float64 { bits: SMALLEST },
    }
}

impl Aabb {
    /// What `new` returns.
    pub open spec fn spec_new() -> Aabb {
        empty_box()
    }

    /// The box that any point widens.
    #[verifier::when_used_as_spec(spec_new)]
    pub fn new() -> (r: Aabb)
        ensures
            r == empty_box(),
    {
        Aabb {
            min_x: Float64 { bits: LARGEST },
            min_y: Float64 { bits: LARGEST },
            max_x: Float64 { bits: SMALLEST },
            max_y: Float64 { bits: SMALLEST },
        }
    }

    /// What `widened` returns.
    pub open spec fn spec_widened(self, p: Position) -> Aabb {
        Aabb {
            min_x: self.min_x.min(p.x),
            min_y: self.min_y.min(p.y),
            max_x: self.max_x.max(p.x),
            max_y: self.max_y.max(p.y),
        }
    }

    /// The box with a point more in it.
    #[verifier::when_used_as_spec(spec_widened)]
    pub fn widened(self, p: Position) -> (r: Aabb)
        ensures
            r == self.spec_widened(p),
    {
        Aabb {
            min_x: self.min_x.min(p.x),
            min_y: self.min_y.min(p.y),
            max_x: self.max_x.max(p.x),
            max_y: self.max_y.max(p.y),
        }
    }

    /// What `apart` returns.
    pub open spec fn spec_apart(self, other: Aabb) -> bool {
        ||| self.max_x.lt(other.min_x)
        ||| other.max_x.lt(self.min_x)
        ||| self.max_y.lt(other.min_y)
        ||| other.max_y.lt(self.min_y)
    }

    /// Whether the two boxes have no point in common.
    #[verifier::when_used_as_spec(spec_apart)]
    pub fn apart(self, other: Aabb) -> (r: bool)
        ensures
            r == self.spec_apart(other),
    {
        self.max_x.lt(other.min_x) || other.max_x.lt(self.min_x) || self.max_y.lt(other.min_y)
            || other.max_y.lt(self.min_y)
    }
}

/// The box around some points.
pub open spec fn enclosing(points: Seq<Position>) -> Aabb
    decreases points.len(),
{
    if points.len() == 0 {
        empty_box()
    } else {
        enclosing(points.drop_last()).widened(points.last())
    }
}

/// The box around some points.
pub fn enclose(points: &Vec<Position>) -> (r: Aabb)
    ensures
        r == enclosing(points@),
{
    let mut r = Aabb::new();
    let mut i: usize = 0;
    while i < points.len()
        invariant
            i <= points@.len(),
            r == enclosing(points@.take(i as int)),
        decreases points@.len() - i,
    {
        proof {
            assert(points@.take(i + 1).drop_last() =~= points@.take(i as int));
        }
        r = r.widened(points[i]);
        i += 1;
    }
    proof {
        assert(points@.take(i as int) =~= points@);
    }
    r
}

/// Every point lies in the box around the points.
pub proof fn lemma_enclosing_holds_each(points: Seq<Position>, i: int)
    requires
        0 <= i < points.len(),
        forall|k: int| #![trigger points[k]]
            0 <= k < points.len() ==> !points[k].x.is_nan() && !points[k].y.is_nan(),
    ensures
        ({
            let r = enclosing(points);
            &&& r.min_x.le(points[i].x)
            &&& points[i].x.le(r.max_x)
            &&& r.min_y.le(points[i].y)
            &&& points[i].y.le(r.max_y)
        }),
    decreases points.len(),
{
    let shorter = points.drop_last();
    lemma_enclosing_is_a_number(shorter);
    assert(points.last() == points[points.len() - 1]);
    if i < shorter.len() {
        assert(shorter[i] == points[i]);
        lemma_enclosing_holds_each(shorter, i);
    }
}

proof fn lemma_enclosing_is_a_number(points: Seq<Position>)
    ensures
        ({
            let r = enclosing(points);
            &&& !r.min_x.is_nan()
            &&& !r.max_x.is_nan()
            &&& !r.min_y.is_nan()
            &&& !r.max_y.is_nan()
        }),
    decreases points.len(),
{
    if points.len() > 0 {
        lemma_enclosing_is_a_number(points.drop_last());
    }
}

/// A box that starts at one point and is stretched by the next.
pub open spec fn stretched(r: Aabb, p: Position) -> Aabb {
    Aabb {
        min_x: if !r.max_x.lt(p.x) && p.x.lt(r.min_x) {
            p.x
        } else {
            r.min_x
        },
        min_y: if !r.max_y.lt(p.y) && p.y.lt(r.min_y) {
            p.y
        } else {
            r.min_y
        },
        max_x: if r.max_x.lt(p.x) {
            p.x
        } else {
            r.max_x
        },
        max_y: if r.max_y.lt(p.y) {
            p.y
        } else {
            r.max_y
        },
    }
}

/// The box around the points, which start at the box already found.
pub open spec fn stretched_over(found: Option<Aabb>, points: Seq<Position>) -> Option<Aabb>
    decreases points.len(),
{
    if points.len() == 0 {
        found
    } else {
        let p = points.last();
        match stretched_over(found, points.drop_last()) {
            None => Some(Aabb { min_x: p.x, min_y: p.y, max_x: p.x, max_y: p.y }),
            Some(r) => Some(stretched(r, p)),
        }
    }
}

/// The box around the outlines of some polygons.
pub open spec fn bounding_box(polygons: Seq<PolygonView>) -> Option<Aabb>
    decreases polygons.len(),
{
    if polygons.len() == 0 {
        None
    } else {
        stretched_over(bounding_box(polygons.drop_last()), polygons.last().exterior)
    }
}

/// The box around the points, which start at the box already found.
pub fn stretch_over(found: Option<Aabb>, points: &Vec<Position>) -> (r: Option<Aabb>)
    ensures
        r == stretched_over(found, points@),
{
    let mut r = found;
    let mut i: usize = 0;
    while i < points.len()
        invariant
            i <= points@.len(),
            r == stretched_over(found, points@.take(i as int)),
        decreases points@.len() - i,
    {
        let p = points[i];
        proof {
            assert(points@.take(i + 1).drop_last() =~= points@.take(i as int));
        }
        r = match r {
            None => Some(Aabb { min_x: p.x, min_y: p.y, max_x: p.x, max_y: p.y }),
            Some(b) => {
                let right = b.max_x.lt(p.x);
                let above = b.max_y.lt(p.y);
                Some(
                    Aabb {
                        min_x: if !right && p.x.lt(b.min_x) {
                            p.x
                        } else {
                            b.min_x
                        },
                        min_y: if !above && p.y.lt(b.min_y) {
                            p.y
                        } else {
                            b.min_y
                        },
                        max_x: if right {
                            p.x
                        } else {
                            b.max_x
                        },
                        max_y: if above {
                            p.y
                        } else {
                            b.max_y
                        },
                    },
                )
            },
        };
        i += 1;
    }
    proof {
        assert(points@.take(i as int) =~= points@);
    }
    r
}

/// The box around the outlines of a territory.
pub fn bounding_rect(territory: &Territory) -> (r: Option<Aabb>)
    ensures
        r == bounding_box(territory@),
{
    let mut r: Option<Aabb> = None;
    let mut i: usize = 0;
    proof {
        assert(territory@.take(0) =~= Seq::empty());
    }
    while i < territory.polygons.len()
        invariant
            i <= territory.polygons@.len(),
            r == bounding_box(territory@.take(i as int)),
        decreases territory.polygons@.len() - i,
    {
        proof {
            assert(territory@.take(i + 1).drop_last() =~= territory@.take(i as int));
            assert(territory@.take(i + 1).last() == territory.polygons@[i as int]@);
        }
        r = stretch_over(r, &territory.polygons[i].exterior);
        i += 1;
    }
    proof {
        assert(territory@.take(i as int) =~= territory@);
    }
    r
}

}
