//! Boxes hold what they are around, and no more than that.
use crate::float64::Float64;
use crate::game::GameView;
use crate::geometry::{Aabb, PolygonView};
use crate::player::PlayerView;
use crate::protocol::{PlayerId, Position, RingView, ServerMsgView, VISIBILITY_RADIUS};
use crate::trails::is_place;
use vstd::prelude::*;

verus! {

/// Whether a box is one: its bounds are numbers and in order.
pub open spec fn is_box(b: Aabb) -> bool {
    &&& !b.min_x.nan() && !b.min_y.nan() && !b.max_x.nan() && !b.max_y.nan()
    &&& b.min_x.value() <= b.max_x.value()
    &&& b.min_y.value() <= b.max_y.value()
}

/// Whether a box holds a point.
pub open spec fn in_box(p: Position, b: Aabb) -> bool {
    b.min_x.value() <= p.x.value() <= b.max_x.value() && b.min_y.value() <= p.y.value()
        <= b.max_y.value()
}

/// Whether a box holds another.
pub open spec fn in_larger(a: Aabb, b: Aabb) -> bool {
    &&& b.min_x.value() <= a.min_x.value() && a.max_x.value() <= b.max_x.value()
    &&& b.min_y.value() <= a.min_y.value() && a.max_y.value() <= b.max_y.value()
}

/// Whether some point has an abscissa.
pub open spec fn some_x(points: Seq<Position>, x: Float64) -> bool {
    exists|i: int| 0 <= i < points.len() && (#[trigger] points[i]).x == x
}

/// Whether some point has an ordinate.
pub open spec fn some_y(points: Seq<Position>, y: Float64) -> bool {
    exists|i: int| 0 <= i < points.len() && (#[trigger] points[i]).y == y
}

/// Whether every bound of a box is that of another or of some point.
pub open spec fn drawn_by(b: Aabb, found: Option<Aabb>, points: Seq<Position>) -> bool {
    &&& some_x(points, b.min_x) || (found matches Some(f) && f.min_x == b.min_x)
    &&& some_x(points, b.max_x) || (found matches Some(f) && f.max_x == b.max_x)
    &&& some_y(points, b.min_y) || (found matches Some(f) && f.min_y == b.min_y)
    &&& some_y(points, b.max_y) || (found matches Some(f) && f.max_y == b.max_y)
}

proof fn lemma_some_grows(points: Seq<Position>, a: Float64)
    requires
        points.len() > 0,
    ensures
        some_x(points.drop_last(), a) ==> some_x(points, a),
        some_y(points.drop_last(), a) ==> some_y(points, a),
        some_x(points, points.last().x),
        some_y(points, points.last().y),
{
    let shorter = points.drop_last();
    assert(points[points.len() - 1] == points.last());
    if some_x(shorter, a) {
        let i = choose|i: int| 0 <= i < shorter.len() && shorter[i].x == a;
        assert(points[i].x == a);
    }
    if some_y(shorter, a) {
        let i = choose|i: int| 0 <= i < shorter.len() && shorter[i].y == a;
        assert(points[i].y == a);
    }
}

/// A box that is stretched over some points holds them all and what it held before, and each of its
/// sides is where one of these is.
pub proof fn lemma_stretched_over(found: Option<Aabb>, points: Seq<Position>)
    requires
        found matches Some(f) ==> is_box(f),
        forall|i: int| 0 <= i < points.len() ==> is_place(#[trigger] points[i]),
    ensures
        match crate::geometry::stretched_over(found, points) {
            None => found is None && points.len() == 0,
            Some(b) => {
                &&& found is Some || points.len() > 0
                &&& is_box(b)
                &&& forall|i: int| 0 <= i < points.len() ==> in_box(#[trigger] points[i], b)
                &&& found matches Some(f) ==> in_larger(f, b)
                &&& drawn_by(b, found, points)
            },
        },
    decreases points.len(),
{
    if points.len() > 0 {
        let shorter = points.drop_last();
        let p = points.last();
        assert(points[points.len() - 1] == p);
        assert forall|i: int| 0 <= i < shorter.len() implies is_place(#[trigger] shorter[i]) by {
            assert(is_place(points[i]));
        }
        lemma_stretched_over(found, shorter);
        let b = crate::geometry::stretched_over(found, points).unwrap();
        lemma_some_grows(points, b.min_x);
        lemma_some_grows(points, b.max_x);
        lemma_some_grows(points, b.min_y);
        lemma_some_grows(points, b.max_y);
        assert forall|i: int| 0 <= i < points.len() implies in_box(#[trigger] points[i], b) by {
            if i < shorter.len() {
                assert(in_box(shorter[i], crate::geometry::stretched_over(found, shorter).unwrap()));
            }
        }
    }
}

/// Whether all corners of some outlines are points.
pub open spec fn all_places(polygons: Seq<PolygonView>) -> bool {
    forall|q: int, i: int|
        #![trigger polygons[q].exterior[i]]
        0 <= q < polygons.len() && 0 <= i < polygons[q].exterior.len() ==> is_place(
            polygons[q].exterior[i],
        )
}

/// The box around a territory holds every corner of it.
pub proof fn lemma_bounding_box_holds(polygons: Seq<PolygonView>, q: int, i: int)
    requires
        all_places(polygons),
        0 <= q < polygons.len(),
        0 <= i < polygons[q].exterior.len(),
    ensures
        crate::geometry::bounding_box(polygons) matches Some(b) && is_box(b) && in_box(
            polygons[q].exterior[i],
            b,
        ),
    decreases polygons.len(),
{
    lemma_box_or_none(polygons);
    let shorter = polygons.drop_last();
    lemma_shorter_places(polygons);
    lemma_box_or_none(shorter);
    let n = polygons.len() - 1;
    assert(polygons.last() == polygons[n]);
    assert forall|k: int| 0 <= k < polygons.last().exterior.len() implies is_place(
        #[trigger] polygons.last().exterior[k],
    ) by {
        assert(is_place(polygons[n].exterior[k]));
    }
    lemma_stretched_over(crate::geometry::bounding_box(shorter), polygons.last().exterior);
    if q < n {
        assert(shorter[q] == polygons[q]);
        lemma_bounding_box_holds(shorter, q, i);
    } else {
        assert(in_box(
            polygons.last().exterior[i],
            crate::geometry::bounding_box(polygons).unwrap(),
        ));
    }
}

proof fn lemma_shorter_places(polygons: Seq<PolygonView>)
    requires
        all_places(polygons),
        polygons.len() > 0,
    ensures
        all_places(polygons.drop_last()),
{
    let shorter = polygons.drop_last();
    assert forall|q: int, i: int|
        #![trigger shorter[q].exterior[i]]
        0 <= q < shorter.len() && 0 <= i < shorter[q].exterior.len() implies is_place(
        shorter[q].exterior[i],
    ) by {
        assert(is_place(polygons[q].exterior[i]));
    }
}

/// The box around a territory is one, if there is any corner.
pub proof fn lemma_box_or_none(polygons: Seq<PolygonView>)
    requires
        all_places(polygons),
    ensures
        crate::geometry::bounding_box(polygons) matches Some(b) ==> is_box(b),
    decreases polygons.len(),
{
    if polygons.len() > 0 {
        let shorter = polygons.drop_last();
        lemma_shorter_places(polygons);
        lemma_box_or_none(shorter);
        let n = polygons.len() - 1;
        assert forall|k: int| 0 <= k < polygons.last().exterior.len() implies is_place(
            #[trigger] polygons.last().exterior[k],
        ) by {
            assert(is_place(polygons[n].exterior[k]));
        }
        lemma_stretched_over(crate::geometry::bounding_box(shorter), polygons.last().exterior);
    }
}

// ---------------------------------------------------------------------------------------------
// Land in sight
// ---------------------------------------------------------------------------------------------

/// Whether some corners reach over the left of what is seen from a point, 250 off, and likewise
/// over the right, the bottom and the top: what is wholly beyond one of them is out of sight.
#[verifier::opaque]
pub open spec fn land_in_sight(corners: Seq<Position>, at: Position) -> bool {
    let reach = Float64 { bits: VISIBILITY_RADIUS };
    corners.len() > 0 ==> {
        &&& exists|i: int|
            0 <= i < corners.len() && !((#[trigger] corners[i]).x.lt(at.x.minus(reach)))
        &&& exists|i: int|
            0 <= i < corners.len() && !(at.x.plus(reach).lt((#[trigger] corners[i]).x))
        &&& exists|i: int|
            0 <= i < corners.len() && !((#[trigger] corners[i]).y.lt(at.y.minus(reach)))
        &&& exists|i: int|
            0 <= i < corners.len() && !(at.y.plus(reach).lt((#[trigger] corners[i]).y))
    }
}

proof fn lemma_land_in_sight(corners: Seq<Position>, at: Position)
    requires
        forall|i: int| 0 <= i < corners.len() ==> is_place(#[trigger] corners[i]),
    ensures
        crate::game::outline_in_sight(corners, at) == land_in_sight(corners, at),
{
    reveal(land_in_sight);
    lemma_stretched_over(None, corners);
    let reach = Float64 { bits: VISIBILITY_RADIUS };
    if corners.len() > 0 {
        let b = crate::geometry::stretched_over(None, corners).unwrap();
        let left = choose|i: int| 0 <= i < corners.len() && (#[trigger] corners[i]).x == b.min_x;
        let right = choose|i: int| 0 <= i < corners.len() && (#[trigger] corners[i]).x == b.max_x;
        let low = choose|i: int| 0 <= i < corners.len() && (#[trigger] corners[i]).y == b.min_y;
        let high = choose|i: int| 0 <= i < corners.len() && (#[trigger] corners[i]).y == b.max_y;
        assert(corners[left].x == b.min_x && corners[right].x == b.max_x);
        assert(corners[low].y == b.min_y && corners[high].y == b.max_y);
        if land_in_sight(corners, at) {
            let i = choose|i: int|
                0 <= i < corners.len() && !((#[trigger] corners[i]).x.lt(at.x.minus(reach)));
            assert(in_box(corners[i], b));
            let i = choose|i: int|
                0 <= i < corners.len() && !(at.x.plus(reach).lt((#[trigger] corners[i]).x));
            assert(in_box(corners[i], b));
            let i = choose|i: int|
                0 <= i < corners.len() && !((#[trigger] corners[i]).y.lt(at.y.minus(reach)));
            assert(in_box(corners[i], b));
            let i = choose|i: int|
                0 <= i < corners.len() && !(at.y.plus(reach).lt((#[trigger] corners[i]).y));
            assert(in_box(corners[i], b));
        }
    }
}

/// Whether a ring is an outline of a living player's territory: its corners, the player's id, color
/// and sprite.
pub open spec fn is_outline_of(ring: RingView, p: PlayerView, q: int) -> bool {
    &&& p.alive
    &&& 0 <= q < p.territory.len()
    &&& ring.player_id == p.id
    &&& ring.color == p.color
    &&& ring.sprite_id == p.sprite_id
    &&& ring.points == p.territory[q].exterior
}

/// Whether a ring is an outline of one of some players, in sight of a point.
pub open spec fn is_land_seen(ring: RingView, players: Seq<PlayerView>, at: Position) -> bool {
    land_in_sight(ring.points, at) && exists|j: int, q: int|
        0 <= j < players.len() && #[trigger] is_outline_of(ring, players[j], q)
}

spec fn is_some_outline_of(ring: RingView, p: PlayerView) -> bool {
    exists|q: int| #[trigger] is_outline_of(ring, p, q)
}

/// Whether an outline of a player's territory is among some rings.
pub open spec fn is_among(rings: Seq<RingView>, p: PlayerView, q: int) -> bool {
    exists|k: int| 0 <= k < rings.len() && is_outline_of(#[trigger] rings[k], p, q)
}

proof fn lemma_among_more(a: Seq<RingView>, b: Seq<RingView>, p: PlayerView, q: int)
    ensures
        is_among(a, p, q) || is_among(b, p, q) ==> is_among(a + b, p, q),
{
    if is_among(a, p, q) {
        let k = choose|k: int| 0 <= k < a.len() && is_outline_of(#[trigger] a[k], p, q);
        assert((a + b)[k] == a[k]);
    }
    if is_among(b, p, q) {
        let k = choose|k: int| 0 <= k < b.len() && is_outline_of(#[trigger] b[k], p, q);
        assert((a + b)[a.len() + k] == b[k]);
    }
}

proof fn lemma_rings_of(p: PlayerView, n: int, at: Position)
    requires
        0 <= n <= p.territory.len(),
        p.alive,
        all_places(p.territory),
    ensures
        ({
            let rings = crate::game::rings_of(p, p.territory.take(n), at);
            &&& forall|k: int|
                0 <= k < rings.len() ==> land_in_sight((#[trigger] rings[k]).points, at)
                    && is_some_outline_of(rings[k], p)
            &&& forall|q: int|
                #![trigger p.territory[q]]
                0 <= q < n && land_in_sight(p.territory[q].exterior, at) ==> is_among(rings, p, q)
        }),
    decreases n,
{
    if n > 0 {
        lemma_rings_of(p, n - 1, at);
        assert(p.territory.take(n).drop_last() =~= p.territory.take(n - 1));
        let earlier = crate::game::rings_of(p, p.territory.take(n - 1), at);
        let rings = crate::game::rings_of(p, p.territory.take(n), at);
        let last = p.territory[n - 1];
        assert forall|k: int| 0 <= k < last.exterior.len() implies is_place(
            #[trigger] last.exterior[k],
        ) by {
            assert(is_place(p.territory[n - 1].exterior[k]));
        }
        lemma_land_in_sight(last.exterior, at);
        if land_in_sight(last.exterior, at) {
            assert(is_outline_of(rings[earlier.len() as int], p, n - 1));
        }
        assert forall|k: int| 0 <= k < rings.len() implies land_in_sight(
            (#[trigger] rings[k]).points,
            at,
        ) && is_some_outline_of(rings[k], p) by {
            if k < earlier.len() {
                assert(rings[k] == earlier[k]);
            }
        }
        assert forall|q: int|
            #![trigger p.territory[q]]
            0 <= q < n && land_in_sight(p.territory[q].exterior, at) implies is_among(
            rings,
            p,
            q,
        ) by {
            if q < n - 1 {
                let k = choose|k: int|
                    0 <= k < earlier.len() && is_outline_of(#[trigger] earlier[k], p, q);
                assert(rings[k] == earlier[k]);
            }
        }
    }
}

proof fn lemma_rings_in_sight(players: Seq<PlayerView>, n: int, at: Position)
    requires
        0 <= n <= players.len(),
        forall|j: int| 0 <= j < players.len() ==> all_places((#[trigger] players[j]).territory),
    ensures
        ({
            let rings = crate::game::rings_in_sight(players.take(n), at);
            &&& forall|k: int|
                0 <= k < rings.len() ==> is_land_seen(#[trigger] rings[k], players, at)
            &&& forall|j: int, q: int|
                #![trigger players[j].territory[q]]
                0 <= j < n && players[j].alive && 0 <= q < players[j].territory.len()
                    && land_in_sight(players[j].territory[q].exterior, at) ==> is_among(
                    rings,
                    players[j],
                    q,
                )
        }),
    decreases n,
{
    if n > 0 {
        lemma_rings_in_sight(players, n - 1, at);
        assert(players.take(n).drop_last() =~= players.take(n - 1));
        let earlier = crate::game::rings_in_sight(players.take(n - 1), at);
        let rings = crate::game::rings_in_sight(players.take(n), at);
        let p = players[n - 1];
        let own = crate::game::rings_of(p, p.territory, at);
        if p.alive {
            assert(p.territory.take(p.territory.len() as int) =~= p.territory);
            lemma_rings_of(p, p.territory.len() as int, at);
            assert(rings == earlier + own);
        }
        assert forall|k: int| 0 <= k < rings.len() implies is_land_seen(
            #[trigger] rings[k],
            players,
            at,
        ) by {
            if k < earlier.len() {
                assert(rings[k] == earlier[k]);
            } else {
                let o = k - earlier.len();
                assert(rings[k] == own[o]);
                let q = choose|q: int| #[trigger] is_outline_of(own[o], p, q);
                assert(is_outline_of(rings[k], players[n - 1], q));
            }
        }
        assert forall|j: int, q: int|
            #![trigger players[j].territory[q]]
            0 <= j < n && players[j].alive && 0 <= q < players[j].territory.len()
                && land_in_sight(players[j].territory[q].exterior, at) implies is_among(
            rings,
            players[j],
            q,
        ) by {
            lemma_among_more(earlier, own, players[j], q);
            if j == n - 1 {
                assert(p.territory[q] == players[j].territory[q]);
            }
        }
    }
}

/// A snapshot for a player that has not seen the territories as they are holds every outline of a
/// living player's territory that reaches into what it sees, with its own corners and its owner's
/// id, color and sprite, and nothing else. One who has seen them is sent nothing.
pub proof fn lemma_snapshot_shows_the_land(game: GameView, id: PlayerId, i: int)
    requires
        crate::spoils::distinct_ids(game.players),
        0 <= i < game.players.len(),
        game.players[i].id == id,
        forall|j: int|
            0 <= j < game.players.len() ==> all_places((#[trigger] game.players[j]).territory),
    ensures
        ({
            let after = game.snapshot_sent(id);
            let n = game.outbox.len() as int;
            let at = game.players[i].position;
            if game.players[i].last_territory_version == game.territory_version {
                after.outbox == game.outbox
            } else {
                &&& after.outbox.len() == n + 1
                &&& after.outbox.take(n) == game.outbox
                &&& after.outbox[n].recipients == seq![id]
                &&& after.outbox[n].msg matches ServerMsgView::TerritorySnapshot(rings) && {
                    &&& forall|k: int|
                        0 <= k < rings.len() ==> is_land_seen(
                            #[trigger] rings[k],
                            game.players,
                            at,
                        )
                    &&& forall|j: int, q: int|
                        #![trigger game.players[j].territory[q]]
                        0 <= j < game.players.len() && game.players[j].alive && 0 <= q
                            < game.players[j].territory.len() && land_in_sight(
                            game.players[j].territory[q].exterior,
                            at,
                        ) ==> is_among(rings, game.players[j], q)
                }
            }
        }),
{
    crate::game::lemma_index_of(game.players, id);
    let f = crate::game::index_of(game.players, id).unwrap();
    if f < i {
        assert(game.players[f].id != game.players[i].id);
    } else if i < f {
        assert(game.players[i].id != game.players[f].id);
    }
    let n = game.players.len() as int;
    assert(game.players.take(n) =~= game.players);
    lemma_rings_in_sight(game.players, n, game.players[i].position);
    let after = game.snapshot_sent(id);
    if game.players[i].last_territory_version != game.territory_version {
        let rings = crate::game::rings_in_sight(game.players, game.players[i].position);
        let told = game.sent(id, ServerMsgView::TerritorySnapshot(rings));
        assert(after.outbox == told.outbox);
        assert(told.outbox[game.outbox.len() as int].msg == ServerMsgView::TerritorySnapshot(
            rings,
        ));
        assert(after.outbox.take(game.outbox.len() as int) =~= game.outbox);
    }
}

}
