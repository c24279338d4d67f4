//! What a trail cuts off: the way back, corner by corner.
use crate::game::GameView;
use crate::geometry::PolygonView;
use crate::protocol::Position;
use vstd::prelude::*;

verus! {

/// The square of the distance between two points is that of Pythagoras: exactly, where nothing is
/// rounded.
pub proof fn lemma_distance_is_of_pythagoras(
    c: Position,
    p: Position,
    cx: int,
    cy: int,
    px: int,
    py: int,
    k: nat,
)
    requires
        k <= 400,
        crate::exact::is_at(c, cx, cy, k),
        crate::exact::is_at(p, px, py, k),
        -0x80_0000 <= cx - px <= 0x80_0000,
        -0x80_0000 <= cy - py <= 0x80_0000,
    ensures
        crate::exact::is_parts(
            crate::geometry::spec_dist_sq(c, p),
            (cx - px) * (cx - px) + (cy - py) * (cy - py),
            k + k,
        ),
{
    let dx = c.x.minus(p.x);
    let dy = c.y.minus(p.y);
    let a = cx - px;
    let b = cy - py;
    crate::exact::lemma_minus_exact(c.x, cx, p.x, px, k);
    crate::exact::lemma_minus_exact(c.y, cy, p.y, py, k);
    crate::places::lemma_small_square(a);
    crate::places::lemma_small_square(b);
    crate::exact::lemma_times_exact(dx, a, k, dx, a, k);
    crate::exact::lemma_times_exact(dy, b, k, dy, b, k);
    crate::exact::lemma_plus_exact(dx.times(dx), a * a, dy.times(dy), b * b, k + k);
}

/// Whether no corner of a ring is nearer to a point than one of them.
pub open spec fn is_nearest(ring: Seq<Position>, i: int, p: Position) -> bool {
    &&& 0 <= i < ring.len()
    &&& forall|j: int|
        0 <= j < ring.len() ==> !(#[trigger] crate::geometry::spec_dist_sq(ring[j], p)).lt(
            crate::geometry::spec_dist_sq(ring[i], p),
        )
}

/// Whether an outline follows a trail, goes back along a ring from the corner nearest to the end of
/// the trail to the one nearest to its start, always to the next corner or always to the one
/// before, over at most half the ring, and ends where the trail starts.
pub open spec fn goes_back(
    outline: Seq<Position>,
    trail: Seq<Position>,
    ring: Seq<Position>,
    start: int,
    end: int,
    forward: bool,
) -> bool {
    let n = ring.len() as int;
    let m = outline.len() - trail.len() - 1;
    &&& n >= 3
    &&& 0 <= start < n
    &&& 0 <= end < n
    &&& m >= 1
    &&& 2 * (m - 1) <= n
    &&& forall|k: int| 0 <= k < trail.len() ==> #[trigger] outline[k] == trail[k]
    &&& forall|k: int|
        0 <= k < m ==> #[trigger] outline[trail.len() + k] == ring[if forward {
            (end + k) % n
        } else {
            (end - k) % n
        }]
    &&& (if forward {
        (end + (m - 1)) % n
    } else {
        (end - (m - 1)) % n
    }) == start
    &&& outline[outline.len() - 1] == trail[0]
}

/// The corners of an outline, its first one not repeated at its end.
pub open spec fn is_opened(ring: Seq<Position>, exterior: Seq<Position>) -> bool {
    &&& forall|k: int| 0 <= k < ring.len() ==> #[trigger] ring[k] == exterior[k]
    &&& ring.len() == exterior.len() || (exterior.len() > 1 && ring.len() == exterior.len() - 1)
}

/// Whether the squares of the distances of all corners from a point are numbers.
pub open spec fn all_near(ring: Seq<Position>, p: Position) -> bool {
    forall|k: int|
        0 <= k < ring.len() ==> !(#[trigger] crate::geometry::spec_dist_sq(ring[k], p)).nan()
}

proof fn lemma_nearest_vertex(ring: Seq<Position>, p: Position)
    requires
        ring.len() > 0,
        all_near(ring, p),
    ensures
        is_nearest(ring, crate::geometry::nearest_vertex(ring, p) as int, p),
{
    let i = crate::geometry::nearest_vertex(ring, p) as int;
    assert forall|k: int| 0 <= k < ring.len() implies !(#[trigger] crate::geometry::spec_dist_sq(
        ring[k],
        p,
    )).is_nan() by {
        let c = ring[k];
    }
    crate::geometry::lemma_nearest_vertex_is_nearest(ring, p, 0);
    assert forall|j: int| 0 <= j < ring.len() implies !(#[trigger] crate::geometry::spec_dist_sq(
        ring[j],
        p,
    )).lt(crate::geometry::spec_dist_sq(ring[i], p)) by {
        crate::geometry::lemma_nearest_vertex_is_nearest(ring, p, j);
    }
}

proof fn lemma_place_is_modular(n: nat, from: int, k: int)
    requires
        0 <= from < n,
        0 <= k < n,
    ensures
        crate::geometry::place_after(n, from, k, true) == (from + k) % n as int,
        crate::geometry::place_after(n, from, k, false) == (from - k) % n as int,
{
    let m = n as int;
    if from + k < n {
        assert((from + k) % m == from + k) by (nonlinear_arith)
            requires
                0 <= from + k < m,
        ;
    } else {
        assert((from + k) % m == from + k - m) by (nonlinear_arith)
            requires
                m <= from + k < 2 * m,
        ;
    }
    if from >= k {
        assert((from - k) % m == from - k) by (nonlinear_arith)
            requires
                0 <= from - k < m,
        ;
    } else {
        assert((from - k) % m == from - k + m) by (nonlinear_arith)
            requires
                -m <= from - k < 0,
        ;
    }
}

proof fn lemma_goes_back(trail: Seq<Position>, ring: Seq<Position>, start: int, end: int)
    requires
        trail.len() >= 1,
        ring.len() >= 3,
        0 <= start < ring.len(),
        0 <= end < ring.len(),
    ensures
        ({
            let forward = crate::geometry::walk(ring, end, start, true);
            let backward = crate::geometry::walk(ring, end, start, false);
            if forward.len() <= backward.len() {
                goes_back(
                    (trail + forward).push(trail.first()),
                    trail,
                    ring,
                    start,
                    end,
                    true,
                )
            } else {
                goes_back(
                    (trail + backward).push(trail.first()),
                    trail,
                    ring,
                    start,
                    end,
                    false,
                )
            }
        }),
{
    let n = ring.len();
    let ahead = crate::geometry::walk(ring, end, start, true);
    let back = crate::geometry::walk(ring, end, start, false);
    let forward = ahead.len() <= back.len();
    let way = if forward {
        ahead
    } else {
        back
    };
    let outline = (trail + way).push(trail.first());
    let m = way.len() as int;
    assert(outline.len() - trail.len() - 1 == m);
    assert forall|k: int| 0 <= k < m implies #[trigger] outline[trail.len() + k] == ring[if forward {
        (end + k) % n as int
    } else {
        (end - k) % n as int
    }] by {
        lemma_place_is_modular(n, end, k);
        assert(outline[trail.len() + k] == way[k]);
    }
    lemma_place_is_modular(n, end, m - 1);
    assert forall|k: int| 0 <= k < trail.len() implies #[trigger] outline[k] == trail[k] by {
    }
}

/// Whether a polygon is what a trail cuts off a territory: the trail and the way back along an
/// outline of the territory.
pub open spec fn is_cut_off(
    outline: Seq<Position>,
    trail: Seq<Position>,
    territory: Seq<PolygonView>,
    g: int,
) -> bool {
    0 <= g < territory.len() && exists|ring: Seq<Position>, start: int, end: int, forward: bool|
        #![trigger goes_back(outline, trail, ring, start, end, forward)]
        is_opened(ring, territory[g].exterior) && goes_back(
            outline,
            trail,
            ring,
            start,
            end,
            forward,
        ) && is_nearest(ring, start, trail[0]) && is_nearest(ring, end, trail[trail.len() - 1])
}

/// Whether an outline is one of a territory, opened, with the places on it nearest to two points.
spec fn is_choice(
    c: crate::geometry::RingChoice,
    territory: Seq<PolygonView>,
    g: int,
    first: Position,
    last: Position,
) -> bool {
    &&& 0 <= g < territory.len()
    &&& c.ring == crate::geometry::without_closing(territory[g].exterior)
    &&& c.ring.len() >= 3
    &&& c.start == crate::geometry::nearest_vertex(c.ring, first)
    &&& c.end == crate::geometry::nearest_vertex(c.ring, last)
}

proof fn lemma_choice(
    territory: Seq<PolygonView>,
    n: int,
    first: Position,
    last: Position,
) -> (g: int)
    requires
        0 <= n <= territory.len(),
    ensures
        ({
            let found = crate::geometry::nearest_ring(territory.take(n), first, last);
            &&& found.done ==> found.best is Some
            &&& match found.best {
                Some(c) => is_choice(c, territory, g, first, last),
                None => forall|h: int|
                    0 <= h < n ==> crate::geometry::without_closing(
                        (#[trigger] territory[h]).exterior,
                    ).len() < 3,
            }
        }),
    decreases n,
{
    if n == 0 {
        0
    } else {
        let g = lemma_choice(territory, n - 1, first, last);
        assert(territory.take(n).drop_last() =~= territory.take(n - 1));
        let earlier = crate::geometry::nearest_ring(territory.take(n - 1), first, last);
        let found = crate::geometry::nearest_ring(territory.take(n), first, last);
        let ring = crate::geometry::without_closing(territory[n - 1].exterior);
        if earlier.done || ring.len() < 3 {
            assert(found == earlier);
            g
        } else {
            let total = crate::geometry::spec_dist_sq(
                ring[crate::geometry::nearest_vertex(ring, first) as int],
                first,
            ).plus(
                crate::geometry::spec_dist_sq(
                    ring[crate::geometry::nearest_vertex(ring, last) as int],
                    last,
                ),
            );
            if earlier.best is None || total.lt(earlier.best.unwrap().total) {
                n - 1
            } else {
                g
            }
        }
    }
}

/// A trail cuts off an area of any territory that has an outline of three corners or more: the
/// trail itself, closed by the shorter way back along such an outline, from the corner nearest to
/// its end to the one nearest to its start.
pub proof fn lemma_trail_and_way_back(trail: Seq<Position>, territory: Seq<PolygonView>)
    requires
        trail.len() >= 2,
        forall|g: int|
            #![trigger territory[g]]
            0 <= g < territory.len() ==> all_near(territory[g].exterior, trail[0]) && all_near(
                territory[g].exterior,
                trail[trail.len() - 1],
            ),
    ensures
        match crate::geometry::captured(trail, territory) {
            Some(area) => area.len() == 1 && area[0].interiors.len() == 0 && exists|g: int|
                #[trigger] is_cut_off(area[0].exterior, trail, territory, g),
            None => forall|g: int|
                #![trigger territory[g]]
                0 <= g < territory.len() ==> territory[g].exterior.len() <= 3,
        },
{
    let first = trail.first();
    let last = trail.last();
    let n = territory.len() as int;
    assert(territory.take(n) =~= territory);
    let g = lemma_choice(territory, n, first, last);
    match crate::geometry::nearest_ring(territory, first, last).best {
        None => {
            assert forall|h: int|
                #![trigger territory[h]]
                0 <= h < territory.len() implies territory[h].exterior.len() <= 3 by {
                assert(crate::geometry::without_closing(territory[h].exterior).len() < 3);
            }
        },
        Some(c) => {
            let exterior = territory[g].exterior;
            let ring = c.ring;
            assert(is_opened(ring, exterior));
            assert forall|k: int| 0 <= k < ring.len() implies !(
            #[trigger] crate::geometry::spec_dist_sq(ring[k], first)).nan() by {
                assert(ring[k] == exterior[k]);
                assert(!crate::geometry::spec_dist_sq(exterior[k], trail[0]).nan());
            }
            assert forall|k: int| 0 <= k < ring.len() implies !(
            #[trigger] crate::geometry::spec_dist_sq(ring[k], last)).nan() by {
                assert(ring[k] == exterior[k]);
                assert(!crate::geometry::spec_dist_sq(exterior[k], trail[trail.len() - 1]).nan());
            }
            lemma_nearest_vertex(ring, first);
            lemma_nearest_vertex(ring, last);
            lemma_goes_back(trail, ring, c.start as int, c.end as int);
            let ahead = crate::geometry::walk(ring, c.end as int, c.start as int, true);
            let back = crate::geometry::walk(ring, c.end as int, c.start as int, false);
            let forward = ahead.len() <= back.len();
            let way = if forward {
                ahead
            } else {
                back
            };
            let outline = (trail + way).push(trail.first());
            assert(goes_back(outline, trail, ring, c.start as int, c.end as int, forward));
            assert(outline.len() >= 4);
            let area = crate::geometry::captured(trail, territory).unwrap();
            assert(area[0].exterior == outline);
            assert(is_cut_off(area[0].exterior, trail, territory, g));
        },
    }
}

/// Who is alive and has a trail of two corners or more makes a capture, if its territory has an
/// outline of three: the trail closed by the way back.
pub proof fn lemma_who_has_a_trail_captures(game: GameView, i: int, g: int)
    requires
        crate::spoils::distinct_ids(game.players),
        0 <= i < game.players.len(),
        game.players[i].alive,
        game.players[i].trail.len() >= 2,
        0 <= g < game.players[i].territory.len(),
        game.players[i].territory[g].exterior.len() > 3,
        forall|h: int|
            #![trigger game.players[i].territory[h]]
            0 <= h < game.players[i].territory.len() ==> all_near(
                game.players[i].territory[h].exterior,
                game.players[i].trail[0],
            ) && all_near(
                game.players[i].territory[h].exterior,
                game.players[i].trail[game.players[i].trail.len() - 1],
            ),
    ensures
        match crate::capture::area_captured(game, game.players[i].id) {
            Some(area) => area.len() == 1 && area[0].interiors.len() == 0 && exists|h: int|
                #[trigger] is_cut_off(
                    area[0].exterior,
                    game.players[i].trail,
                    game.players[i].territory,
                    h,
                ),
            None => false,
        },
{
    let p = game.players[i];
    crate::game::lemma_index_of(game.players, p.id);
    let f = crate::game::index_of(game.players, p.id).unwrap();
    if f < i {
        assert(game.players[f].id != game.players[i].id);
    } else if i < f {
        assert(game.players[i].id != game.players[f].id);
    }
    lemma_trail_and_way_back(p.trail, p.territory);
    assert(p.territory[g].exterior.len() > 3);
}

}
