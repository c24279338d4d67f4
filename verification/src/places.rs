//! Where new players come to stand: on the board, near the others, on ground that nobody holds.
use crate::float64::{Float64, INFINITY_BITS};
use crate::geometry::{Aabb, LARGEST, ONE, SMALLEST};
use crate::player::PlayerView;
use crate::protocol::{Position, STARTING_TERRITORY_RADIUS};
use crate::spawn::{SpawnAction, SpawnEvent, SpawnSearch, SEARCH_MARGIN, TRIES, TWO};
use crate::trails::is_place;
use vstd::arithmetic::power2::*;
use vstd::prelude::*;

verus! {

// ---------------------------------------------------------------------------------------------
// Drawn places
// ---------------------------------------------------------------------------------------------

proof fn lemma_square_is_a_number(a: Float64)
    requires
        !a.nan(),
    ensures
        !a.times(a).nan(),
        a.times(a).value() >= 0,
{
    reveal(crate::float64::product);
    if !a.infinite() {
        let u = crate::float64::units(a.magnitude());
        crate::rounding::lemma_units_of_one();
        crate::rounding::lemma_rounded_is_nearest(u * u, crate::float64::unity());
    }
}

proof fn lemma_sum_is_more(a: Float64, b: Float64)
    requires
        !a.nan(),
        !b.nan(),
        a.value() >= 0,
        b.value() >= 0,
    ensures
        !a.plus(b).nan(),
        a.plus(b).value() >= a.value(),
        a.plus(b).value() >= b.value(),
{
    reveal(crate::float64::sum);
    assert(crate::float64::units(0) == 0);
    crate::float64::lemma_units_ordered(0, INFINITY_BITS as nat);
    if a.infinite() || b.infinite() {
        if a.magnitude() < INFINITY_BITS {
            crate::float64::lemma_units_ordered(a.magnitude(), INFINITY_BITS as nat);
        }
        if b.magnitude() < INFINITY_BITS {
            crate::float64::lemma_units_ordered(b.magnitude(), INFINITY_BITS as nat);
        }
    } else {
        crate::motion::lemma_plus_up(a, b);
        crate::motion::lemma_plus_up(b, a);
        assert(a.value() + b.value() == b.value() + a.value());
        if a.value() + b.value() == 0 {
            assert(a.plus(b).value() == 0);
        } else {
            assert(a.plus(b) == b.plus(a));
        }
    }
}

/// A drawn place is that far from the middle of the territories as was drawn, along each axis. It
/// is looked at only if it is on the board: the squares of both its coordinates, and their sum, are
/// at most that of the limit. Otherwise a try is lost.
pub proof fn lemma_drawn_place_is_on_board(search: SpawnSearch, dx: Float64, dy: Float64)
    requires
        search.tries < TRIES,
        !search.limit.nan(),
        !search.centre.x.plus(dx).nan(),
        !search.centre.y.plus(dy).nan(),
    ensures
        ({
            let (next, action) = search.stepped(SpawnEvent::Drawn { dx, dy });
            let x = search.centre.x.plus(dx);
            let y = search.centre.y.plus(dy);
            let most = search.limit.times(search.limit).value();
            let on_board = x.times(x).plus(y.times(y)).value() <= most;
            &&& action is Probe == on_board
            &&& action matches SpawnAction::Probe(at) ==> {
                &&& next == search
                &&& at == (Position { x, y })
                &&& at.x.times(at.x).value() <= most
                &&& at.y.times(at.y).value() <= most
            }
            &&& !on_board ==> action !is Settle && next == (SpawnSearch {
                tries: (search.tries + 1) as u32,
                ..search
            })
        }),
{
    let x = search.centre.x.plus(dx);
    let y = search.centre.y.plus(dy);
    lemma_square_is_a_number(x);
    lemma_square_is_a_number(y);
    lemma_square_is_a_number(search.limit);
    lemma_sum_is_more(x.times(x), y.times(y));
}

/// Where nothing is rounded, a drawn place is looked at just if it is no farther from the middle of
/// the board than the limit.
pub proof fn lemma_drawn_place_within_limit(
    search: SpawnSearch,
    dx: Float64,
    dy: Float64,
    cx: int,
    cy: int,
    x: int,
    y: int,
    limit: int,
    k: nat,
)
    requires
        search.tries < TRIES,
        k <= 400,
        crate::exact::is_at(search.centre, cx, cy, k),
        crate::exact::is_parts(dx, x, k),
        crate::exact::is_parts(dy, y, k),
        crate::exact::is_parts(search.limit, limit, k),
        -0x80_0000 <= cx + x <= 0x80_0000,
        -0x80_0000 <= cy + y <= 0x80_0000,
        -0x80_0000 <= limit <= 0x80_0000,
    ensures
        ({
            let action = search.stepped(SpawnEvent::Drawn { dx, dy }).1;
            &&& action is Probe == ((cx + x) * (cx + x) + (cy + y) * (cy + y) <= limit * limit)
            &&& action matches SpawnAction::Probe(at) ==> crate::exact::is_at(
                at,
                cx + x,
                cy + y,
                k,
            )
        }),
{
    let ax = search.centre.x.plus(dx);
    let ay = search.centre.y.plus(dy);
    let a = cx + x;
    let b = cy + y;
    crate::exact::lemma_plus_exact(search.centre.x, cx, dx, x, k);
    crate::exact::lemma_plus_exact(search.centre.y, cy, dy, y, k);
    lemma_small_square(a);
    lemma_small_square(b);
    lemma_small_square(limit);
    crate::exact::lemma_times_exact(ax, a, k, ax, a, k);
    crate::exact::lemma_times_exact(ay, b, k, ay, b, k);
    crate::exact::lemma_times_exact(search.limit, limit, k, search.limit, limit, k);
    crate::exact::lemma_plus_exact(ax.times(ax), a * a, ay.times(ay), b * b, k + k);
    crate::exact::lemma_order_exact(
        search.limit.times(search.limit),
        limit * limit,
        ax.times(ax).plus(ay.times(ay)),
        a * a + b * b,
        k + k,
    );
}

/// The square of a small number is small.
pub proof fn lemma_small_square(a: int)
    requires
        -0x80_0000 <= a <= 0x80_0000,
    ensures
        0 <= a * a <= 0x4000_0000_0000,
{
    assert(0 <= a * a <= 0x4000_0000_0000) by (nonlinear_arith)
        requires
            -0x80_0000 <= a <= 0x80_0000,
    ;
}

/// A place is settled on just if nobody's territory touches it; otherwise a try is lost.
pub proof fn lemma_settled_only_on_clear_ground(
    search: SpawnSearch,
    at: Position,
    touched: Vec<bool>,
)
    requires
        search.tries < TRIES,
    ensures
        ({
            let (next, action) = search.stepped(SpawnEvent::Probed { at, touched });
            let clear = forall|i: int| 0 <= i < touched@.len() ==> !#[trigger] touched@[i];
            &&& action is Settle == clear
            &&& clear ==> action == SpawnAction::Settle(at) && next == search
            &&& !clear ==> next == (SpawnSearch { tries: (search.tries + 1) as u32, ..search })
        }),
{
    if touched@.contains(true) {
        let i = choose|i: int| 0 <= i < touched@.len() && touched@[i] == true;
        assert(touched@[i]);
    } else {
        assert forall|i: int| 0 <= i < touched@.len() implies !#[trigger] touched@[i] by {
            if touched@[i] {
                assert(touched@.contains(true));
            }
        }
    }
}

/// As long as there are fewer than two hundred tries, another place is drawn, from as far around as
/// the first; then one is taken at random.
pub proof fn lemma_two_hundred_tries(search: SpawnSearch, event: SpawnEvent)
    requires
        search.tries < TRIES,
        search.stepped(event).0.tries != search.tries,
    ensures
        search.stepped(event).0.tries == search.tries + 1,
        search.stepped(event).0.tries < 200 ==> search.stepped(event).1 == (SpawnAction::Draw {
            reach: search.reach,
        }),
        search.stepped(event).0.tries == 200 ==> search.stepped(event).1 is FallBack,
        search.stepped(event).0.tries <= 200,
{
}

/// A part of a number keeps to its own side of nought, and is no larger than the number.
pub proof fn lemma_times_part(part: Float64, a: Float64)
    requires
        !part.nan(),
        part.magnitude() <= ONE,
        a.magnitude() < INFINITY_BITS,
        !a.negative(),
    ensures
        !part.times(a).nan(),
        part.times(a).negative() == part.negative(),
        part.times(a).magnitude() <= a.magnitude(),
{
    reveal(crate::float64::product);
    let u = crate::float64::units(part.magnitude());
    let v = crate::float64::units(a.magnitude());
    let one = crate::float64::unity();
    crate::rounding::lemma_units_of_one();
    if part.magnitude() < ONE {
        crate::float64::lemma_units_ordered(part.magnitude(), ONE as nat);
    }
    assert(u * v <= one * v) by (nonlinear_arith)
        requires
            u <= one,
            v >= 0,
    ;
    crate::rounding::lemma_rounded_at_most(u * v, one, a.magnitude());
}

/// A place that is taken at random lies in the direction that was drawn, no farther along either
/// axis than the distance that was drawn.
pub proof fn lemma_fallen_place_lies_there(
    search: SpawnSearch,
    cos: Float64,
    sin: Float64,
    distance: Float64,
)
    requires
        !cos.nan() && cos.magnitude() <= ONE,
        !sin.nan() && sin.magnitude() <= ONE,
        distance.magnitude() < INFINITY_BITS,
        !distance.negative(),
    ensures
        search.stepped(SpawnEvent::Fallen { cos, sin, distance }).0 == search,
        search.stepped(SpawnEvent::Fallen { cos, sin, distance }).1 matches SpawnAction::Settle(at)
            && {
            &&& at.x.negative() == cos.negative() && at.y.negative() == sin.negative()
            &&& at.x.magnitude() <= distance.magnitude() && at.y.magnitude()
                <= distance.magnitude()
            &&& cos.magnitude() == ONE ==> at.x.magnitude() == distance.magnitude()
            &&& sin.magnitude() == ONE ==> at.y.magnitude() == distance.magnitude()
        },
{
    lemma_times_part(cos, distance);
    lemma_times_part(sin, distance);
    reveal(crate::float64::product);
    crate::rounding::lemma_units_of_one();
    let v = crate::float64::units(distance.magnitude());
    let one = crate::float64::unity();
    crate::rounding::lemma_rounded_exact(one * v, one, distance.magnitude());
}

/// The two axes are alike: directions that are exchanged make a place with its coordinates
/// exchanged.
pub proof fn lemma_fallen_axes_alike(
    search: SpawnSearch,
    cos: Float64,
    sin: Float64,
    distance: Float64,
)
    ensures
        ({
            let a = search.stepped(SpawnEvent::Fallen { cos, sin, distance }).1;
            let b = search.stepped(SpawnEvent::Fallen { cos: sin, sin: cos, distance }).1;
            a matches SpawnAction::Settle(p) && b matches SpawnAction::Settle(q) && p.x == q.y
                && p.y == q.x
        }),
{
}

// ---------------------------------------------------------------------------------------------
// Where places are drawn from
// ---------------------------------------------------------------------------------------------

/// Whether some corner of a territory has an abscissa.
pub open spec fn corner_x(players: Seq<PlayerView>, x: Float64) -> bool {
    exists|j: int, q: int, i: int|
        is_corner(players, j, q, i) && (#[trigger] players[j].territory[q].exterior[i]).x == x
}

/// Whether some corner of a territory has an ordinate.
pub open spec fn corner_y(players: Seq<PlayerView>, y: Float64) -> bool {
    exists|j: int, q: int, i: int|
        is_corner(players, j, q, i) && (#[trigger] players[j].territory[q].exterior[i]).y == y
}

/// Whether there is such a corner of a territory.
pub open spec fn is_corner(players: Seq<PlayerView>, j: int, q: int, i: int) -> bool {
    &&& 0 <= j < players.len()
    &&& 0 <= q < players[j].territory.len()
    &&& 0 <= i < players[j].territory[q].exterior.len()
}

/// Whether all corners of territories are points of the plane.
pub open spec fn all_finite(players: Seq<PlayerView>) -> bool {
    forall|j: int, q: int, i: int|
        #![trigger players[j].territory[q].exterior[i]]
        is_corner(players, j, q, i) ==> crate::edge::somewhere(
            players[j].territory[q].exterior[i],
        )
}

/// Whether a box is around all corners of territories, and each of its sides is where one is.
pub open spec fn is_around(b: Aabb, players: Seq<PlayerView>) -> bool {
    &&& crate::boxes::is_box(b)
    &&& forall|j: int, q: int, i: int|
        #![trigger players[j].territory[q].exterior[i]]
        is_corner(players, j, q, i) ==> crate::boxes::in_box(
            players[j].territory[q].exterior[i],
            b,
        )
    &&& corner_x(players, b.min_x) && corner_x(players, b.max_x)
    &&& corner_y(players, b.min_y) && corner_y(players, b.max_y)
}

spec fn bound_x(polygons: Seq<crate::geometry::PolygonView>, x: Float64) -> bool {
    exists|q: int, i: int|
        0 <= q < polygons.len() && 0 <= i < polygons[q].exterior.len() && (
        #[trigger] polygons[q].exterior[i]).x == x
}

spec fn bound_y(polygons: Seq<crate::geometry::PolygonView>, y: Float64) -> bool {
    exists|q: int, i: int|
        0 <= q < polygons.len() && 0 <= i < polygons[q].exterior.len() && (
        #[trigger] polygons[q].exterior[i]).y == y
}

proof fn lemma_bound_grows(polygons: Seq<crate::geometry::PolygonView>, a: Float64)
    requires
        polygons.len() > 0,
    ensures
        bound_x(polygons.drop_last(), a) ==> bound_x(polygons, a),
        bound_y(polygons.drop_last(), a) ==> bound_y(polygons, a),
        crate::boxes::some_x(polygons.last().exterior, a) ==> bound_x(polygons, a),
        crate::boxes::some_y(polygons.last().exterior, a) ==> bound_y(polygons, a),
{
    let shorter = polygons.drop_last();
    let n = polygons.len() - 1;
    let last = polygons.last().exterior;
    if bound_x(shorter, a) {
        let (q, i) = choose|q: int, i: int|
            0 <= q < shorter.len() && 0 <= i < shorter[q].exterior.len() && (
            #[trigger] shorter[q].exterior[i]).x == a;
        assert(polygons[q].exterior[i].x == a);
    }
    if bound_y(shorter, a) {
        let (q, i) = choose|q: int, i: int|
            0 <= q < shorter.len() && 0 <= i < shorter[q].exterior.len() && (
            #[trigger] shorter[q].exterior[i]).y == a;
        assert(polygons[q].exterior[i].y == a);
    }
    if crate::boxes::some_x(last, a) {
        let i = choose|i: int| 0 <= i < last.len() && (#[trigger] last[i]).x == a;
        assert(polygons[n].exterior[i].x == a);
    }
    if crate::boxes::some_y(last, a) {
        let i = choose|i: int| 0 <= i < last.len() && (#[trigger] last[i]).y == a;
        assert(polygons[n].exterior[i].y == a);
    }
}

/// The box around a territory has each of its sides where a corner is.
proof fn lemma_bounding_box_drawn(polygons: Seq<crate::geometry::PolygonView>)
    requires
        crate::boxes::all_places(polygons),
    ensures
        crate::geometry::bounding_box(polygons) matches Some(b) ==> bound_x(polygons, b.min_x)
            && bound_x(polygons, b.max_x) && bound_y(polygons, b.min_y) && bound_y(
            polygons,
            b.max_y,
        ),
        crate::geometry::bounding_box(polygons) is None ==> forall|q: int|
            0 <= q < polygons.len() ==> (#[trigger] polygons[q]).exterior.len() == 0,
    decreases polygons.len(),
{
    if polygons.len() > 0 {
        let shorter = polygons.drop_last();
        let n = polygons.len() - 1;
        assert forall|q: int, i: int|
            #![trigger shorter[q].exterior[i]]
            0 <= q < shorter.len() && 0 <= i < shorter[q].exterior.len() implies is_place(
            shorter[q].exterior[i],
        ) by {
            assert(is_place(polygons[q].exterior[i]));
        }
        assert(polygons.last() == polygons[n]);
        assert forall|k: int| 0 <= k < polygons.last().exterior.len() implies is_place(
            #[trigger] polygons.last().exterior[k],
        ) by {
            assert(is_place(polygons[n].exterior[k]));
        }
        lemma_bounding_box_drawn(shorter);
        crate::boxes::lemma_box_or_none(shorter);
        crate::boxes::lemma_stretched_over(
            crate::geometry::bounding_box(shorter),
            polygons.last().exterior,
        );
        match crate::geometry::bounding_box(polygons) {
            Some(b) => {
                lemma_bound_grows(polygons, b.min_x);
                lemma_bound_grows(polygons, b.max_x);
                lemma_bound_grows(polygons, b.min_y);
                lemma_bound_grows(polygons, b.max_y);
            },
            None => {
                assert forall|q: int| 0 <= q < polygons.len() implies (
                #[trigger] polygons[q]).exterior.len() == 0 by {
                    if q < n {
                        assert(shorter[q] == polygons[q]);
                    }
                }
            },
        }
    }
}

proof fn lemma_least_of_all(a: Float64)
    requires
        a.magnitude() < INFINITY_BITS,
    ensures
        (Float64 { bits: LARGEST }).min(a) == a,
        (Float64 { bits: SMALLEST }).max(a) == a,
{
    let m = a.magnitude();
    let l = LARGEST as nat;
    assert(m <= l);
    assert(crate::float64::units(0) == 0);
    if m < l {
        crate::float64::lemma_units_ordered(m, l);
    }
    crate::float64::lemma_units_ordered(0, l);
    if m > 0 {
        crate::float64::lemma_units_ordered(0, m);
    }
}

proof fn lemma_corner_grows(players: Seq<PlayerView>, a: Float64)
    requires
        players.len() > 0,
    ensures
        corner_x(players.drop_last(), a) ==> corner_x(players, a),
        corner_y(players.drop_last(), a) ==> corner_y(players, a),
        bound_x(players.last().territory, a) ==> corner_x(players, a),
        bound_y(players.last().territory, a) ==> corner_y(players, a),
{
    let shorter = players.drop_last();
    let n = players.len() - 1;
    let last = players.last().territory;
    if corner_x(shorter, a) {
        let (j, q, i) = choose|j: int, q: int, i: int|
            is_corner(shorter, j, q, i) && (#[trigger] shorter[j].territory[q].exterior[i]).x == a;
        assert(is_corner(players, j, q, i));
        assert(players[j].territory[q].exterior[i].x == a);
    }
    if corner_y(shorter, a) {
        let (j, q, i) = choose|j: int, q: int, i: int|
            is_corner(shorter, j, q, i) && (#[trigger] shorter[j].territory[q].exterior[i]).y == a;
        assert(is_corner(players, j, q, i));
        assert(players[j].territory[q].exterior[i].y == a);
    }
    if bound_x(last, a) {
        let (q, i) = choose|q: int, i: int|
            0 <= q < last.len() && 0 <= i < last[q].exterior.len() && (
            #[trigger] last[q].exterior[i]).x == a;
        assert(is_corner(players, n, q, i));
        assert(players[n].territory[q].exterior[i].x == a);
    }
    if bound_y(last, a) {
        let (q, i) = choose|q: int, i: int|
            0 <= q < last.len() && 0 <= i < last[q].exterior.len() && (
            #[trigger] last[q].exterior[i]).y == a;
        assert(is_corner(players, n, q, i));
        assert(players[n].territory[q].exterior[i].y == a);
    }
}

/// Whether no territory has a corner.
pub open spec fn no_corner(players: Seq<PlayerView>) -> bool {
    forall|j: int, q: int, i: int| !#[trigger] is_corner(players, j, q, i)
}

proof fn lemma_own_box(players: Seq<PlayerView>, j: int)
    requires
        all_finite(players),
        0 <= j < players.len(),
    ensures
        crate::boxes::all_places(players[j].territory),
{
    assert forall|q: int, i: int|
        #![trigger players[j].territory[q].exterior[i]]
        0 <= q < players[j].territory.len() && 0 <= i
            < players[j].territory[q].exterior.len() implies is_place(
        players[j].territory[q].exterior[i],
    ) by {
        assert(is_corner(players, j, q, i));
        assert(crate::edge::somewhere(players[j].territory[q].exterior[i]));
    }
}

/// The box around all territories holds every corner of each, and has each of its sides where one
/// is, unless there is none.
pub proof fn lemma_territories_box(players: Seq<PlayerView>)
    requires
        all_finite(players),
    ensures
        is_around(crate::spawn::territories_box(players), players) || (no_corner(players)
            && crate::spawn::territories_box(players) == crate::geometry::empty_box()),
    decreases players.len(),
{
    if players.len() > 0 {
        let shorter = players.drop_last();
        let n = players.len() - 1;
        let p = players.last();
        assert(p == players[n]);
        assert forall|j: int, q: int, i: int|
            #![trigger shorter[j].territory[q].exterior[i]]
            is_corner(shorter, j, q, i) implies crate::edge::somewhere(
            shorter[j].territory[q].exterior[i],
        ) by {
            assert(is_corner(players, j, q, i));
            assert(crate::edge::somewhere(players[j].territory[q].exterior[i]));
        }
        lemma_territories_box(shorter);
        lemma_own_box(players, n);
        lemma_bounding_box_drawn(p.territory);
        crate::boxes::lemma_box_or_none(p.territory);
        let earlier = crate::spawn::territories_box(shorter);
        let b = crate::spawn::territories_box(players);
        lemma_corner_grows(players, earlier.min_x);
        lemma_corner_grows(players, earlier.max_x);
        lemma_corner_grows(players, earlier.min_y);
        lemma_corner_grows(players, earlier.max_y);
        match crate::geometry::bounding_box(p.territory) {
            None => {
                assert forall|j: int, q: int, i: int|
                    #![trigger players[j].territory[q].exterior[i]]
                    is_corner(players, j, q, i) implies j < n && is_corner(shorter, j, q, i) by {
                    if j == n {
                        assert(p.territory[q].exterior.len() == 0);
                    }
                }
                if no_corner(shorter) && earlier == crate::geometry::empty_box() {
                    assert forall|j: int, q: int, i: int| !#[trigger] is_corner(
                        players,
                        j,
                        q,
                        i,
                    ) by {
                        if is_corner(players, j, q, i) {
                            let c = players[j].territory[q].exterior[i];
                            assert(is_corner(shorter, j, q, i));
                        }
                    }
                } else {
                    assert forall|j: int, q: int, i: int|
                        #![trigger players[j].territory[q].exterior[i]]
                        is_corner(players, j, q, i) implies crate::boxes::in_box(
                        players[j].territory[q].exterior[i],
                        b,
                    ) by {
                        let c = shorter[j].territory[q].exterior[i];
                        assert(crate::boxes::in_box(c, earlier));
                    }
                    assert(is_around(b, players));
                }
            },
            Some(own) => {
                lemma_corner_grows(players, own.min_x);
                lemma_corner_grows(players, own.max_x);
                lemma_corner_grows(players, own.min_y);
                lemma_corner_grows(players, own.max_y);
                if no_corner(shorter) && earlier == crate::geometry::empty_box() {
                    lemma_corner_of(players, own.min_x);
                    lemma_corner_of(players, own.max_x);
                    lemma_corner_of(players, own.min_y);
                    lemma_corner_of(players, own.max_y);
                    lemma_least_of_all(own.min_x);
                    lemma_least_of_all(own.max_x);
                    lemma_least_of_all(own.min_y);
                    lemma_least_of_all(own.max_y);
                    assert(b == own);
                }
                assert forall|j: int, q: int, i: int|
                    #![trigger players[j].territory[q].exterior[i]]
                    is_corner(players, j, q, i) implies crate::boxes::in_box(
                    players[j].territory[q].exterior[i],
                    b,
                ) by {
                    if j < n {
                        assert(is_corner(shorter, j, q, i));
                        let c = shorter[j].territory[q].exterior[i];
                        assert(is_around(earlier, shorter));
                        assert(crate::boxes::in_box(c, earlier));
                    } else {
                        crate::boxes::lemma_bounding_box_holds(p.territory, q, i);
                    }
                }
                assert(is_around(b, players));
            },
        }
    }
}

proof fn lemma_corner_of(players: Seq<PlayerView>, a: Float64)
    requires
        all_finite(players),
    ensures
        corner_x(players, a) || corner_y(players, a) ==> a.magnitude() < INFINITY_BITS,
{
    if corner_x(players, a) {
        let (j, q, i) = choose|j: int, q: int, i: int|
            is_corner(players, j, q, i) && (#[trigger] players[j].territory[q].exterior[i]).x == a;
        assert(crate::edge::somewhere(players[j].territory[q].exterior[i]));
    }
    if corner_y(players, a) {
        let (j, q, i) = choose|j: int, q: int, i: int|
            is_corner(players, j, q, i) && (#[trigger] players[j].territory[q].exterior[i]).y == a;
        assert(crate::edge::somewhere(players[j].territory[q].exterior[i]));
    }
}

/// Half of so many parts is as many smaller parts.
pub proof fn lemma_halved_exact(a: Float64, m: int, k: nat)
    requires
        crate::exact::is_parts(a, m, k),
        crate::exact::few(m),
        k + 1 <= 1022,
    ensures
        crate::exact::is_parts(a.over(Float64 { bits: TWO }), m, k + 1),
{
    reveal(crate::float64::quotient);
    let two = Float64 { bits: TWO };
    let e = (1074 - k) as nat;
    let f = (1074 - (k + 1)) as nat;
    let one = crate::float64::unity();
    crate::exact::lemma_size_of(a, m, k);
    crate::exact::lemma_search_constants();
    crate::exact::lemma_size_of(two, 2, 0);
    lemma_pow2_unfold(e);
    lemma_pow2_pos(1074);
    let s = crate::exact::size(m);
    let mag = crate::rounding::lemma_small_multiple(s, f);
    let p = pow2(f);
    let u = crate::float64::units(a.magnitude());
    assert(u * one == (2 * one) * (s * p)) by (nonlinear_arith)
        requires
            u == s * (2 * p),
    ;
    crate::rounding::lemma_rounded_exact(u * one, 2 * one, mag);
    crate::exact::lemma_signed_parts(a.negative(), mag, m, k + 1);
}

/// Places are drawn from around the middle of the box around all territories, up to twenty beyond
/// the mean of its sides, and taken only where the starting square and one more stay on the board:
/// exactly, where nothing is rounded.
pub proof fn lemma_where_places_are_drawn(
    players: Seq<PlayerView>,
    board_radius: Float64,
    left: int,
    right: int,
    low: int,
    high: int,
    radius: int,
    k: nat,
)
    requires
        1 <= k <= 10,
        ({
            let b = crate::spawn::territories_box(players);
            &&& crate::exact::is_parts(b.min_x, left, k)
            &&& crate::exact::is_parts(b.max_x, right, k)
            &&& crate::exact::is_parts(b.min_y, low, k)
            &&& crate::exact::is_parts(b.max_y, high, k)
        }),
        -0x100_0000_0000 <= left <= right <= 0x100_0000_0000,
        -0x100_0000_0000 <= low <= high <= 0x100_0000_0000,
        crate::exact::is_parts(board_radius, radius, k),
        -0x100_0000_0000 <= radius <= 0x100_0000_0000,
    ensures
        ({
            let search = crate::spawn::search_among(players, board_radius);
            &&& crate::exact::is_at(search.centre, left + right, low + high, k + 1)
            &&& crate::exact::is_parts(
                search.reach,
                (right - left) + (high - low) + 20 * pow2(k + 1),
                k + 1,
            )
            &&& exists|limit: int|
                #![trigger crate::exact::is_parts(search.limit, limit, k)]
                crate::exact::is_parts(search.limit, limit, k) && 2 * limit == 2 * radius - 7
                    * pow2(k)
            &&& search.tries == 0
        }),
{
    let b = crate::spawn::territories_box(players);
    let two = Float64 { bits: TWO };
    let margin = Float64 { bits: SEARCH_MARGIN };
    let square = Float64 { bits: STARTING_TERRITORY_RADIUS };
    let one = Float64 { bits: ONE };
    let search = crate::spawn::search_among(players, board_radius);
    crate::exact::lemma_constants();
    crate::exact::lemma_search_constants();
    lemma2_to64();
    if k < 10 {
        lemma_pow2_strictly_increases(k, 10);
    }
    lemma_pow2_unfold(k + 1);
    lemma_pow2_unfold(k);
    lemma_pow2_pos(k);
    lemma_pow2_pos((k - 1) as nat);
    crate::exact::lemma_plus_exact(b.min_x, left, b.max_x, right, k);
    crate::exact::lemma_plus_exact(b.min_y, low, b.max_y, high, k);
    lemma_halved_exact(b.min_x.plus(b.max_x), left + right, k);
    lemma_halved_exact(b.min_y.plus(b.max_y), low + high, k);
    let w = b.max_x.minus(b.min_x);
    crate::exact::lemma_minus_exact(b.max_x, right, b.min_x, left, k);
    crate::exact::lemma_plus_exact(w, right - left, b.max_y, high, k);
    crate::exact::lemma_minus_exact(w.plus(b.max_y), right - left + high, b.min_y, low, k);
    let sides = w.plus(b.max_y).minus(b.min_y);
    let total = right - left + high - low;
    lemma_halved_exact(sides, total, k);
    crate::exact::lemma_finer(margin, 20, 0, k + 1);
    let far = 20 * pow2(k + 1);
    crate::exact::lemma_plus_exact(sides.over(two), total, margin, far as int, k + 1);
    crate::exact::lemma_order_exact(
        sides.over(two).plus(margin),
        total + far,
        margin,
        far as int,
        k + 1,
    );
    let half = 5 * pow2((k - 1) as nat);
    crate::exact::lemma_finer(square, 5, 1, (k - 1) as nat);
    crate::exact::lemma_finer(one, 1, 0, k);
    crate::exact::lemma_minus_exact(board_radius, radius, square, half as int, k);
    crate::exact::lemma_minus_exact(
        board_radius.minus(square),
        radius - half,
        one,
        pow2(k) as int,
        k,
    );
    let limit = radius - half - pow2(k);
    assert(crate::exact::is_parts(search.limit, limit, k));
}

}
