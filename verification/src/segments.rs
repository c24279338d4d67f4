//! Which of two segments is named first makes no difference to whether they cross.
use crate::float64::Float64;
use crate::geometry::{MARGIN, ONE, PARALLEL};
use crate::protocol::Position;
use vstd::prelude::*;

verus! {

// ---------------------------------------------------------------------------------------------
// Opposite numbers
// ---------------------------------------------------------------------------------------------

/// Whether two numbers differ by their signs alone; zero has no sign here, and what is no number is
/// opposite to what is none.
pub open spec fn opposite(p: Float64, q: Float64) -> bool {
    if p.nan() || q.nan() {
        p.nan() && q.nan()
    } else {
        p.magnitude() == q.magnitude() && (p.magnitude() == 0 || p.negative() != q.negative())
    }
}

/// Whether two numbers are the same; zero has no sign here, and what is no number is the same as
/// what is none.
pub open spec fn alike(p: Float64, q: Float64) -> bool {
    if p.nan() || q.nan() {
        p.nan() && q.nan()
    } else {
        p.magnitude() == q.magnitude() && (p.magnitude() == 0 || p.negative() == q.negative())
    }
}

proof fn lemma_opposite_values(p: Float64, q: Float64)
    requires
        opposite(p, q),
    ensures
        !p.nan() ==> q.value() == -p.value(),
        p.nan() == q.nan(),
        p.infinite() == q.infinite(),
{
    assert(crate::float64::units(0) == 0);
}

proof fn lemma_differences_opposite(p: Float64, q: Float64, r: Float64, s: Float64)
    requires
        opposite(p, r),
        opposite(q, s),
    ensures
        opposite(p.minus(q), r.minus(s)),
{
    reveal(crate::float64::sum);
    lemma_opposite_values(p, r);
    lemma_opposite_values(q, s);
    crate::rounding::lemma_negated_parts(q);
    crate::rounding::lemma_negated_parts(s);
    if !p.nan() && !q.nan() && !p.infinite() && !q.infinite() {
        let exact = p.value() - q.value();
        assert(p.value() + q.negated().value() == exact);
        assert(r.value() + s.negated().value() == -exact);
        let size = if exact < 0 {
            (-exact) as nat
        } else {
            exact as nat
        };
        crate::rounding::lemma_rounded_is_nearest(size, 1);
    }
}

proof fn lemma_difference_swapped(p: Float64, q: Float64)
    ensures
        opposite(p.minus(q), q.minus(p)),
{
    reveal(crate::float64::sum);
    crate::rounding::lemma_negated_parts(p);
    crate::rounding::lemma_negated_parts(q);
    if !p.nan() && !q.nan() && !p.infinite() && !q.infinite() {
        let exact = p.value() - q.value();
        assert(p.value() + q.negated().value() == exact);
        assert(q.value() + p.negated().value() == -exact);
        let size = if exact < 0 {
            (-exact) as nat
        } else {
            exact as nat
        };
        crate::rounding::lemma_rounded_is_nearest(size, 1);
    }
}

proof fn lemma_products_opposite(p: Float64, q: Float64, c: Float64)
    requires
        opposite(p, q),
    ensures
        opposite(p.times(c), q.times(c)),
{
    reveal(crate::float64::product);
    crate::rounding::lemma_units_of_one();
    let one = crate::float64::unity();
    let u = crate::float64::units(p.magnitude());
    let v = crate::float64::units(c.magnitude());
    crate::rounding::lemma_rounded_is_nearest(u * v, one);
    assert(crate::float64::units(0) == 0);
    if p.magnitude() == 0 {
        assert(0 * v == 0);
        crate::rounding::lemma_rounded_exact(0, one, 0);
    }
}

proof fn lemma_quotients_alike(p: Float64, d: Float64, q: Float64, e: Float64)
    requires
        opposite(p, q),
        opposite(d, e),
        d.nan() || d.magnitude() > 0,
    ensures
        alike(p.over(d), q.over(e)),
{
    reveal(crate::float64::quotient);
    let one = crate::float64::unity();
    let u = crate::float64::units(p.magnitude());
    let v = crate::float64::units(d.magnitude());
    assert(crate::float64::units(0) == 0);
    if !d.nan() {
        crate::float64::lemma_units_ordered(0, d.magnitude());
        crate::rounding::lemma_rounded_is_nearest(u * one, v);
        if p.magnitude() == 0 {
            assert(0 * one == 0);
            crate::rounding::lemma_rounded_exact(0, v, 0);
        }
    }
}

proof fn lemma_alike_places(t: Float64, u: Float64)
    requires
        alike(t, u),
    ensures
        crate::geometry::on_segment(t) == crate::geometry::on_segment(u),
        crate::geometry::inside_segment(t) == crate::geometry::inside_segment(u),
{
    assert(crate::float64::units(0) == 0);
}

// ---------------------------------------------------------------------------------------------
// Two segments, and the same two the other way round
// ---------------------------------------------------------------------------------------------

/// Two segments run side by side just where they do the other way round.
pub proof fn lemma_parallel_symmetric(a1: Position, a2: Position, b1: Position, b2: Position)
    ensures
        crate::geometry::parallel(a1, a2, b1, b2) == crate::geometry::parallel(b1, b2, a1, a2),
        opposite(
            crate::geometry::cross(a1, a2, b1, b2),
            crate::geometry::cross(b1, b2, a1, a2),
        ),
        !crate::geometry::parallel(a1, a2, b1, b2) ==> {
            let d = crate::geometry::cross(a1, a2, b1, b2);
            d.nan() || d.magnitude() > 0
        },
{
    let d1x = a2.x.minus(a1.x);
    let d1y = a2.y.minus(a1.y);
    let d2x = b2.x.minus(b1.x);
    let d2y = b2.y.minus(b1.y);
    crate::rounding::lemma_times_signs(d1x, d2y);
    crate::rounding::lemma_times_signs(d1y, d2x);
    lemma_difference_swapped(d1x.times(d2y), d1y.times(d2x));
    assert(crate::float64::units(0) == 0);
    crate::float64::lemma_units_ordered(0, PARALLEL as nat);
}

/// How far along one segment two lines meet does not depend on which of them is named first.
proof fn lemma_places_alike(a1: Position, a2: Position, b1: Position, b2: Position)
    requires
        !crate::geometry::parallel(a1, a2, b1, b2),
    ensures
        alike(
            crate::geometry::along_first(a1, a2, b1, b2),
            crate::geometry::along_second(b1, b2, a1, a2),
        ),
        alike(
            crate::geometry::along_second(a1, a2, b1, b2),
            crate::geometry::along_first(b1, b2, a1, a2),
        ),
{
    let d1x = a2.x.minus(a1.x);
    let d1y = a2.y.minus(a1.y);
    let d2x = b2.x.minus(b1.x);
    let d2y = b2.y.minus(b1.y);
    let px = b1.x.minus(a1.x);
    let py = b1.y.minus(a1.y);
    let qx = a1.x.minus(b1.x);
    let qy = a1.y.minus(b1.y);
    let d = crate::geometry::cross(a1, a2, b1, b2);
    let e = crate::geometry::cross(b1, b2, a1, a2);
    lemma_parallel_symmetric(a1, a2, b1, b2);
    lemma_difference_swapped(b1.x, a1.x);
    lemma_difference_swapped(b1.y, a1.y);
    lemma_products_opposite(px, qx, d2y);
    lemma_products_opposite(py, qy, d2x);
    lemma_differences_opposite(px.times(d2y), py.times(d2x), qx.times(d2y), qy.times(d2x));
    lemma_quotients_alike(
        px.times(d2y).minus(py.times(d2x)),
        d,
        qx.times(d2y).minus(qy.times(d2x)),
        e,
    );
    lemma_products_opposite(px, qx, d1y);
    lemma_products_opposite(py, qy, d1x);
    lemma_differences_opposite(px.times(d1y), py.times(d1x), qx.times(d1y), qy.times(d1x));
    lemma_quotients_alike(
        px.times(d1y).minus(py.times(d1x)),
        d,
        qx.times(d1y).minus(qy.times(d1x)),
        e,
    );
}

/// One segment crosses another just where the other crosses it.
pub proof fn lemma_crossing_symmetric(a1: Position, a2: Position, b1: Position, b2: Position)
    ensures
        crate::geometry::crossing(a1, a2, b1, b2) == crate::geometry::crossing(b1, b2, a1, a2),
{
    lemma_parallel_symmetric(a1, a2, b1, b2);
    if !crate::geometry::parallel(a1, a2, b1, b2) {
        lemma_places_alike(a1, a2, b1, b2);
        lemma_alike_places(
            crate::geometry::along_first(a1, a2, b1, b2),
            crate::geometry::along_second(b1, b2, a1, a2),
        );
        lemma_alike_places(
            crate::geometry::along_second(a1, a2, b1, b2),
            crate::geometry::along_first(b1, b2, a1, a2),
        );
    }
}

proof fn lemma_inside_is_on(t: Float64)
    requires
        crate::geometry::inside_segment(t),
    ensures
        crate::geometry::on_segment(t),
{
    let one = Float64 { bits: ONE };
    let margin = Float64 { bits: MARGIN };
    crate::rounding::lemma_minus_positive(one, margin);
    assert(crate::float64::units(0) == 0);
    crate::float64::lemma_units_ordered(0, MARGIN as nat);
}

/// Two segments cross just where each meets the other strictly inside itself.
pub proof fn lemma_crossing_is_meeting_inside(
    a1: Position,
    a2: Position,
    b1: Position,
    b2: Position,
)
    ensures
        crate::geometry::crossing(a1, a2, b1, b2) == ((crate::geometry::meeting(
            a1,
            a2,
            b1,
            b2,
        ) matches Some((_, t)) && crate::geometry::inside_segment(t)) && (
        crate::geometry::meeting(b1, b2, a1, a2) matches Some((_, u))
            && crate::geometry::inside_segment(u))),
{
    let t = crate::geometry::along_first(a1, a2, b1, b2);
    let u = crate::geometry::along_second(a1, a2, b1, b2);
    lemma_parallel_symmetric(a1, a2, b1, b2);
    if !crate::geometry::parallel(a1, a2, b1, b2) {
        lemma_places_alike(a1, a2, b1, b2);
        lemma_alike_places(t, crate::geometry::along_second(b1, b2, a1, a2));
        lemma_alike_places(u, crate::geometry::along_first(b1, b2, a1, a2));
        if crate::geometry::inside_segment(t) {
            lemma_inside_is_on(t);
        }
        if crate::geometry::inside_segment(u) {
            lemma_inside_is_on(u);
        }
    }
}

proof fn lemma_no_difference(a: Float64, b: Float64)
    requires
        a.equals(b),
    ensures
        b.minus(a).nought(),
{
    reveal(crate::float64::sum);
    crate::rounding::lemma_negated_parts(a);
    if a.magnitude() < b.magnitude() {
        crate::float64::lemma_units_ordered(a.magnitude(), b.magnitude());
    }
    if b.magnitude() < a.magnitude() {
        crate::float64::lemma_units_ordered(b.magnitude(), a.magnitude());
    }
    assert(crate::float64::units(0) == 0);
    if a.magnitude() > 0 {
        crate::float64::lemma_units_ordered(0, a.magnitude());
    }
}

/// A segment without length crosses nothing, and nothing crosses it: who does not move cuts no
/// trail.
pub proof fn lemma_no_length_no_crossing(a1: Position, a2: Position, b1: Position, b2: Position)
    requires
        crate::geometry::same_point(a1, a2) || crate::geometry::same_point(b1, b2),
    ensures
        !crate::geometry::crossing(a1, a2, b1, b2),
{
    if crate::geometry::same_point(a1, a2) {
        lemma_point_crosses_nothing(a1, a2, b1, b2);
    } else {
        lemma_point_crosses_nothing(b1, b2, a1, a2);
        lemma_crossing_symmetric(a1, a2, b1, b2);
    }
}

proof fn lemma_point_crosses_nothing(a1: Position, a2: Position, b1: Position, b2: Position)
    requires
        crate::geometry::same_point(a1, a2),
    ensures
        !crate::geometry::crossing(a1, a2, b1, b2),
{
    let d1x = a2.x.minus(a1.x);
    let d1y = a2.y.minus(a1.y);
    let d2x = b2.x.minus(b1.x);
    let d2y = b2.y.minus(b1.y);
    let d = crate::geometry::cross(a1, a2, b1, b2);
    lemma_no_difference(a1.x, a2.x);
    lemma_no_difference(a1.y, a2.y);
    crate::rounding::lemma_times_nought(d1x, d2y);
    crate::rounding::lemma_times_nought(d1y, d2x);
    crate::rounding::lemma_plus_nought(d1x.times(d2y), d1y.times(d2x));
    assert(crate::float64::units(0) == 0);
    crate::float64::lemma_units_ordered(0, PARALLEL as nat);
    if d.nan() {
        reveal(crate::float64::quotient);
        assert(crate::geometry::along_first(a1, a2, b1, b2).nan());
    }
}

}
