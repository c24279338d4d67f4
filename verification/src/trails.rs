//! Who dies for a crossed trail: told from the ways that cross, for every side of every trail.
use crate::float64::{Float64, INFINITY_BITS};
use crate::geometry::{LARGEST, SMALLEST};
use crate::player::PlayerView;
use crate::protocol::Position;
use crate::tick::Kill;
use vstd::prelude::*;

verus! {

/// Whether the coordinates of a point are numbers.
pub open spec fn is_place(p: Position) -> bool {
    !p.x.nan() && !p.y.nan()
}

/// Whether neither of two ways lies wholly to one side of the other, along either axis.
pub open spec fn spans_meet(a1: Position, a2: Position, b1: Position, b2: Position) -> bool {
    &&& a1.x.value() >= b1.x.value() || a1.x.value() >= b2.x.value() || a2.x.value()
        >= b1.x.value() || a2.x.value() >= b2.x.value()
    &&& a1.x.value() <= b1.x.value() || a1.x.value() <= b2.x.value() || a2.x.value()
        <= b1.x.value() || a2.x.value() <= b2.x.value()
    &&& a1.y.value() >= b1.y.value() || a1.y.value() >= b2.y.value() || a2.y.value()
        >= b1.y.value() || a2.y.value() >= b2.y.value()
    &&& a1.y.value() <= b1.y.value() || a1.y.value() <= b2.y.value() || a2.y.value()
        <= b1.y.value() || a2.y.value() <= b2.y.value()
}

/// Where a side of a trail ends; the last side ends where the player is.
pub open spec fn side_end(p: PlayerView, k: int) -> Position {
    if k + 1 < p.trail.len() {
        p.trail[k + 1]
    } else {
        p.position
    }
}

/// Whether a player's way from a point crosses its own trail, other than next to itself.
pub open spec fn crosses_own(p: PlayerView, from: Position) -> bool {
    !p.in_territory && exists|i: int|
        0 <= i < p.trail.len() - 3 && #[trigger] crate::geometry::crossing(
            from,
            p.position,
            p.trail[i],
            p.trail[i + 1],
        )
}

proof fn lemma_crosses_own(p: PlayerView, from: Position)
    ensures
        p.cuts_itself(from) == crosses_own(p, from),
{
    if p.cuts_itself(from) {
        let i = choose|i: int|
            0 <= i < p.trail.len() - 3 && #[trigger] crate::tick::cuts(
                from,
                p.position,
                p.trail,
                i,
            );
        assert(crate::geometry::crossing(from, p.position, p.trail[i], p.trail[i + 1]));
    }
    if crosses_own(p, from) {
        let i = choose|i: int|
            0 <= i < p.trail.len() - 3 && #[trigger] crate::geometry::crossing(
                from,
                p.position,
                p.trail[i],
                p.trail[i + 1],
            );
        assert(crate::tick::cuts(from, p.position, p.trail, i));
    }
}

proof fn lemma_side_in_box(p: PlayerView, k: int)
    requires
        0 <= k < p.trail.len(),
        is_place(p.position),
        forall|i: int| 0 <= i < p.trail.len() ==> is_place(#[trigger] p.trail[i]),
    ensures
        ({
            let b = p.trail_box();
            &&& b.min_x.le(p.trail[k].x) && p.trail[k].x.le(b.max_x)
            &&& b.min_y.le(p.trail[k].y) && p.trail[k].y.le(b.max_y)
            &&& b.min_x.le(side_end(p, k).x) && side_end(p, k).x.le(b.max_x)
            &&& b.min_y.le(side_end(p, k).y) && side_end(p, k).y.le(b.max_y)
        }),
{
    assert forall|i: int| #![trigger p.trail[i]] 0 <= i < p.trail.len() implies !p.trail[
        i
    ].x.is_nan() && !p.trail[i].y.is_nan() by {
        assert(is_place(p.trail[i]));
    }
    crate::geometry::lemma_enclosing_holds_each(p.trail, k);
    if k + 1 < p.trail.len() {
        crate::geometry::lemma_enclosing_holds_each(p.trail, k + 1);
    }
}

proof fn lemma_crossed_is_cut(p: PlayerView, from: Position, to: Position, k: int)
    requires
        p.alive,
        p.trail.len() >= 2,
        0 <= k < p.trail.len(),
        is_place(from),
        is_place(to),
        is_place(p.position),
        forall|i: int| 0 <= i < p.trail.len() ==> is_place(#[trigger] p.trail[i]),
        crate::geometry::crossing(from, to, p.trail[k], side_end(p, k)),
        spans_meet(from, to, p.trail[k], side_end(p, k)),
    ensures
        p.is_cut(from, to),
{
    lemma_side_in_box(p, k);
    if k + 1 < p.trail.len() {
        assert(crate::tick::cuts(from, to, p.trail, k));
    }
}

proof fn lemma_among_kills(
    players: Seq<crate::player::PlayerView>,
    m: int,
    from: Position,
    n: int,
    v: int,
)
    requires
        0 <= v < n,
        players[v].id != players[m].id,
        players[v].is_cut(from, players[m].position),
    ensures
        crate::tick::kills_among(players, m, from, n).contains(
            Kill { victim: players[v].id, killer: Some(players[m].id) },
        ),
    decreases n,
{
    let kill = Kill { victim: players[v].id, killer: Some(players[m].id) };
    let earlier = crate::tick::kills_among(players, m, from, n - 1);
    let all = crate::tick::kills_among(players, m, from, n);
    if v == n - 1 {
        assert(all[all.len() - 1] == kill);
    } else {
        lemma_among_kills(players, m, from, n - 1, v);
        let i = choose|i: int| 0 <= i < earlier.len() && earlier[i] == kill;
        assert(all[i] == kill);
    }
}

proof fn lemma_of_one_is_made(
    players: Seq<PlayerView>,
    olds: Seq<Option<Position>>,
    n: int,
    m: int,
    kill: Kill,
)
    requires
        0 <= m < n,
        crate::tick::kills_of(players, m, olds[m]).contains(kill),
    ensures
        crate::tick::kills_made(players, olds, n).contains(kill),
    decreases n,
{
    let earlier = crate::tick::kills_made(players, olds, n - 1);
    let last = crate::tick::kills_of(players, n - 1, olds[n - 1]);
    if m == n - 1 {
        let i = choose|i: int| 0 <= i < last.len() && last[i] == kill;
        assert((earlier + last)[earlier.len() + i] == kill);
    } else {
        lemma_of_one_is_made(players, olds, n - 1, m, kill);
        let i = choose|i: int| 0 <= i < earlier.len() && earlier[i] == kill;
        assert((earlier + last)[i] == kill);
    }
}

/// Whoever crosses any side of another's trail, or the way on from it to the other, kills the
/// other, unless it died for its own trail. The two ways are not wholly to one side of each other:
/// true of all that cross, but not seen from rounded cross products where they are nearly parallel.
pub proof fn lemma_crossing_any_side_kills(
    players: Seq<PlayerView>,
    olds: Seq<Option<Position>>,
    m: int,
    from: Position,
    v: int,
    k: int,
)
    requires
        0 <= m < players.len(),
        0 <= v < players.len(),
        olds.len() == players.len(),
        olds[m] == Some(from),
        players[m].alive,
        !crosses_own(players[m], from),
        players[v].alive,
        players[v].id != players[m].id,
        players[v].trail.len() >= 2,
        0 <= k < players[v].trail.len(),
        is_place(from),
        is_place(players[m].position),
        is_place(players[v].position),
        forall|i: int|
            0 <= i < players[v].trail.len() ==> is_place(#[trigger] players[v].trail[i]),
        crate::geometry::crossing(
            from,
            players[m].position,
            players[v].trail[k],
            side_end(players[v], k),
        ),
        spans_meet(from, players[m].position, players[v].trail[k], side_end(players[v], k)),
    ensures
        crate::tick::kills_made(players, olds, players.len() as int).contains(
            Kill { victim: players[v].id, killer: Some(players[m].id) },
        ),
{
    lemma_crosses_own(players[m], from);
    lemma_crossed_is_cut(players[v], from, players[m].position, k);
    lemma_among_kills(players, m, from, players.len() as int, v);
    lemma_of_one_is_made(
        players,
        olds,
        players.len() as int,
        m,
        Kill { victim: players[v].id, killer: Some(players[m].id) },
    );
}

/// Whoever crosses its own trail, other than next to itself, kills itself, to nobody's credit.
pub proof fn lemma_crossing_oneself_kills(
    players: Seq<PlayerView>,
    olds: Seq<Option<Position>>,
    m: int,
    from: Position,
    k: int,
)
    requires
        0 <= m < players.len(),
        olds.len() == players.len(),
        olds[m] == Some(from),
        players[m].alive,
        !players[m].in_territory,
        0 <= k < players[m].trail.len() - 3,
        crate::geometry::crossing(
            from,
            players[m].position,
            players[m].trail[k],
            players[m].trail[k + 1],
        ),
    ensures
        crate::tick::kills_made(players, olds, players.len() as int).contains(
            Kill { victim: players[m].id, killer: None },
        ),
{
    lemma_crosses_own(players[m], from);
    let kill = Kill { victim: players[m].id, killer: None };
    assert(crate::tick::kills_of(players, m, olds[m])[0] == kill);
    lemma_of_one_is_made(players, olds, players.len() as int, m, kill);
}

/// The corners of a player's trail and, after them, the player.
pub open spec fn along_trail(p: PlayerView, j: int) -> Position {
    if j < p.trail.len() {
        p.trail[j]
    } else {
        p.position
    }
}

/// Whether a player and all corners of its trail are at finite places.
pub open spec fn is_somewhere(p: PlayerView) -> bool {
    forall|j: int|
        0 <= j <= p.trail.len() ==> (#[trigger] along_trail(p, j)).x.magnitude() < INFINITY_BITS
            && along_trail(p, j).y.magnitude() < INFINITY_BITS
}

/// Whether a player and its whole trail lie beyond a way, on one side of both its ends.
pub open spec fn lies_beyond(p: PlayerView, from: Position, to: Position) -> bool {
    let n = p.trail.len();
    ||| forall|j: int|
        0 <= j <= n ==> from.x.value() < (#[trigger] along_trail(p, j)).x.value() && to.x.value()
            < along_trail(p, j).x.value()
    ||| forall|j: int|
        0 <= j <= n ==> from.x.value() > (#[trigger] along_trail(p, j)).x.value() && to.x.value()
            > along_trail(p, j).x.value()
    ||| forall|j: int|
        0 <= j <= n ==> from.y.value() < (#[trigger] along_trail(p, j)).y.value() && to.y.value()
            < along_trail(p, j).y.value()
    ||| forall|j: int|
        0 <= j <= n ==> from.y.value() > (#[trigger] along_trail(p, j)).y.value() && to.y.value()
            > along_trail(p, j).y.value()
}

proof fn lemma_largest(a: Float64)
    requires
        a.magnitude() < INFINITY_BITS,
    ensures
        (Float64 { bits: SMALLEST }).value() <= a.value() <= (Float64 { bits: LARGEST }).value(),
        !(Float64 { bits: SMALLEST }).nan() && !(Float64 { bits: LARGEST }).nan(),
{
    let most = (Float64 { bits: LARGEST }).magnitude();
    if a.magnitude() < most {
        crate::float64::lemma_units_ordered(a.magnitude(), most);
    }
}

/// A box around points beyond a line is beyond it.
proof fn lemma_box_beyond(p: PlayerView, n: int, c: int)
    requires
        is_somewhere(p),
        0 < n <= p.trail.len(),
    ensures
        ({
            let b = crate::geometry::enclosing(p.trail.take(n));
            &&& !b.min_x.nan() && !b.max_x.nan() && !b.min_y.nan() && !b.max_y.nan()
            &&& (forall|j: int| 0 <= j < n ==> c < (#[trigger] along_trail(p, j)).x.value()) ==> c
                < b.min_x.value()
            &&& (forall|j: int| 0 <= j < n ==> c > (#[trigger] along_trail(p, j)).x.value()) ==> c
                > b.max_x.value()
            &&& (forall|j: int| 0 <= j < n ==> c < (#[trigger] along_trail(p, j)).y.value()) ==> c
                < b.min_y.value()
            &&& (forall|j: int| 0 <= j < n ==> c > (#[trigger] along_trail(p, j)).y.value()) ==> c
                > b.max_y.value()
        }),
    decreases n,
{
    let last = along_trail(p, n - 1);
    lemma_largest(last.x);
    lemma_largest(last.y);
    assert(p.trail.take(n).drop_last() =~= p.trail.take(n - 1));
    assert(p.trail.take(n).last() == last);
    if n > 1 {
        lemma_box_beyond(p, n - 1, c);
    } else {
        assert(p.trail.take(0).len() == 0);
    }
}

proof fn lemma_beyond_is_apart(p: PlayerView, from: Position, to: Position)
    requires
        is_place(from),
        is_place(to),
        is_somewhere(p),
        lies_beyond(p, from, to),
        p.trail.len() > 0,
    ensures
        !p.is_cut(from, to),
{
    let n = p.trail.len() as int;
    assert(p.trail.take(n) =~= p.trail);
    assert(along_trail(p, n) == p.position);
    lemma_box_beyond(p, n, from.x.value());
    lemma_box_beyond(p, n, to.x.value());
    lemma_box_beyond(p, n, from.y.value());
    lemma_box_beyond(p, n, to.y.value());
    assert(crate::tick::way_box(from, to).apart(p.trail_box()));
}

/// Whether a kill is one player's crossing of another's trail.
pub open spec fn is_crossing_of_another(
    players: Seq<PlayerView>,
    olds: Seq<Option<Position>>,
    kill: Kill,
    m: int,
    v: int,
) -> bool {
    &&& 0 <= m < players.len()
    &&& 0 <= v < players.len()
    &&& players[m].alive
    &&& players[v].alive
    &&& kill.killer == Some(players[m].id)
    &&& kill.victim == players[v].id
    &&& players[m].id != players[v].id
    &&& players[v].trail.len() >= 2
    &&& olds[m] matches Some(from) ==> !(is_place(from) && is_place(players[m].position)
        && is_somewhere(players[v]) && lies_beyond(players[v], from, players[m].position))
    &&& olds[m] matches Some(from) && !crosses_own(players[m], from) && exists|k: int|
        0 <= k < players[v].trail.len() && #[trigger] crate::geometry::crossing(
            from,
            players[m].position,
            players[v].trail[k],
            side_end(players[v], k),
        )
}

/// Whether a kill is one player's crossing of its own trail.
pub open spec fn is_crossing_of_oneself(
    players: Seq<PlayerView>,
    olds: Seq<Option<Position>>,
    kill: Kill,
    m: int,
) -> bool {
    &&& 0 <= m < players.len()
    &&& players[m].alive
    &&& kill == (Kill { victim: players[m].id, killer: None })
    &&& olds[m] matches Some(from) && crosses_own(players[m], from)
}

proof fn lemma_cut_is_crossed(p: PlayerView, from: Position, to: Position)
    requires
        p.is_cut(from, to),
    ensures
        exists|k: int|
            0 <= k < p.trail.len() && #[trigger] crate::geometry::crossing(
                from,
                to,
                p.trail[k],
                side_end(p, k),
            ),
{
    let n = p.trail.len() - 1;
    if crate::geometry::crossing(from, to, p.trail.last(), p.position) {
        assert(crate::geometry::crossing(from, to, p.trail[n], side_end(p, n)));
    } else {
        let i = choose|i: int| 0 <= i < n && #[trigger] crate::tick::cuts(from, to, p.trail, i);
        assert(crate::geometry::crossing(from, to, p.trail[i], side_end(p, i)));
    }
}

proof fn lemma_kill_among(
    players: Seq<PlayerView>,
    olds: Seq<Option<Position>>,
    m: int,
    from: Position,
    n: int,
    j: int,
) -> (v: int)
    requires
        0 <= m < players.len(),
        n <= players.len(),
        players[m].alive,
        olds[m] == Some(from),
        !crosses_own(players[m], from),
        0 <= j < crate::tick::kills_among(players, m, from, n).len(),
    ensures
        is_crossing_of_another(
            players,
            olds,
            crate::tick::kills_among(players, m, from, n)[j],
            m,
            v,
        ),
    decreases n,
{
    if n <= 0 {
        0
    } else {
        let earlier = crate::tick::kills_among(players, m, from, n - 1);
        if j < earlier.len() {
            lemma_kill_among(players, olds, m, from, n - 1, j)
        } else {
            let to = players[m].position;
            lemma_cut_is_crossed(players[n - 1], from, to);
            if is_place(from) && is_place(to) && is_somewhere(players[n - 1]) && lies_beyond(
                players[n - 1],
                from,
                to,
            ) {
                lemma_beyond_is_apart(players[n - 1], from, to);
            }
            n - 1
        }
    }
}

proof fn lemma_kill_made(
    players: Seq<PlayerView>,
    olds: Seq<Option<Position>>,
    n: int,
    j: int,
) -> (found: (int, int))
    requires
        n <= players.len(),
        0 <= j < crate::tick::kills_made(players, olds, n).len(),
    ensures
        ({
            let kill = crate::tick::kills_made(players, olds, n)[j];
            ||| is_crossing_of_another(players, olds, kill, found.0, found.1)
            ||| is_crossing_of_oneself(players, olds, kill, found.0)
        }),
    decreases n,
{
    if n <= 0 {
        (0, 0)
    } else {
        let earlier = crate::tick::kills_made(players, olds, n - 1);
        let last = crate::tick::kills_of(players, n - 1, olds[n - 1]);
        if j < earlier.len() {
            assert((earlier + last)[j] == earlier[j]);
            lemma_kill_made(players, olds, n - 1, j)
        } else {
            let i = j - earlier.len();
            assert((earlier + last)[j] == last[i]);
            let from = olds[n - 1].unwrap();
            lemma_crosses_own(players[n - 1], from);
            if players[n - 1].cuts_itself(from) {
                (n - 1, 0)
            } else {
                let v = lemma_kill_among(
                    players,
                    olds,
                    n - 1,
                    from,
                    players.len() as int,
                    i,
                );
                (n - 1, v)
            }
        }
    }
}

/// Nobody dies but for a trail that was crossed: each kill is a living player's crossing of a side
/// of another's trail, to its credit, or of its own, to nobody's. A player that lies with its whole
/// trail beyond a way is not killed on it.
pub proof fn lemma_kills_are_crossings(
    players: Seq<PlayerView>,
    olds: Seq<Option<Position>>,
    kill: Kill,
)
    requires
        olds.len() == players.len(),
        crate::tick::kills_made(players, olds, players.len() as int).contains(kill),
    ensures
        match kill.killer {
            Some(_) => exists|m: int, v: int|
                #[trigger] is_crossing_of_another(players, olds, kill, m, v),
            None => exists|m: int| #[trigger] is_crossing_of_oneself(players, olds, kill, m),
        },
{
    let all = crate::tick::kills_made(players, olds, players.len() as int);
    let j = choose|j: int| 0 <= j < all.len() && all[j] == kill;
    let found = lemma_kill_made(players, olds, players.len() as int, j);
    assert(is_crossing_of_another(players, olds, kill, found.0, found.1)
        || is_crossing_of_oneself(players, olds, kill, found.0));
}

}
