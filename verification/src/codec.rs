//! Messages as words and texts.
use crate::float64::Float64;
use crate::protocol::{
    ClientMsg, ClientMsgView, EntryView, LeaderboardData, LeaderboardEntryData, LeaderboardView,
    PlayerStateData, PlayerStateView, Position, RingView, ServerMsg, ServerMsgView,
    TerritoryRingData,
};
use crate::wire::{DecodeError, Flat, FlatView, BYTES_LIMIT};
use vstd::prelude::*;

verus! {

// ---------------------------------------------------------------------------------------------
// Points
// ---------------------------------------------------------------------------------------------

/// The words of some points.
pub open spec fn flat_points(points: Seq<Position>) -> Seq<u64> {
    Seq::new(
        2 * points.len(),
        |i: int|
            if i % 2 == 0 {
                points[i / 2].x.bits
            } else {
                points[i / 2].y.bits
            },
    )
}

/// The first `n` points that some words hold.
pub open spec fn points_in(s: Seq<u64>, n: int) -> Seq<Position> {
    Seq::new(
        n as nat,
        |i: int|
            Position { x: Float64 { bits: s[2 * i] }, y: Float64 { bits: s[2 * i + 1] } },
    )
}

proof fn lemma_points(points: Seq<Position>, rest: Seq<u64>)
    ensures
        points_in(flat_points(points) + rest, points.len() as int) == points,
{
    let s = flat_points(points) + rest;
    let back = points_in(s, points.len() as int);
    assert forall|i: int| 0 <= i < points.len() implies back[i] == points[i] by {
        assert(s[2 * i] == points[i].x.bits) by {
            assert((2 * i) % 2 == 0 && (2 * i) / 2 == i);
        }
        assert(s[2 * i + 1] == points[i].y.bits) by {
            assert((2 * i + 1) % 2 == 1 && (2 * i + 1) / 2 == i);
        }
    }
    assert(back =~= points);
}

proof fn lemma_points_back(s: Seq<u64>, n: int)
    requires
        0 <= n,
        2 * n <= s.len(),
    ensures
        flat_points(points_in(s, n)) == s.take(2 * n),
{
    let points = points_in(s, n);
    let flat = flat_points(points);
    assert forall|i: int| 0 <= i < 2 * n implies flat[i] == s[i] by {
        if i % 2 == 0 {
            assert(2 * (i / 2) == i);
        } else {
            assert(2 * (i / 2) + 1 == i);
        }
    }
    assert(flat =~= s.take(2 * n));
}

fn push_points(out: &mut Vec<u64>, points: &Vec<Position>)
    ensures
        final(out)@ == old(out)@ + flat_points(points@),
{
    let mut i: usize = 0;
    proof {
        assert(out@ =~= old(out)@ + flat_points(points@).take(0));
    }
    while i < points.len()
        invariant
            i <= points@.len(),
            out@ == old(out)@ + flat_points(points@).take(2 * i),
        decreases points@.len() - i,
    {
        let ghost flat = flat_points(points@);
        out.push(points[i].x.bits);
        out.push(points[i].y.bits);
        proof {
            assert((2 * i) % 2 == 0 && (2 * i) / 2 == i as int);
            assert((2 * i + 1) % 2 == 1 && (2 * i + 1) / 2 == i as int);
            assert(out@ =~= old(out)@ + flat.take(2 * (i + 1)));
        }
        i += 1;
    }
    proof {
        assert(flat_points(points@).take(2 * i) =~= flat_points(points@));
    }
}

/// Read `n` points from some words.
fn read_points(words: &Vec<u64>, from: usize, n: usize) -> (r: Vec<Position>)
    requires
        from + 2 * n <= words@.len(),
    ensures
        r@ == points_in(words@.skip(from as int), n as int),
{
    let mut r: Vec<Position> = Vec::new();
    let mut i: usize = 0;
    let len = words.len();
    while i < n
        invariant
            i <= n,
            from + 2 * n <= len == words@.len(),
            r@ =~= points_in(words@.skip(from as int), n as int).take(i as int),
        decreases n - i,
    {
        r.push(
            Position {
                x: Float64 { bits: words[from + 2 * i] },
                y: Float64 { bits: words[from + 2 * i + 1] },
            },
        );
        i += 1;
    }
    r
}

// ---------------------------------------------------------------------------------------------
// Players
// ---------------------------------------------------------------------------------------------

/// A truth value as a word.
pub open spec fn flag(b: bool) -> u64 {
    if b {
        1
    } else {
        0
    }
}

/// The words of a player state.
pub open spec fn flat_player(p: PlayerStateView) -> Seq<u64> {
    seq![
        p.id,
        p.position.x.bits,
        p.position.y.bits,
        p.angle.bits,
        p.color[0] as u64,
        p.color[1] as u64,
        p.color[2] as u64,
        p.sprite_id as u64,
        flag(p.has_crown),
        p.boost_points as u64,
        flag(p.boost_active),
        p.trail.len() as u64,
    ] + flat_points(p.trail)
}

/// Whether some words start with a player state.
pub open spec fn starts_with_player(s: Seq<u64>) -> bool {
    &&& s.len() >= 12
    &&& s[4] <= u8::MAX
    &&& s[5] <= u8::MAX
    &&& s[6] <= u8::MAX
    &&& s[7] <= u32::MAX
    &&& s[8] <= 1
    &&& s[9] <= u8::MAX
    &&& s[10] <= 1
    &&& s.len() >= 12 + 2 * s[11]
}

/// The player state that some words start with.
pub open spec fn first_player(s: Seq<u64>) -> PlayerStateView {
    PlayerStateView {
        id: s[0],
        position: Position { x: Float64 { bits: s[1] }, y: Float64 { bits: s[2] } },
        angle: Float64 { bits: s[3] },
        color: [s[4] as u8, s[5] as u8, s[6] as u8],
        trail: points_in(s.skip(12), s[11] as int),
        sprite_id: s[7] as u32,
        has_crown: s[8] == 1,
        boost_points: s[9] as u8,
        boost_active: s[10] == 1,
    }
}

/// The words after the player state that some words start with.
pub open spec fn after_player(s: Seq<u64>) -> Seq<u64> {
    s.skip(12 + 2 * s[11])
}

proof fn lemma_player(p: PlayerStateView, rest: Seq<u64>)
    requires
        p.trail.len() <= u64::MAX,
    ensures
        starts_with_player(flat_player(p) + rest),
        first_player(flat_player(p) + rest) == p,
        after_player(flat_player(p) + rest) == rest,
{
    let s = flat_player(p) + rest;
    assert(s[11] == p.trail.len());
    assert(s.skip(12) =~= flat_points(p.trail) + rest);
    lemma_points(p.trail, rest);
    let q = first_player(s);
    assert(q.color@ =~= p.color@);
    assert(q.color =~= p.color);
    assert(after_player(s) =~= rest);
}

proof fn lemma_player_back(s: Seq<u64>)
    requires
        starts_with_player(s),
    ensures
        s == flat_player(first_player(s)) + after_player(s),
        first_player(s).trail.len() <= u64::MAX,
{
    let n = s[11] as int;
    let p = first_player(s);
    lemma_points_back(s.skip(12), n);
    assert(flat_points(p.trail) =~= s.subrange(12, 12 + 2 * n));
    assert(s =~= flat_player(p) + after_player(s));
}

/// The words of some player states.
pub open spec fn flat_players(ps: Seq<PlayerStateView>) -> Seq<u64>
    decreases ps.len(),
{
    if ps.len() == 0 {
        Seq::empty()
    } else {
        flat_player(ps[0]) + flat_players(ps.skip(1))
    }
}

/// The first `n` player states that some words hold, and the words after them.
pub open spec fn players_in(s: Seq<u64>, n: nat) -> Option<(Seq<PlayerStateView>, Seq<u64>)>
    decreases n,
{
    if n == 0 {
        Some((Seq::empty(), s))
    } else if !starts_with_player(s) {
        None
    } else {
        match players_in(after_player(s), (n - 1) as nat) {
            None => None,
            Some((ps, rest)) => Some((seq![first_player(s)] + ps, rest)),
        }
    }
}

/// Whether the trails are as short as trails in memory are.
pub open spec fn trails_countable(ps: Seq<PlayerStateView>) -> bool {
    forall|i: int| 0 <= i < ps.len() ==> (#[trigger] ps[i]).trail.len() <= u64::MAX
}

proof fn lemma_players(ps: Seq<PlayerStateView>, rest: Seq<u64>)
    requires
        trails_countable(ps),
    ensures
        players_in(flat_players(ps) + rest, ps.len()) == Some((ps, rest)),
    decreases ps.len(),
{
    let s = flat_players(ps) + rest;
    if ps.len() == 0 {
        assert(s =~= rest);
        assert(ps =~= Seq::empty());
    } else {
        let tail = ps.skip(1);
        assert forall|i: int| 0 <= i < tail.len() implies (#[trigger] tail[i]).trail.len()
            <= u64::MAX by {
            assert(ps[i + 1].trail.len() <= u64::MAX);
        }
        lemma_players(tail, rest);
        let behind = flat_players(tail) + rest;
        assert(s =~= flat_player(ps[0]) + behind);
        assert(ps[0].trail.len() <= u64::MAX);
        lemma_player(ps[0], behind);
        assert(seq![ps[0]] + tail =~= ps);
    }
}

proof fn lemma_players_back(s: Seq<u64>, n: nat)
    ensures
        players_in(s, n) matches Some((ps, rest)) ==> ps.len() == n && s == flat_players(ps) + rest
            && trails_countable(ps),
    decreases n,
{
    if n == 0 {
        assert(s =~= flat_players(Seq::empty()) + s);
    } else if starts_with_player(s) {
        lemma_player_back(s);
        lemma_players_back(after_player(s), (n - 1) as nat);
        if let Some((tail, rest)) = players_in(after_player(s), (n - 1) as nat) {
            let ps = seq![first_player(s)] + tail;
            assert(ps.skip(1) =~= tail);
            assert(flat_players(ps) + rest =~= flat_player(first_player(s)) + (flat_players(tail)
                + rest));
            assert forall|i: int| 0 <= i < ps.len() implies (#[trigger] ps[i]).trail.len()
                <= u64::MAX by {
                if i > 0 {
                    assert(tail[i - 1].trail.len() <= u64::MAX);
                }
            }
        }
    }
}

fn flag_word(b: bool) -> (r: u64)
    ensures
        r == flag(b),
{
    if b {
        1
    } else {
        0
    }
}

fn push_player(out: &mut Vec<u64>, p: &PlayerStateData)
    ensures
        final(out)@ == old(out)@ + flat_player(p@),
{
    out.push(p.id);
    out.push(p.position.x.bits);
    out.push(p.position.y.bits);
    out.push(p.angle.bits);
    out.push(p.color[0] as u64);
    out.push(p.color[1] as u64);
    out.push(p.color[2] as u64);
    out.push(p.sprite_id as u64);
    out.push(flag_word(p.has_crown));
    out.push(p.boost_points as u64);
    out.push(flag_word(p.boost_active));
    out.push(p.trail.len() as u64);
    push_points(out, &p.trail);
    proof {
        assert(out@ =~= old(out)@ + flat_player(p@));
    }
}

fn push_players(out: &mut Vec<u64>, ps: &Vec<PlayerStateData>)
    ensures
        final(out)@ == old(out)@ + flat_players(crate::protocol::player_views(ps@)),
{
    let ghost all = crate::protocol::player_views(ps@);
    let mut i: usize = 0;
    proof {
        assert(all.skip(0) =~= all);
    }
    while i < ps.len()
        invariant
            i <= ps@.len(),
            all == crate::protocol::player_views(ps@),
            out@ + flat_players(all.skip(i as int)) == old(out)@ + flat_players(all),
        decreases ps@.len() - i,
    {
        let ghost before = out@;
        push_player(out, &ps[i]);
        proof {
            let rest = all.skip(i as int);
            assert(rest[0] == ps@[i as int]@);
            assert(rest.skip(1) =~= all.skip(i + 1));
            assert(out@ + flat_players(all.skip(i + 1)) =~= before + flat_players(rest));
        }
        i += 1;
    }
    proof {
        assert(out@ + flat_players(all.skip(i as int)) =~= out@);
    }
}

fn read_player(words: &Vec<u64>, from: usize) -> (r: Option<(PlayerStateData, usize)>)
    requires
        from <= words@.len(),
    ensures
        ({
            let s = words@.skip(from as int);
            match r {
                Some((p, next)) => {
                    &&& starts_with_player(s)
                    &&& p@ == first_player(s)
                    &&& next <= words@.len()
                    &&& words@.skip(next as int) == after_player(s)
                },
                None => !starts_with_player(s),
            }
        }),
{
    let ghost s = words@.skip(from as int);
    let left = words.len() - from;
    if left < 12 {
        return None;
    }
    let count = words[from + 11];
    if words[from + 4] > u8::MAX as u64 || words[from + 5] > u8::MAX as u64 || words[from + 6]
        > u8::MAX as u64 || words[from + 7] > u32::MAX as u64 || words[from + 8] > 1 || words[from
        + 9] > u8::MAX as u64 || words[from + 10] > 1 || count > ((left - 12) / 2) as u64 {
        return None;
    }
    let n = count as usize;
    let p = PlayerStateData {
        id: words[from],
        position: Position {
            x: Float64 { bits: words[from + 1] },
            y: Float64 { bits: words[from + 2] },
        },
        angle: Float64 { bits: words[from + 3] },
        color: [words[from + 4] as u8, words[from + 5] as u8, words[from + 6] as u8],
        trail: read_points(words, from + 12, n),
        sprite_id: words[from + 7] as u32,
        has_crown: words[from + 8] == 1,
        boost_points: words[from + 9] as u8,
        boost_active: words[from + 10] == 1,
    };
    let next = from + 12 + 2 * n;
    proof {
        assert(words@.skip(from + 12) =~= s.skip(12));
        assert(words@.skip(next as int) =~= after_player(s));
        assert(p@.color@ =~= first_player(s).color@);
        assert(p@.color =~= first_player(s).color);
    }
    Some((p, next))
}

fn read_players(words: &Vec<u64>, from: usize, n: u64) -> (r: Option<
    (Vec<PlayerStateData>, usize),
>)
    requires
        from <= words@.len(),
    ensures
        match players_in(words@.skip(from as int), n as nat) {
            Some((ps, rest)) => r matches Some((qs, next)) && crate::protocol::player_views(qs@)
                == ps && next <= words@.len() && words@.skip(next as int) == rest,
            None => r is None,
        },
{
    let ghost goal = players_in(words@.skip(from as int), n as nat);
    let mut qs: Vec<PlayerStateData> = Vec::new();
    let mut at: usize = from;
    let mut i: u64 = 0;
    proof {
        if let Some((ps, rest)) = goal {
            assert(crate::protocol::player_views(qs@) + ps =~= ps);
        }
    }
    while i < n
        invariant
            i <= n,
            at <= words@.len(),
            goal == players_in(words@.skip(from as int), n as nat),
            goal == match players_in(words@.skip(at as int), (n - i) as nat) {
                None => None,
                Some((ps, rest)) => Some((crate::protocol::player_views(qs@) + ps, rest)),
            },
        decreases n - i,
    {
        let ghost s = words@.skip(at as int);
        match read_player(words, at) {
            None => {
                proof {
                    assert(players_in(s, (n - i) as nat) is None);
                }
                return None;
            },
            Some((p, next)) => {
                let ghost before = crate::protocol::player_views(qs@);
                qs.push(p);
                proof {
                    let now = crate::protocol::player_views(qs@);
                    assert(now =~= before.push(p@));
                    if let Some((ps, rest)) = players_in(after_player(s), (n - i - 1) as nat) {
                        assert(before + (seq![p@] + ps) =~= now + ps);
                    }
                }
                at = next;
                i += 1;
            },
        }
    }
    proof {
        assert(crate::protocol::player_views(qs@) + Seq::<PlayerStateView>::empty()
            =~= crate::protocol::player_views(qs@));
    }
    Some((qs, at))
}

// ---------------------------------------------------------------------------------------------
// Outlines
// ---------------------------------------------------------------------------------------------

/// The words of an outline.
pub open spec fn flat_ring(r: RingView) -> Seq<u64> {
    seq![
        r.player_id,
        r.color[0] as u64,
        r.color[1] as u64,
        r.color[2] as u64,
        r.sprite_id as u64,
        r.points.len() as u64,
    ] + flat_points(r.points)
}

/// Whether some words start with an outline.
pub open spec fn starts_with_ring(s: Seq<u64>) -> bool {
    &&& s.len() >= 6
    &&& s[1] <= u8::MAX
    &&& s[2] <= u8::MAX
    &&& s[3] <= u8::MAX
    &&& s[4] <= u32::MAX
    &&& s.len() >= 6 + 2 * s[5]
}

/// The outline that some words start with.
pub open spec fn first_ring(s: Seq<u64>) -> RingView {
    RingView {
        player_id: s[0],
        color: [s[1] as u8, s[2] as u8, s[3] as u8],
        points: points_in(s.skip(6), s[5] as int),
        sprite_id: s[4] as u32,
    }
}

/// The words after the outline that some words start with.
pub open spec fn after_ring(s: Seq<u64>) -> Seq<u64> {
    s.skip(6 + 2 * s[5])
}

proof fn lemma_ring(p: RingView, rest: Seq<u64>)
    requires
        p.points.len() <= u64::MAX,
    ensures
        starts_with_ring(flat_ring(p) + rest),
        first_ring(flat_ring(p) + rest) == p,
        after_ring(flat_ring(p) + rest) == rest,
{
    let s = flat_ring(p) + rest;
    assert(s[5] == p.points.len());
    assert(s.skip(6) =~= flat_points(p.points) + rest);
    lemma_points(p.points, rest);
    let q = first_ring(s);
    assert(q.color@ =~= p.color@);
    assert(q.color =~= p.color);
    assert(after_ring(s) =~= rest);
}

proof fn lemma_ring_back(s: Seq<u64>)
    requires
        starts_with_ring(s),
    ensures
        s == flat_ring(first_ring(s)) + after_ring(s),
        first_ring(s).points.len() <= u64::MAX,
{
    let n = s[5] as int;
    let p = first_ring(s);
    lemma_points_back(s.skip(6), n);
    assert(flat_points(p.points) =~= s.subrange(6, 6 + 2 * n));
    assert(s =~= flat_ring(p) + after_ring(s));
}

/// The words of some outlines.
pub open spec fn flat_rings(ps: Seq<RingView>) -> Seq<u64>
    decreases ps.len(),
{
    if ps.len() == 0 {
        Seq::empty()
    } else {
        flat_ring(ps[0]) + flat_rings(ps.skip(1))
    }
}

/// The first `n` outlines that some words hold, and the words after them.
pub open spec fn rings_in(s: Seq<u64>, n: nat) -> Option<(Seq<RingView>, Seq<u64>)>
    decreases n,
{
    if n == 0 {
        Some((Seq::empty(), s))
    } else if !starts_with_ring(s) {
        None
    } else {
        match rings_in(after_ring(s), (n - 1) as nat) {
            None => None,
            Some((ps, rest)) => Some((seq![first_ring(s)] + ps, rest)),
        }
    }
}

/// Whether the outlines are as short as outlines in memory are.
pub open spec fn outlines_countable(ps: Seq<RingView>) -> bool {
    forall|i: int| 0 <= i < ps.len() ==> (#[trigger] ps[i]).points.len() <= u64::MAX
}

proof fn lemma_rings(ps: Seq<RingView>, rest: Seq<u64>)
    requires
        outlines_countable(ps),
    ensures
        rings_in(flat_rings(ps) + rest, ps.len()) == Some((ps, rest)),
    decreases ps.len(),
{
    let s = flat_rings(ps) + rest;
    if ps.len() == 0 {
        assert(s =~= rest);
        assert(ps =~= Seq::empty());
    } else {
        let tail = ps.skip(1);
        assert forall|i: int| 0 <= i < tail.len() implies (#[trigger] tail[i]).points.len()
            <= u64::MAX by {
            assert(ps[i + 1].points.len() <= u64::MAX);
        }
        lemma_rings(tail, rest);
        let behind = flat_rings(tail) + rest;
        assert(s =~= flat_ring(ps[0]) + behind);
        assert(ps[0].points.len() <= u64::MAX);
        lemma_ring(ps[0], behind);
        assert(seq![ps[0]] + tail =~= ps);
    }
}

proof fn lemma_rings_back(s: Seq<u64>, n: nat)
    ensures
        rings_in(s, n) matches Some((ps, rest)) ==> ps.len() == n && s == flat_rings(ps) + rest
            && outlines_countable(ps),
    decreases n,
{
    if n == 0 {
        assert(s =~= flat_rings(Seq::empty()) + s);
    } else if starts_with_ring(s) {
        lemma_ring_back(s);
        lemma_rings_back(after_ring(s), (n - 1) as nat);
        if let Some((tail, rest)) = rings_in(after_ring(s), (n - 1) as nat) {
            let ps = seq![first_ring(s)] + tail;
            assert(ps.skip(1) =~= tail);
            assert(flat_rings(ps) + rest =~= flat_ring(first_ring(s)) + (flat_rings(tail)
                + rest));
            assert forall|i: int| 0 <= i < ps.len() implies (#[trigger] ps[i]).points.len()
                <= u64::MAX by {
                if i > 0 {
                    assert(tail[i - 1].points.len() <= u64::MAX);
                }
            }
        }
    }
}

fn push_ring(out: &mut Vec<u64>, p: &TerritoryRingData)
    ensures
        final(out)@ == old(out)@ + flat_ring(p@),
{
    out.push(p.player_id);
    out.push(p.color[0] as u64);
    out.push(p.color[1] as u64);
    out.push(p.color[2] as u64);
    out.push(p.sprite_id as u64);
    out.push(p.points.len() as u64);
    push_points(out, &p.points);
    proof {
        assert(out@ =~= old(out)@ + flat_ring(p@));
    }
}

fn push_rings(out: &mut Vec<u64>, ps: &Vec<TerritoryRingData>)
    ensures
        final(out)@ == old(out)@ + flat_rings(crate::protocol::ring_views(ps@)),
{
    let ghost all = crate::protocol::ring_views(ps@);
    let mut i: usize = 0;
    proof {
        assert(all.skip(0) =~= all);
    }
    while i < ps.len()
        invariant
            i <= ps@.len(),
            all == crate::protocol::ring_views(ps@),
            out@ + flat_rings(all.skip(i as int)) == old(out)@ + flat_rings(all),
        decreases ps@.len() - i,
    {
        let ghost before = out@;
        push_ring(out, &ps[i]);
        proof {
            let rest = all.skip(i as int);
            assert(rest[0] == ps@[i as int]@);
            assert(rest.skip(1) =~= all.skip(i + 1));
            assert(out@ + flat_rings(all.skip(i + 1)) =~= before + flat_rings(rest));
        }
        i += 1;
    }
    proof {
        assert(out@ + flat_rings(all.skip(i as int)) =~= out@);
    }
}

fn read_ring(words: &Vec<u64>, from: usize) -> (r: Option<(TerritoryRingData, usize)>)
    requires
        from <= words@.len(),
    ensures
        ({
            let s = words@.skip(from as int);
            match r {
                Some((p, next)) => {
                    &&& starts_with_ring(s)
                    &&& p@ == first_ring(s)
                    &&& next <= words@.len()
                    &&& words@.skip(next as int) == after_ring(s)
                },
                None => !starts_with_ring(s),
            }
        }),
{
    let ghost s = words@.skip(from as int);
    let left = words.len() - from;
    if left < 6 {
        return None;
    }
    let count = words[from + 5];
    if words[from + 1] > u8::MAX as u64 || words[from + 2] > u8::MAX as u64 || words[from + 3]
        > u8::MAX as u64 || words[from + 4] > u32::MAX as u64 || count > ((left - 6) / 2) as u64 {
        return None;
    }
    let n = count as usize;
    let p = TerritoryRingData {
        player_id: words[from],
        color: [words[from + 1] as u8, words[from + 2] as u8, words[from + 3] as u8],
        points: read_points(words, from + 6, n),
        sprite_id: words[from + 4] as u32,
    };
    let next = from + 6 + 2 * n;
    proof {
        assert(words@.skip(from + 6) =~= s.skip(6));
        assert(words@.skip(next as int) =~= after_ring(s));
        assert(p@.color@ =~= first_ring(s).color@);
        assert(p@.color =~= first_ring(s).color);
    }
    Some((p, next))
}

fn read_rings(words: &Vec<u64>, from: usize, n: u64) -> (r: Option<
    (Vec<TerritoryRingData>, usize),
>)
    requires
        from <= words@.len(),
    ensures
        match rings_in(words@.skip(from as int), n as nat) {
            Some((ps, rest)) => r matches Some((qs, next)) && crate::protocol::ring_views(qs@)
                == ps && next <= words@.len() && words@.skip(next as int) == rest,
            None => r is None,
        },
{
    let ghost goal = rings_in(words@.skip(from as int), n as nat);
    let mut qs: Vec<TerritoryRingData> = Vec::new();
    let mut at: usize = from;
    let mut i: u64 = 0;
    proof {
        if let Some((ps, rest)) = goal {
            assert(crate::protocol::ring_views(qs@) + ps =~= ps);
        }
    }
    while i < n
        invariant
            i <= n,
            at <= words@.len(),
            goal == rings_in(words@.skip(from as int), n as nat),
            goal == match rings_in(words@.skip(at as int), (n - i) as nat) {
                None => None,
                Some((ps, rest)) => Some((crate::protocol::ring_views(qs@) + ps, rest)),
            },
        decreases n - i,
    {
        let ghost s = words@.skip(at as int);
        match read_ring(words, at) {
            None => {
                proof {
                    assert(rings_in(s, (n - i) as nat) is None);
                }
                return None;
            },
            Some((p, next)) => {
                let ghost before = crate::protocol::ring_views(qs@);
                qs.push(p);
                proof {
                    let now = crate::protocol::ring_views(qs@);
                    assert(now =~= before.push(p@));
                    if let Some((ps, rest)) = rings_in(after_ring(s), (n - i - 1) as nat) {
                        assert(before + (seq![p@] + ps) =~= now + ps);
                    }
                }
                at = next;
                i += 1;
            },
        }
    }
    proof {
        assert(crate::protocol::ring_views(qs@) + Seq::<RingView>::empty()
            =~= crate::protocol::ring_views(qs@));
    }
    Some((qs, at))
}

// ---------------------------------------------------------------------------------------------
// Leaderboards
// ---------------------------------------------------------------------------------------------

/// The values of some leaderboard lines.
pub open spec fn values(lines: Seq<EntryView>) -> Seq<u64> {
    lines.map_values(|e: EntryView| e.value as u64)
}

/// The names on some leaderboard lines.
pub open spec fn names(lines: Seq<EntryView>) -> Seq<Seq<char>> {
    lines.map_values(|e: EntryView| e.name)
}

/// The words and texts of two leaderboards.
pub open spec fn flat_board(board: LeaderboardView) -> FlatView {
    FlatView {
        words: seq![5, board.by_area.len() as u64] + values(board.by_area) + seq![
            board.by_kills.len() as u64,
        ] + values(board.by_kills),
        texts: names(board.by_area) + names(board.by_kills),
    }
}

/// Whether some words start with `n` values.
pub open spec fn starts_with_values(s: Seq<u64>, n: int) -> bool {
    s.len() >= n && forall|i: int| 0 <= i < n ==> #[trigger] s[i] <= u32::MAX
}

/// The first `n` leaderboard lines that some words and texts hold.
pub open spec fn lines_in(s: Seq<u64>, texts: Seq<Seq<char>>, n: int) -> Seq<EntryView> {
    Seq::new(n as nat, |i: int| EntryView { name: texts[i], value: s[i] as u32 })
}

/// Whether some words and texts are two leaderboards.
pub open spec fn is_board(flat: FlatView) -> bool {
    let s = flat.words;
    &&& s.len() >= 2
    &&& starts_with_values(s.skip(2), s[1] as int)
    &&& s.len() >= 3 + s[1]
    &&& s.len() == 3 + s[1] + s[2 + s[1]]
    &&& starts_with_values(s.skip(3 + s[1]), s[2 + s[1]] as int)
    &&& flat.texts.len() == s[1] + s[2 + s[1]]
}

/// The two leaderboards that some words and texts are.
pub open spec fn board_in(flat: FlatView) -> LeaderboardView {
    let s = flat.words;
    LeaderboardView {
        by_area: lines_in(s.skip(2), flat.texts, s[1] as int),
        by_kills: lines_in(s.skip(3 + s[1]), flat.texts.skip(s[1] as int), s[2 + s[1]] as int),
    }
}

proof fn lemma_board(board: LeaderboardView)
    requires
        board.by_area.len() <= u64::MAX,
        board.by_kills.len() <= u64::MAX,
    ensures
        is_board(flat_board(board)),
        board_in(flat_board(board)) == board,
{
    let flat = flat_board(board);
    let s = flat.words;
    let a = board.by_area.len() as int;
    let k = board.by_kills.len() as int;
    assert(s[1] == a);
    assert(s[2 + a] == k);
    assert forall|i: int| 0 <= i < a implies #[trigger] s.skip(2)[i] == board.by_area[i].value by {
    }
    assert forall|i: int| 0 <= i < k implies #[trigger] s.skip(3 + a)[i]
        == board.by_kills[i].value by {
    }
    let back = board_in(flat);
    assert forall|i: int| 0 <= i < a implies back.by_area[i] == board.by_area[i] by {
        assert(flat.texts[i] == board.by_area[i].name);
    }
    assert forall|i: int| 0 <= i < k implies back.by_kills[i] == board.by_kills[i] by {
        assert(flat.texts.skip(a)[i] == board.by_kills[i].name);
    }
    assert(back.by_area =~= board.by_area);
    assert(back.by_kills =~= board.by_kills);
}

proof fn lemma_board_back(flat: FlatView)
    requires
        is_board(flat),
        flat.words[0] == 5,
    ensures
        flat_board(board_in(flat)) == flat,
{
    let s = flat.words;
    let a = s[1] as int;
    let k = s[2 + a] as int;
    let board = board_in(flat);
    let again = flat_board(board);
    assert forall|i: int| 0 <= i < a implies values(board.by_area)[i] == s[2 + i] by {
        assert(s.skip(2)[i] <= u32::MAX);
    }
    assert forall|i: int| 0 <= i < k implies values(board.by_kills)[i] == s[3 + a + i] by {
        assert(s.skip(3 + a)[i] <= u32::MAX);
    }
    assert(again.words =~= s);
    assert(again.texts =~= flat.texts);
}

fn push_values(out: &mut Vec<u64>, lines: &Vec<LeaderboardEntryData>)
    ensures
        final(out)@ == old(out)@ + values(crate::protocol::entry_views(lines@)),
{
    let ghost all = values(crate::protocol::entry_views(lines@));
    let mut i: usize = 0;
    proof {
        assert(out@ =~= old(out)@ + all.take(0));
    }
    while i < lines.len()
        invariant
            i <= lines@.len(),
            all == values(crate::protocol::entry_views(lines@)),
            out@ == old(out)@ + all.take(i as int),
        decreases lines@.len() - i,
    {
        out.push(lines[i].value as u64);
        proof {
            assert(all[i as int] == lines@[i as int].value);
            assert(out@ =~= old(out)@ + all.take(i + 1));
        }
        i += 1;
    }
    proof {
        assert(all.take(i as int) =~= all);
    }
}

fn push_names(out: &mut Vec<String>, lines: &Vec<LeaderboardEntryData>)
    ensures
        crate::wire::text_views(final(out)@) == crate::wire::text_views(old(out)@) + names(
            crate::protocol::entry_views(lines@),
        ),
{
    let ghost all = names(crate::protocol::entry_views(lines@));
    let ghost start = crate::wire::text_views(out@);
    let mut i: usize = 0;
    proof {
        assert(start =~= start + all.take(0));
    }
    while i < lines.len()
        invariant
            i <= lines@.len(),
            all == names(crate::protocol::entry_views(lines@)),
            crate::wire::text_views(out@) == start + all.take(i as int),
        decreases lines@.len() - i,
    {
        let name = lines[i].name.clone();
        let ghost before = out@;
        out.push(name);
        proof {
            assert(all[i as int] == lines@[i as int].name@);
            assert(crate::wire::text_views(out@) =~= crate::wire::text_views(before).push(name@));
            assert(crate::wire::text_views(out@) =~= start + all.take(i + 1));
        }
        i += 1;
    }
    proof {
        assert(all.take(i as int) =~= all);
    }
}

/// Read `n` leaderboard lines, if the words are values.
fn read_lines(flat: &Flat, from: usize, names_from: usize, n: usize) -> (r: Option<
    Vec<LeaderboardEntryData>,
>)
    requires
        from + n <= flat.words@.len(),
        names_from + n <= flat.texts@.len(),
    ensures
        ({
            let s = flat@.words.skip(from as int);
            let t = flat@.texts.skip(names_from as int);
            match r {
                Some(lines) => starts_with_values(s, n as int) && crate::protocol::entry_views(
                    lines@,
                ) == lines_in(s, t, n as int),
                None => !starts_with_values(s, n as int),
            }
        }),
{
    let ghost s = flat@.words.skip(from as int);
    let ghost t = flat@.texts.skip(names_from as int);
    let mut lines: Vec<LeaderboardEntryData> = Vec::new();
    let mut i: usize = 0;
    let words = flat.words.len();
    let texts = flat.texts.len();
    while i < n
        invariant
            i <= n,
            from + n <= words == flat.words@.len(),
            names_from + n <= texts == flat.texts@.len(),
            s == flat@.words.skip(from as int),
            t == flat@.texts.skip(names_from as int),
            forall|j: int| 0 <= j < i ==> #[trigger] s[j] <= u32::MAX,
            crate::protocol::entry_views(lines@) =~= lines_in(s, t, n as int).take(i as int),
        decreases n - i,
    {
        let word = flat.words[from + i];
        proof {
            assert(s[i as int] == word);
            assert(t[i as int] == flat.texts@[names_from + i]@);
        }
        if word > u32::MAX as u64 {
            return None;
        }
        let line = LeaderboardEntryData {
            name: flat.texts[names_from + i].clone(),
            value: word as u32,
        };
        let ghost before = lines@;
        lines.push(line);
        proof {
            assert(line@ == lines_in(s, t, n as int)[i as int]);
            assert(crate::protocol::entry_views(lines@) =~= crate::protocol::entry_views(
                before,
            ).push(line@));
        }
        i += 1;
    }
    proof {
        assert(crate::protocol::entry_views(lines@) =~= lines_in(s, t, n as int));
    }
    Some(lines)
}

fn read_board(flat: &Flat) -> (r: Option<LeaderboardData>)
    ensures
        match r {
            Some(board) => is_board(flat@) && board@ == board_in(flat@),
            None => !is_board(flat@),
        },
{
    let len = flat.words.len();
    if len < 3 || flat.words[1] > (len - 3) as u64 {
        return None;
    }
    let a = flat.words[1] as usize;
    let last = flat.words[2 + a];
    if last != (len - 3 - a) as u64 {
        return None;
    }
    let k = last as usize;
    let texts = flat.texts.len();
    if texts < a || texts - a != k {
        return None;
    }
    proof {
        assert(flat@.texts.skip(0) =~= flat@.texts);
    }
    match (read_lines(flat, 2, 0, a), read_lines(flat, 3 + a, a, k)) {
        (Some(by_area), Some(by_kills)) => Some(LeaderboardData { by_area, by_kills }),
        _ => None,
    }
}

// ---------------------------------------------------------------------------------------------
// Server messages
// ---------------------------------------------------------------------------------------------

/// The words and texts of a server message. The first word tells the kind.
pub open spec fn flat_server(msg: ServerMsgView) -> FlatView {
    let none = Seq::<Seq<char>>::empty();
    match msg {
        ServerMsgView::Welcome { player_id, position, angle, color } => FlatView {
            words: seq![
                0,
                player_id,
                position.x.bits,
                position.y.bits,
                angle.bits,
                color[0] as u64,
                color[1] as u64,
                color[2] as u64,
            ],
            texts: none,
        },
        ServerMsgView::Tick { players, board_radius } => FlatView {
            words: seq![1, board_radius.bits, players.len() as u64] + flat_players(players),
            texts: none,
        },
        ServerMsgView::TerritorySnapshot(rings) => FlatView {
            words: seq![2, rings.len() as u64] + flat_rings(rings),
            texts: none,
        },
        ServerMsgView::PlayerKilled { player_id, killer_id } => FlatView {
            words: match killer_id {
                Some(killer) => seq![3, player_id, 1, killer],
                None => seq![3, player_id, 0, 0],
            },
            texts: none,
        },
        ServerMsgView::Pong(timestamp) => FlatView { words: seq![4, timestamp.bits], texts: none },
        ServerMsgView::Leaderboard(board) => flat_board(board),
    }
}

/// Whether the lists of a server message are as short as lists in memory are.
pub open spec fn countable(msg: ServerMsgView) -> bool {
    match msg {
        ServerMsgView::Tick { players, board_radius } => players.len() <= u64::MAX
            && trails_countable(players),
        ServerMsgView::TerritorySnapshot(rings) => rings.len() <= u64::MAX && outlines_countable(
            rings,
        ),
        ServerMsgView::Leaderboard(board) => board.by_area.len() <= u64::MAX
            && board.by_kills.len() <= u64::MAX,
        _ => true,
    }
}

/// The server message that some words and texts are.
pub open spec fn server_message(flat: FlatView) -> Result<ServerMsgView, DecodeError> {
    let s = flat.words;
    let plain = flat.texts.len() == 0;
    if s.len() == 0 || s[0] > 5 {
        Err(DecodeError::NotInSchema)
    } else if s[0] == 0 && plain && s.len() == 8 && s[5] <= u8::MAX && s[6] <= u8::MAX && s[7]
        <= u8::MAX {
        Ok(
            ServerMsgView::Welcome {
                player_id: s[1],
                position: Position { x: Float64 { bits: s[2] }, y: Float64 { bits: s[3] } },
                angle: Float64 { bits: s[4] },
                color: [s[5] as u8, s[6] as u8, s[7] as u8],
            },
        )
    } else if s[0] == 1 && plain && s.len() >= 3 {
        match players_in(s.skip(3), s[2] as nat) {
            Some((players, rest)) => if rest.len() == 0 {
                Ok(ServerMsgView::Tick { players, board_radius: Float64 { bits: s[1] } })
            } else {
                Err(DecodeError::Malformed)
            },
            None => Err(DecodeError::Malformed),
        }
    } else if s[0] == 2 && plain && s.len() >= 2 {
        match rings_in(s.skip(2), s[1] as nat) {
            Some((rings, rest)) => if rest.len() == 0 {
                Ok(ServerMsgView::TerritorySnapshot(rings))
            } else {
                Err(DecodeError::Malformed)
            },
            None => Err(DecodeError::Malformed),
        }
    } else if s[0] == 3 && plain && s.len() == 4 && (s[2] == 1 || (s[2] == 0 && s[3] == 0)) {
        Ok(
            ServerMsgView::PlayerKilled {
                player_id: s[1],
                killer_id: if s[2] == 1 {
                    Some(s[3])
                } else {
                    None
                },
            },
        )
    } else if s[0] == 4 && plain && s.len() == 2 {
        Ok(ServerMsgView::Pong(Float64 { bits: s[1] }))
    } else if s[0] == 5 && is_board(flat) {
        Ok(ServerMsgView::Leaderboard(board_in(flat)))
    } else {
        Err(DecodeError::Malformed)
    }
}

/// What is read from the words and texts of a server message is the message.
pub proof fn lemma_server_round_trip(msg: ServerMsgView)
    requires
        countable(msg),
    ensures
        server_message(flat_server(msg)) == Ok::<ServerMsgView, DecodeError>(msg),
{
    let s = flat_server(msg).words;
    match msg {
        ServerMsgView::Welcome { player_id, position, angle, color } => {
            let back = [s[5] as u8, s[6] as u8, s[7] as u8];
            assert(back@ =~= color@);
            assert(back =~= color);
        },
        ServerMsgView::Tick { players, board_radius } => {
            lemma_players(players, Seq::empty());
            assert(s.skip(3) =~= flat_players(players) + Seq::<u64>::empty());
        },
        ServerMsgView::TerritorySnapshot(rings) => {
            lemma_rings(rings, Seq::empty());
            assert(s.skip(2) =~= flat_rings(rings) + Seq::<u64>::empty());
        },
        ServerMsgView::Leaderboard(board) => {
            lemma_board(board);
        },
        _ => {},
    }
}

/// Words and texts from which a server message is read are the words and texts of that message.
pub proof fn lemma_server_exact(flat: FlatView)
    ensures
        server_message(flat) matches Ok(msg) ==> flat_server(msg) == flat,
{
    let s = flat.words;
    if let Ok(msg) = server_message(flat) {
        let again = flat_server(msg);
        match msg {
            ServerMsgView::Tick { players, board_radius } => {
                lemma_players_back(s.skip(3), s[2] as nat);
                assert(s =~= seq![1, s[1], s[2]] + s.skip(3));
                assert(flat_players(players) + Seq::<u64>::empty() =~= flat_players(players));
            },
            ServerMsgView::TerritorySnapshot(rings) => {
                lemma_rings_back(s.skip(2), s[1] as nat);
                assert(s =~= seq![2, s[1]] + s.skip(2));
                assert(flat_rings(rings) + Seq::<u64>::empty() =~= flat_rings(rings));
            },
            ServerMsgView::Leaderboard(board) => {
                lemma_board_back(flat);
            },
            _ => {},
        }
        assert(again.words =~= s);
        assert(again.texts =~= flat.texts);
    }
}

/// Two server messages with the same words and texts are the same.
pub proof fn lemma_server_distinct(a: ServerMsgView, b: ServerMsgView)
    requires
        countable(a),
        countable(b),
        flat_server(a) == flat_server(b),
    ensures
        a == b,
{
    lemma_server_round_trip(a);
    lemma_server_round_trip(b);
}

/// The words and texts of a server message.
pub fn flatten_server_msg(msg: &ServerMsg) -> (r: Flat)
    ensures
        r@ == flat_server(msg@),
        countable(msg@),
{
    let mut words: Vec<u64> = Vec::new();
    let mut texts: Vec<String> = Vec::new();
    match msg {
        ServerMsg::Welcome { player_id, position, angle, color } => {
            words.push(0);
            words.push(*player_id);
            words.push(position.x.bits);
            words.push(position.y.bits);
            words.push(angle.bits);
            words.push(color[0] as u64);
            words.push(color[1] as u64);
            words.push(color[2] as u64);
        },
        ServerMsg::Tick { players, board_radius } => {
            words.push(1);
            words.push(board_radius.bits);
            words.push(players.len() as u64);
            proof {
                assert(trails_countable(crate::protocol::player_views(players@))) by {
                    assert forall|i: int| 0 <= i < players@.len() implies (
                    #[trigger] crate::protocol::player_views(players@)[i]).trail.len()
                        <= u64::MAX by {
                        assert(players@[i].trail.len() == players@[i].trail@.len());
                    }
                }
            }
            push_players(&mut words, players);
        },
        ServerMsg::TerritorySnapshot(rings) => {
            words.push(2);
            words.push(rings.len() as u64);
            proof {
                assert(outlines_countable(crate::protocol::ring_views(rings@))) by {
                    assert forall|i: int| 0 <= i < rings@.len() implies (
                    #[trigger] crate::protocol::ring_views(rings@)[i]).points.len() <= u64::MAX by {
                        assert(rings@[i].points.len() == rings@[i].points@.len());
                    }
                }
            }
            push_rings(&mut words, rings);
        },
        ServerMsg::PlayerKilled { player_id, killer_id } => {
            words.push(3);
            words.push(*player_id);
            match killer_id {
                Some(killer) => {
                    words.push(1);
                    words.push(*killer);
                },
                None => {
                    words.push(0);
                    words.push(0);
                },
            }
        },
        ServerMsg::Pong(timestamp) => {
            words.push(4);
            words.push(timestamp.bits);
        },
        ServerMsg::Leaderboard(board) => {
            words.push(5);
            words.push(board.by_area.len() as u64);
            push_values(&mut words, &board.by_area);
            words.push(board.by_kills.len() as u64);
            push_values(&mut words, &board.by_kills);
            proof {
                assert(crate::wire::text_views(texts@) =~= Seq::empty());
            }
            push_names(&mut texts, &board.by_area);
            push_names(&mut texts, &board.by_kills);
        },
    }
    let r = Flat { words, texts };
    proof {
        let flat = flat_server(msg@);
        assert(r@.words =~= flat.words);
        assert(r@.texts =~= flat.texts);
    }
    r
}

/// The server message that some words and texts are.
pub fn read_server_msg(flat: &Flat) -> (r: Result<ServerMsg, DecodeError>)
    ensures
        match server_message(flat@) {
            Ok(msg) => r matches Ok(m) && m@ == msg,
            Err(e) => r matches Err(f) && f == e,
        },
{
    let len = flat.words.len();
    let plain = flat.texts.len() == 0;
    if len == 0 || flat.words[0] > 5 {
        return Err(DecodeError::NotInSchema);
    }
    let words = &flat.words;
    let kind = words[0];
    if kind == 0 && plain && len == 8 && words[5] <= u8::MAX as u64 && words[6] <= u8::MAX as u64
        && words[7] <= u8::MAX as u64 {
        let color = [words[5] as u8, words[6] as u8, words[7] as u8];
        Ok(
            ServerMsg::Welcome {
                player_id: words[1],
                position: Position {
                    x: Float64 { bits: words[2] },
                    y: Float64 { bits: words[3] },
                },
                angle: Float64 { bits: words[4] },
                color,
            },
        )
    } else if kind == 1 && plain && len >= 3 {
        match read_players(words, 3, words[2]) {
            Some((players, next)) => if next == len {
                Ok(ServerMsg::Tick { players, board_radius: Float64 { bits: words[1] } })
            } else {
                Err(DecodeError::Malformed)
            },
            None => Err(DecodeError::Malformed),
        }
    } else if kind == 2 && plain && len >= 2 {
        match read_rings(words, 2, words[1]) {
            Some((rings, next)) => if next == len {
                Ok(ServerMsg::TerritorySnapshot(rings))
            } else {
                Err(DecodeError::Malformed)
            },
            None => Err(DecodeError::Malformed),
        }
    } else if kind == 3 && plain && len == 4 && (words[2] == 1 || (words[2] == 0 && words[3]
        == 0)) {
        let killer_id = if words[2] == 1 {
            Some(words[3])
        } else {
            None
        };
        Ok(ServerMsg::PlayerKilled { player_id: words[1], killer_id })
    } else if kind == 4 && plain && len == 2 {
        Ok(ServerMsg::Pong(Float64 { bits: words[1] }))
    } else if kind == 5 {
        match read_board(flat) {
            Some(board) => Ok(ServerMsg::Leaderboard(board)),
            None => Err(DecodeError::Malformed),
        }
    } else {
        Err(DecodeError::Malformed)
    }
}

/// The server message that some bytes are.
pub open spec fn server_message_in(bytes: Seq<u8>) -> Result<ServerMsgView, DecodeError> {
    match crate::wire::unpacked(bytes) {
        Some((words, texts)) => server_message(FlatView { words, texts }),
        None => Err(DecodeError::Packing),
    }
}

/// The bytes of a server message, from which the message is read again, unless they are more than
/// [`BYTES_LIMIT`]. From the start of them alone nothing is read.
pub fn encode_server_msg(msg: &ServerMsg) -> (r: Vec<u8>)
    requires
        flat_server(msg@).packable(),
    ensures
        r@ == crate::wire::packed(flat_server(msg@).words, flat_server(msg@).texts),
        flat_server(msg@).readable() || r@.len() <= BYTES_LIMIT ==> server_message_in(r@) == Ok::<
            ServerMsgView,
            DecodeError,
        >(msg@),
        forall|k: int|
            0 <= k < r@.len() ==> #[trigger] server_message_in(r@.take(k)) == Err::<
                ServerMsgView,
                DecodeError,
            >(DecodeError::Packing),
{
    let flat = flatten_server_msg(msg);
    proof {
        lemma_server_round_trip(msg@);
    }
    flat.to_bytes()
}

/// The bytes of a server message, unless its lists are too long to be packed.
pub fn try_encode_server_msg(msg: &ServerMsg) -> (r: Option<Vec<u8>>)
    ensures
        r is Some == flat_server(msg@).packable(),
        r matches Some(bytes) ==> bytes@ == crate::wire::packed(
            flat_server(msg@).words,
            flat_server(msg@).texts,
        ),
        r matches Some(bytes) ==> (flat_server(msg@).readable() || bytes@.len() <= BYTES_LIMIT
            ==> server_message_in(bytes@) == Ok::<ServerMsgView, DecodeError>(msg@)),
        r matches Some(bytes) ==> forall|k: int|
            0 <= k < bytes@.len() ==> #[trigger] server_message_in(bytes@.take(k)) == Err::<
                ServerMsgView,
                DecodeError,
            >(DecodeError::Packing),
{
    let flat = flatten_server_msg(msg);
    if flat.fits() {
        proof {
            lemma_server_round_trip(msg@);
        }
        Some(flat.to_bytes())
    } else {
        None
    }
}

/// Read a server message from bytes.
pub fn decode_server_msg(bytes: &[u8]) -> (r: Result<ServerMsg, DecodeError>)
    ensures
        match server_message_in(bytes@) {
            Ok(msg) => r matches Ok(m) && m@ == msg,
            Err(e) => r matches Err(f) && f == e,
        },
{
    match Flat::from_bytes(bytes) {
        Ok(flat) => read_server_msg(&flat),
        Err(e) => Err(e),
    }
}

// ---------------------------------------------------------------------------------------------
// Client messages
// ---------------------------------------------------------------------------------------------

/// The words and texts of a client message. The first word tells the kind.
pub open spec fn flat_client(msg: ClientMsgView) -> FlatView {
    let none = Seq::<Seq<char>>::empty();
    match msg {
        ClientMsgView::ChangeDirection(angle) => FlatView {
            words: seq![0, angle.bits],
            texts: none,
        },
        ClientMsgView::Ping(timestamp) => FlatView { words: seq![1, timestamp.bits], texts: none },
        ClientMsgView::SetSprite(id) => FlatView { words: seq![2, id as u64], texts: none },
        ClientMsgView::SetName(name) => FlatView { words: seq![3], texts: seq![name] },
        ClientMsgView::ActivateBoost => FlatView { words: seq![4], texts: none },
    }
}

/// The client message that some words and texts are.
pub open spec fn client_message(flat: FlatView) -> Result<ClientMsgView, DecodeError> {
    let s = flat.words;
    let plain = flat.texts.len() == 0;
    if s.len() == 0 || s[0] > 4 {
        Err(DecodeError::NotInSchema)
    } else if s[0] == 0 && plain && s.len() == 2 {
        Ok(ClientMsgView::ChangeDirection(Float64 { bits: s[1] }))
    } else if s[0] == 1 && plain && s.len() == 2 {
        Ok(ClientMsgView::Ping(Float64 { bits: s[1] }))
    } else if s[0] == 2 && plain && s.len() == 2 && s[1] <= u32::MAX {
        Ok(ClientMsgView::SetSprite(s[1] as u32))
    } else if s[0] == 3 && flat.texts.len() == 1 && s.len() == 1 {
        Ok(ClientMsgView::SetName(flat.texts[0]))
    } else if s[0] == 4 && plain && s.len() == 1 {
        Ok(ClientMsgView::ActivateBoost)
    } else {
        Err(DecodeError::Malformed)
    }
}

/// What is read from the words and texts of a client message is the message.
pub proof fn lemma_client_round_trip(msg: ClientMsgView)
    ensures
        client_message(flat_client(msg)) == Ok::<ClientMsgView, DecodeError>(msg),
{
}

/// Words and texts from which a client message is read are the words and texts of that message.
pub proof fn lemma_client_exact(flat: FlatView)
    ensures
        client_message(flat) matches Ok(msg) ==> flat_client(msg) == flat,
{
    if let Ok(msg) = client_message(flat) {
        let again = flat_client(msg);
        assert(again.words =~= flat.words);
        assert(again.texts =~= flat.texts);
    }
}

/// The words and texts of a client message.
pub fn flatten_client_msg(msg: &ClientMsg) -> (r: Flat)
    ensures
        r@ == flat_client(msg@),
{
    let mut words: Vec<u64> = Vec::new();
    let mut texts: Vec<String> = Vec::new();
    match msg {
        ClientMsg::ChangeDirection(angle) => {
            words.push(0);
            words.push(angle.bits);
        },
        ClientMsg::Ping(timestamp) => {
            words.push(1);
            words.push(timestamp.bits);
        },
        ClientMsg::SetSprite(id) => {
            words.push(2);
            words.push(*id as u64);
        },
        ClientMsg::SetName(name) => {
            words.push(3);
            texts.push(name.clone());
        },
        ClientMsg::ActivateBoost => {
            words.push(4);
        },
    }
    let r = Flat { words, texts };
    proof {
        let flat = flat_client(msg@);
        assert(r@.words =~= flat.words);
        assert(r@.texts =~= flat.texts);
    }
    r
}

/// The client message that some words and texts are.
pub fn read_client_msg(flat: &Flat) -> (r: Result<ClientMsg, DecodeError>)
    ensures
        match client_message(flat@) {
            Ok(msg) => r matches Ok(m) && m@ == msg,
            Err(e) => r matches Err(f) && f == e,
        },
{
    let len = flat.words.len();
    let texts = flat.texts.len();
    if len == 0 || flat.words[0] > 4 {
        return Err(DecodeError::NotInSchema);
    }
    let kind = flat.words[0];
    if kind == 0 && texts == 0 && len == 2 {
        Ok(ClientMsg::ChangeDirection(Float64 { bits: flat.words[1] }))
    } else if kind == 1 && texts == 0 && len == 2 {
        Ok(ClientMsg::Ping(Float64 { bits: flat.words[1] }))
    } else if kind == 2 && texts == 0 && len == 2 && flat.words[1] <= u32::MAX as u64 {
        Ok(ClientMsg::SetSprite(flat.words[1] as u32))
    } else if kind == 3 && texts == 1 && len == 1 {
        Ok(ClientMsg::SetName(flat.texts[0].clone()))
    } else if kind == 4 && texts == 0 && len == 1 {
        Ok(ClientMsg::ActivateBoost)
    } else {
        Err(DecodeError::Malformed)
    }
}

/// The client message that some bytes are.
pub open spec fn client_message_in(bytes: Seq<u8>) -> Result<ClientMsgView, DecodeError> {
    match crate::wire::unpacked(bytes) {
        Some((words, texts)) => client_message(FlatView { words, texts }),
        None => Err(DecodeError::Packing),
    }
}

/// The bytes of a client message, from which the message is read again, unless they are more than
/// [`BYTES_LIMIT`]. From the start of them alone nothing is read.
pub fn encode_client_msg(msg: &ClientMsg) -> (r: Vec<u8>)
    requires
        flat_client(msg@).packable(),
    ensures
        r@ == crate::wire::packed(flat_client(msg@).words, flat_client(msg@).texts),
        flat_client(msg@).readable() || r@.len() <= BYTES_LIMIT ==> client_message_in(r@) == Ok::<
            ClientMsgView,
            DecodeError,
        >(msg@),
        forall|k: int|
            0 <= k < r@.len() ==> #[trigger] client_message_in(r@.take(k)) == Err::<
                ClientMsgView,
                DecodeError,
            >(DecodeError::Packing),
{
    let flat = flatten_client_msg(msg);
    proof {
        lemma_client_round_trip(msg@);
    }
    flat.to_bytes()
}

/// The bytes of a client message, unless a name is too long to be packed.
pub fn try_encode_client_msg(msg: &ClientMsg) -> (r: Option<Vec<u8>>)
    ensures
        r is Some == flat_client(msg@).packable(),
        r matches Some(bytes) ==> bytes@ == crate::wire::packed(
            flat_client(msg@).words,
            flat_client(msg@).texts,
        ),
        r matches Some(bytes) ==> (flat_client(msg@).readable() || bytes@.len() <= BYTES_LIMIT
            ==> client_message_in(bytes@) == Ok::<ClientMsgView, DecodeError>(msg@)),
        r matches Some(bytes) ==> forall|k: int|
            0 <= k < bytes@.len() ==> #[trigger] client_message_in(bytes@.take(k)) == Err::<
                ClientMsgView,
                DecodeError,
            >(DecodeError::Packing),
{
    let flat = flatten_client_msg(msg);
    if flat.fits() {
        proof {
            lemma_client_round_trip(msg@);
        }
        Some(flat.to_bytes())
    } else {
        None
    }
}

/// Read a client message from bytes.
pub fn decode_client_msg(bytes: &[u8]) -> (r: Result<ClientMsg, DecodeError>)
    ensures
        match client_message_in(bytes@) {
            Ok(msg) => r matches Ok(m) && m@ == msg,
            Err(e) => r matches Err(f) && f == e,
        },
{
    match Flat::from_bytes(bytes) {
        Ok(flat) => read_client_msg(&flat),
        Err(e) => Err(e),
    }
}

}
