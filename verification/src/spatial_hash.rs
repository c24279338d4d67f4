//! A grid that finds the players near a place.
use crate::float64::Float64;
use crate::protocol::{PlayerId, Position};
use std::collections::HashMap;
use vstd::prelude::*;

verus! {

broadcast use vstd::std_specs::hash::group_hash_axioms;

/// The players in each cell that ever held one, in the order in which they came.
pub type Cells = Map<(i32, i32), Seq<PlayerId>>;

/// The number under which a cell is kept.
spec fn cell_number(key: (i32, i32)) -> u64 {
    ((key.0 + 0x8000_0000) * 0x1_0000_0000 + (key.1 + 0x8000_0000)) as u64
}

proof fn lemma_cell_number_injective(a: (i32, i32), b: (i32, i32))
    requires
        cell_number(a) == cell_number(b),
    ensures
        a == b,
{
}

fn number_of(key: (i32, i32)) -> (r: u64)
    ensures
        r == cell_number(key),
{
    (key.0 as i64 + 0x8000_0000) as u64 * 0x1_0000_0000 + (key.1 as i64 + 0x8000_0000) as u64
}

/// The players in one cell.
pub open spec fn in_cell(cells: Cells, key: (i32, i32)) -> Seq<PlayerId> {
    if cells.contains_key(key) {
        cells[key]
    } else {
        Seq::empty()
    }
}

/// The cells with a player more in one of them.
pub open spec fn with_player(cells: Cells, key: (i32, i32), id: PlayerId) -> Cells {
    cells.insert(key, in_cell(cells, key).push(id))
}

/// The next coordinate; the grid closes on itself at its edges.
pub open spec fn spec_next(c: i32) -> i32 {
    if c == i32::MAX {
        i32::MIN
    } else {
        (c + 1) as i32
    }
}

/// The coordinate before; the grid closes on itself at its edges.
pub open spec fn spec_previous(c: i32) -> i32 {
    if c == i32::MIN {
        i32::MAX
    } else {
        (c - 1) as i32
    }
}

#[verifier::when_used_as_spec(spec_next)]
fn next(c: i32) -> (r: i32)
    ensures
        r == spec_next(c),
{
    if c == i32::MAX {
        i32::MIN
    } else {
        c + 1
    }
}

#[verifier::when_used_as_spec(spec_previous)]
fn previous(c: i32) -> (r: i32)
    ensures
        r == spec_previous(c),
{
    if c == i32::MIN {
        i32::MAX
    } else {
        c - 1
    }
}

/// The players in a cell, the one before it and the one after it in its column.
pub open spec fn in_column(cells: Cells, x: i32, y: i32) -> Seq<PlayerId> {
    in_cell(cells, (x, spec_previous(y))) + in_cell(cells, (x, y)) + in_cell(
        cells,
        (x, spec_next(y)),
    )
}

/// The players in the nine cells around one, column by column.
pub open spec fn around(cells: Cells, key: (i32, i32)) -> Seq<PlayerId> {
    in_column(cells, spec_previous(key.0), key.1) + in_column(cells, key.0, key.1) + in_column(
        cells,
        spec_next(key.0),
        key.1,
    )
}

/// The cell of a point on a grid with cells of the given side.
pub open spec fn cell_of(cell_size: Float64, p: Position) -> (i32, i32) {
    (p.x.over(cell_size).floor_i32(), p.y.over(cell_size).floor_i32())
}

/// A grid of square cells.
pub struct SpatialHash {
    pub cells: HashMap<u64, Vec<PlayerId>>,
    pub cell_size: Float64,
}

impl View for SpatialHash {
    type V = Cells;

    closed spec fn view(&self) -> Cells {
        Map::new(
            |key: (i32, i32)| self.cells@.contains_key(cell_number(key)),
            |key: (i32, i32)| self.cells@[cell_number(key)]@,
        )
    }
}

impl SpatialHash {
    /// An empty grid.
    pub fn new(cell_size: Float64) -> (r: SpatialHash)
        ensures
            r@ == Cells::empty(),
            r.cell_size == cell_size,
    {
        let r = SpatialHash { cells: HashMap::new(), cell_size };
        proof {
            assert(r@ =~= Cells::empty());
        }
        r
    }

    /// Empty the grid.
    pub fn clear(&mut self)
        ensures
            final(self)@ == Cells::empty(),
            final(self).cell_size == old(self).cell_size,
    {
        self.cells.clear();
        proof {
            assert(self@ =~= Cells::empty());
        }
    }

    /// The cell of a point.
    pub fn cell_key(&self, x: Float64, y: Float64) -> (r: (i32, i32))
        ensures
            r == cell_of(self.cell_size, Position { x, y }),
    {
        (x.over(self.cell_size).floor_i32(), y.over(self.cell_size).floor_i32())
    }

    /// Enter a player at a point.
    pub fn insert(&mut self, id: PlayerId, pos: Position)
        ensures
            final(self)@ == with_player(old(self)@, cell_of(old(self).cell_size, pos), id),
            final(self).cell_size == old(self).cell_size,
    {
        let key = self.cell_key(pos.x, pos.y);
        let number = number_of(key);
        let mut list = match self.cells.remove(&number) {
            Some(list) => list,
            None => Vec::new(),
        };
        proof {
            assert(list@ =~= in_cell(old(self)@, key));
        }
        list.push(id);
        self.cells.insert(number, list);
        proof {
            assert forall|k: (i32, i32)| k != key implies cell_number(k) != number by {
                if cell_number(k) == number {
                    lemma_cell_number_injective(k, key);
                }
            }
            assert(self@ =~= with_player(old(self)@, key, id));
        }
    }

    fn extend_with(&self, key: (i32, i32), out: &mut Vec<PlayerId>)
        ensures
            final(out)@ == old(out)@ + in_cell(self@, key),
    {
        match self.cells.get(&number_of(key)) {
            None => {
                proof {
                    assert(out@ =~= out@ + in_cell(self@, key));
                }
            },
            Some(list) => {
                let mut i: usize = 0;
                proof {
                    assert(out@ =~= old(out)@ + list@.take(0));
                }
                while i < list.len()
                    invariant
                        i <= list@.len(),
                        out@ == old(out)@ + list@.take(i as int),
                    decreases list@.len() - i,
                {
                    out.push(list[i]);
                    proof {
                        assert(out@ =~= old(out)@ + list@.take(i + 1));
                    }
                    i += 1;
                }
                proof {
                    assert(list@.take(i as int) =~= list@);
                }
            },
        }
    }

    fn extend_with_column(&self, x: i32, y: i32, out: &mut Vec<PlayerId>)
        ensures
            final(out)@ == old(out)@ + in_column(self@, x, y),
    {
        self.extend_with((x, previous(y)), out);
        self.extend_with((x, y), out);
        self.extend_with((x, next(y)), out);
        proof {
            assert(out@ =~= old(out)@ + in_column(self@, x, y));
        }
    }

    /// The players in the nine cells around a point.
    pub fn nearby(&self, pos: Position) -> (r: Vec<PlayerId>)
        ensures
            r@ == around(self@, cell_of(self.cell_size, pos)),
    {
        let (cx, cy) = self.cell_key(pos.x, pos.y);
        let mut out: Vec<PlayerId> = Vec::new();
        self.extend_with_column(previous(cx), cy, &mut out);
        self.extend_with_column(cx, cy, &mut out);
        self.extend_with_column(next(cx), cy, &mut out);
        proof {
            assert(out@ =~= around(self@, (cx, cy)));
        }
        out
    }
}

/// A player in a cell is found near every point of that cell and of the eight around.
pub proof fn lemma_cell_is_nearby(cells: Cells, key: (i32, i32), id: PlayerId, from: (i32, i32))
    requires
        in_cell(cells, key).contains(id),
        from.0 == key.0 || from.0 == spec_next(key.0) || from.0 == spec_previous(key.0),
        from.1 == key.1 || from.1 == spec_next(key.1) || from.1 == spec_previous(key.1),
    ensures
        around(cells, from).contains(id),
{
    let cell = in_cell(cells, key);
    let at = choose|j: int| 0 <= j < cell.len() && cell[j] == id;
    let column = in_column(cells, key.0, from.1);
    let a = in_cell(cells, (key.0, spec_previous(from.1)));
    let b = in_cell(cells, (key.0, from.1));
    if from.1 == key.1 {
        assert(column[a.len() + at] == id);
    } else if from.1 == spec_next(key.1) {
        assert(spec_previous(from.1) == key.1);
        assert(column[at] == id);
    } else {
        assert(spec_next(from.1) == key.1);
        assert(column[a.len() + b.len() + at] == id);
    }
    let k = choose|k: int| 0 <= k < column.len() && column[k] == id;
    let whole = around(cells, from);
    let p = in_column(cells, spec_previous(from.0), from.1);
    let q = in_column(cells, from.0, from.1);
    if from.0 == key.0 {
        assert(whole[p.len() + k] == id);
    } else if from.0 == spec_next(key.0) {
        assert(spec_previous(from.0) == key.0);
        assert(whole[k] == id);
    } else {
        assert(spec_next(from.0) == key.0);
        assert(whole[p.len() + q.len() + k] == id);
    }
}

/// A player entered at a point is found near every point of its own cell and of the eight around.
pub proof fn lemma_entered_is_nearby(cells: Cells, key: (i32, i32), id: PlayerId, from: (i32, i32))
    requires
        from.0 == key.0 || from.0 == spec_next(key.0) || from.0 == spec_previous(key.0),
        from.1 == key.1 || from.1 == spec_next(key.1) || from.1 == spec_previous(key.1),
    ensures
        around(with_player(cells, key, id), from).contains(id),
{
    let cell = in_cell(with_player(cells, key, id), key);
    assert(cell[cell.len() - 1] == id);
    lemma_cell_is_nearby(with_player(cells, key, id), key, id, from);
}

// ---------------------------------------------------------------------------------------------
// A series of entries
// ---------------------------------------------------------------------------------------------

/// The grid after some players were entered at their points, in order.
pub open spec fn all_entered(cell_size: Float64, entries: Seq<(PlayerId, Position)>) -> Cells
    decreases entries.len(),
{
    if entries.len() == 0 {
        Cells::empty()
    } else {
        with_player(
            all_entered(cell_size, entries.drop_last()),
            cell_of(cell_size, entries.last().1),
            entries.last().0,
        )
    }
}

/// Whether a coordinate of a cell is that of another or next to it.
pub open spec fn beside(a: i32, b: i32) -> bool {
    a == spec_previous(b) || a == b || a == spec_next(b)
}

/// Whether a cell is one of the nine around another.
pub open spec fn touching(key: (i32, i32), from: (i32, i32)) -> bool {
    beside(key.0, from.0) && beside(key.1, from.1)
}

/// The ids of the entries in the nine cells around one, in the order in which they were entered.
pub open spec fn entered_around(
    cell_size: Float64,
    entries: Seq<(PlayerId, Position)>,
    from: (i32, i32),
) -> Seq<PlayerId>
    decreases entries.len(),
{
    if entries.len() == 0 {
        Seq::empty()
    } else {
        let earlier = entered_around(cell_size, entries.drop_last(), from);
        if touching(cell_of(cell_size, entries.last().1), from) {
            earlier.push(entries.last().0)
        } else {
            earlier
        }
    }
}

/// How often an id is in a list.
spec fn times_in(s: Seq<PlayerId>, id: PlayerId) -> nat {
    s.to_multiset().count(id)
}

proof fn lemma_times_joined(s: Seq<PlayerId>, t: Seq<PlayerId>, id: PlayerId)
    ensures
        times_in(s + t, id) == times_in(s, id) + times_in(t, id),
{
    vstd::seq_lib::lemma_multiset_commutative(s, t);
}

proof fn lemma_times_pushed(s: Seq<PlayerId>, x: PlayerId, id: PlayerId)
    ensures
        times_in(s.push(x), id) == times_in(s, id) + if x == id {
            1nat
        } else {
            0nat
        },
{
    broadcast use vstd::seq_lib::group_to_multiset_ensures;

}

proof fn lemma_times_in_column(cells: Cells, x: i32, y: i32, id: PlayerId)
    ensures
        times_in(in_column(cells, x, y), id) == times_in(
            in_cell(cells, (x, spec_previous(y))),
            id,
        ) + times_in(in_cell(cells, (x, y)), id) + times_in(
            in_cell(cells, (x, spec_next(y))),
            id,
        ),
{
    let a = in_cell(cells, (x, spec_previous(y)));
    let b = in_cell(cells, (x, y));
    let c = in_cell(cells, (x, spec_next(y)));
    lemma_times_joined(a, b, id);
    lemma_times_joined(a + b, c, id);
}

proof fn lemma_times_around(cells: Cells, from: (i32, i32), id: PlayerId)
    ensures
        times_in(around(cells, from), id) == times_in(
            in_column(cells, spec_previous(from.0), from.1),
            id,
        ) + times_in(in_column(cells, from.0, from.1), id) + times_in(
            in_column(cells, spec_next(from.0), from.1),
            id,
        ),
{
    let a = in_column(cells, spec_previous(from.0), from.1);
    let b = in_column(cells, from.0, from.1);
    let c = in_column(cells, spec_next(from.0), from.1);
    lemma_times_joined(a, b, id);
    lemma_times_joined(a + b, c, id);
}

proof fn lemma_times_in_column_with(
    cells: Cells,
    key: (i32, i32),
    who: PlayerId,
    x: i32,
    y: i32,
    id: PlayerId,
)
    ensures
        times_in(in_column(with_player(cells, key, who), x, y), id) == times_in(
            in_column(cells, x, y),
            id,
        ) + if key.0 == x && beside(key.1, y) && who == id {
            1nat
        } else {
            0nat
        },
{
    let after = with_player(cells, key, who);
    lemma_times_in_column(cells, x, y, id);
    lemma_times_in_column(after, x, y, id);
    lemma_times_pushed(in_cell(cells, key), who, id);
    assert(forall|k: (i32, i32)| k != key ==> #[trigger] in_cell(after, k) == in_cell(cells, k));
    assert(in_cell(after, key) == in_cell(cells, key).push(who));
}

/// After any series of entries the players found around a cell are, each as often, those that were
/// entered in the nine cells around it.
pub proof fn lemma_found_are_those_entered(
    cell_size: Float64,
    entries: Seq<(PlayerId, Position)>,
    from: (i32, i32),
)
    ensures
        around(all_entered(cell_size, entries), from).to_multiset() == entered_around(
            cell_size,
            entries,
            from,
        ).to_multiset(),
    decreases entries.len(),
{
    let cells = all_entered(cell_size, entries);
    let found = around(cells, from);
    let expected = entered_around(cell_size, entries, from);
    if entries.len() == 0 {
        assert(found =~= expected);
    } else {
        let earlier = all_entered(cell_size, entries.drop_last());
        let key = cell_of(cell_size, entries.last().1);
        let who = entries.last().0;
        lemma_found_are_those_entered(cell_size, entries.drop_last(), from);
        assert forall|id: PlayerId| #[trigger]
            found.to_multiset().count(id) == expected.to_multiset().count(id) by {
            lemma_times_around(earlier, from, id);
            lemma_times_around(cells, from, id);
            lemma_times_in_column_with(earlier, key, who, spec_previous(from.0), from.1, id);
            lemma_times_in_column_with(earlier, key, who, from.0, from.1, id);
            lemma_times_in_column_with(earlier, key, who, spec_next(from.0), from.1, id);
            lemma_times_pushed(
                entered_around(cell_size, entries.drop_last(), from),
                who,
                id,
            );
        }
        assert(found.to_multiset() =~= expected.to_multiset());
    }
}

/// Away from the edges of the grid, the nine cells around one are those at most one off along each
/// axis.
pub proof fn lemma_touching_is_one_off(key: (i32, i32), from: (i32, i32))
    requires
        i32::MIN < from.0 < i32::MAX,
        i32::MIN < from.1 < i32::MAX,
    ensures
        touching(key, from) == (-1 <= key.0 - from.0 <= 1 && -1 <= key.1 - from.1 <= 1),
{
}

}
