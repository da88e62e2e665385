//! Connected free space: which cells can be reached from a cell by steps
//! through free cells, and how many cells such a region has room for.
use crate::snake::brick::{lemma_touching_is_one_step, Position};
use vstd::prelude::*;
use vstd::set_lib::{lemma_int_range, lemma_len_subset, set_int_range};

verus! {

/// A walk through `free`: one or more free cells, each touching the next.
pub open spec fn is_walk(free: Set<Position>, walk: Seq<Position>) -> bool {
    &&& walk.len() > 0
    &&& forall|i: int| 0 <= i < walk.len() ==> free.contains(#[trigger] walk[i])
    &&& forall|i: int| 0 <= i < walk.len() - 1 ==> (#[trigger] walk[i]).touches(walk[i + 1])
}

/// A walk through `free` that leads from `from` to `to`.
pub open spec fn leads(free: Set<Position>, walk: Seq<Position>, from: Position, to: Position) -> bool {
    is_walk(free, walk) && walk[0] == from && walk.last() == to
}

/// Whether `to` can be reached from `from` by a walk through `free`. Both
/// ends are then free themselves.
pub open spec fn connected(free: Set<Position>, from: Position, to: Position) -> bool {
    exists|walk: Seq<Position>| #[trigger] leads(free, walk, from, to)
}

/// The cells that can be reached from `from`.
pub open spec fn region(free: Set<Position>, from: Position) -> Set<Position> {
    Set::new(|to: Position| connected(free, from, to))
}

/// `cells` lists different cells, all of them in the region of `from`.
pub open spec fn lists_region(free: Set<Position>, from: Position, cells: Seq<Position>) -> bool {
    &&& cells.no_duplicates()
    &&& forall|i: int| 0 <= i < cells.len() ==> region(free, from).contains(#[trigger] cells[i])
}

/// Whether the region of `from` has at least `n` cells.
pub open spec fn roomy(free: Set<Position>, from: Position, n: nat) -> bool {
    exists|cells: Seq<Position>| #[trigger] lists_region(free, from, cells) && cells.len() == n
}

/// `cells` holds, with each of its cells from index `from_index` on, every
/// free cell that touches it.
pub open spec fn closed_from(free: Set<Position>, cells: Seq<Position>, from_index: int) -> bool {
    forall|j: int, q: Position|
        from_index <= j < cells.len() && free.contains(q) && (#[trigger] cells[j]).touches(q)
            ==> #[trigger] cells.contains(q)
}

/// A free cell is connected to itself.
pub proof fn lemma_connected_self(free: Set<Position>, p: Position)
    requires
        free.contains(p),
    ensures
        connected(free, p, p),
{
    assert(leads(free, seq![p], p, p));
}

/// A walk can be extended by one free cell that touches its end.
pub proof fn lemma_connected_step(free: Set<Position>, a: Position, b: Position, c: Position)
    requires
        connected(free, a, b),
        free.contains(c),
        b.touches(c),
    ensures
        connected(free, a, c),
{
    let walk = choose|walk: Seq<Position>| #[trigger] leads(free, walk, a, b);
    let longer = walk.push(c);
    assert forall|i: int| 0 <= i < longer.len() - 1 implies (#[trigger] longer[i]).touches(
        longer[i + 1],
    ) by {
        if i < walk.len() - 1 {
            assert(walk[i].touches(walk[i + 1]));
        }
    }
    assert(leads(free, longer, a, c));
}

/// A walk can be walked backwards.
pub proof fn lemma_connected_back(free: Set<Position>, a: Position, b: Position)
    requires
        connected(free, a, b),
    ensures
        connected(free, b, a),
{
    let walk = choose|walk: Seq<Position>| #[trigger] leads(free, walk, a, b);
    let n = walk.len() as int;
    let back = Seq::new(walk.len(), |i: int| walk[n - 1 - i]);
    assert forall|i: int| 0 <= i < back.len() - 1 implies (#[trigger] back[i]).touches(
        back[i + 1],
    ) by {
        assert(walk[n - 2 - i].touches(walk[n - 2 - i + 1]));
    }
    assert(leads(free, back, b, a));
}

/// Two walks that meet make one walk.
pub proof fn lemma_connected_on(free: Set<Position>, a: Position, b: Position, c: Position)
    requires
        connected(free, a, b),
        connected(free, b, c),
    ensures
        connected(free, a, c),
{
    let first = choose|walk: Seq<Position>| #[trigger] leads(free, walk, a, b);
    let second = choose|walk: Seq<Position>| #[trigger] leads(free, walk, b, c);
    let whole = first.drop_last() + second;
    let k = first.len() - 1;
    assert forall|i: int| 0 <= i < whole.len() - 1 implies (#[trigger] whole[i]).touches(
        whole[i + 1],
    ) by {
        if i < k - 1 {
            assert(first[i].touches(first[i + 1]));
        } else if i == k - 1 {
            assert(first[i].touches(first[i + 1]));
            assert(whole[i + 1] == second[0]);
        } else {
            assert(second[i - k].touches(second[i - k + 1]));
        }
    }
    assert(leads(free, whole, a, c));
}

/// Two free cells that touch are connected.
pub proof fn lemma_connected_touching(free: Set<Position>, a: Position, b: Position)
    requires
        free.contains(a),
        free.contains(b),
        a.touches(b),
    ensures
        connected(free, a, b),
        connected(free, b, a),
{
    lemma_connected_self(free, a);
    lemma_connected_step(free, a, a, b);
    lemma_connected_back(free, a, b);
}

/// A list of cells that holds `from` and, with each of its cells, every
/// free cell touching it, holds the whole region of `from`.
pub proof fn lemma_closed_list_holds_region(
    free: Set<Position>,
    from: Position,
    cells: Seq<Position>,
    to: Position,
)
    requires
        cells.contains(from),
        closed_from(free, cells, 0),
        connected(free, from, to),
    ensures
        cells.contains(to),
{
    let walk = choose|walk: Seq<Position>| #[trigger] leads(free, walk, from, to);
    lemma_walk_stays(free, cells, walk, walk.len() - 1);
}

/// A walk that starts in a closed list of cells stays in it.
proof fn lemma_walk_stays(free: Set<Position>, cells: Seq<Position>, walk: Seq<Position>, k: int)
    requires
        is_walk(free, walk),
        cells.contains(walk[0]),
        closed_from(free, cells, 0),
        0 <= k < walk.len(),
    ensures
        cells.contains(walk[k]),
    decreases k,
{
    if k > 0 {
        lemma_walk_stays(free, cells, walk, k - 1);
        let j = choose|j: int| 0 <= j < cells.len() && cells[j] == walk[k - 1];
        assert(walk[k - 1].touches(walk[k - 1 + 1]));
        assert(cells[j].touches(walk[k]));
        assert(free.contains(walk[k]));
    }
}

/// Different cells that all occur in `pool` are at most as many as `pool`
/// is long.
pub proof fn lemma_room_in_list(cells: Seq<Position>, pool: Seq<Position>)
    requires
        cells.no_duplicates(),
        forall|i: int| 0 <= i < cells.len() ==> pool.contains(#[trigger] cells[i]),
    ensures
        cells.len() <= pool.len(),
{
    cells.unique_seq_to_set();
    pool.lemma_cardinality_of_set();
    vstd::seq_lib::seq_to_set_is_finite(pool);
    assert(cells.to_set().subset_of(pool.to_set())) by {
        assert forall|p: Position| cells.to_set().contains(p) implies pool.to_set().contains(p) by {
            let i = choose|i: int| 0 <= i < cells.len() && cells[i] == p;
            assert(pool.contains(cells[i]));
        }
    }
    lemma_len_subset(cells.to_set(), pool.to_set());
}

/// What a list of cells says about the room in a region, when the list
/// holds different cells of the region of `from` and either has grown past
/// `cap` cells or is closed and holds `from`: the region has room for `n`
/// cells exactly when `n` is at most the length of the list, as far as `n`
/// does not go beyond `cap + 1`.
pub proof fn lemma_filled_list_measures_room(
    free: Set<Position>,
    from: Position,
    cells: Seq<Position>,
    cap: nat,
    n: nat,
)
    requires
        lists_region(free, from, cells),
        cells.len() <= cap + 1,
        cells.len() <= cap ==> cells.contains(from) && closed_from(free, cells, 0),
    ensures
        n > cells.len() <==> n > cap + 1 || !roomy(free, from, n),
{
    if n <= cells.len() {
        let part = cells.take(n as int);
        assert(lists_region(free, from, part));
        assert(roomy(free, from, n));
    } else if cells.len() <= cap {
        if roomy(free, from, n) {
            let other = choose|other: Seq<Position>| #[trigger]
                lists_region(free, from, other) && other.len() == n;
            assert forall|i: int| 0 <= i < other.len() implies cells.contains(
                #[trigger] other[i],
            ) by {
                lemma_closed_list_holds_region(free, from, cells, other[i]);
            }
            lemma_room_in_list(other, cells);
        }
    }
}

/// The number of a cell, counted through the grid.
spec fn cell_number(p: Position) -> int {
    (p.x + 128) * 65536 + (p.y + 128) * 256 + (p.z + 128)
}

/// The cell with a given number.
spec fn cell_of(number: int) -> Position {
    choose|p: Position| cell_number(p) == number
}

/// The grid is finite, and so is every set of cells.
pub proof fn lemma_cells_are_finite(cells: Set<Position>)
    ensures
        cells.finite(),
{
    let numbers = set_int_range(0, 16777216);
    lemma_int_range(0, 16777216);
    let grid = numbers.map(|number: int| cell_of(number));
    numbers.lemma_map_finite(|number: int| cell_of(number));
    assert(cells.subset_of(grid)) by {
        assert forall|p: Position| cells.contains(p) implies grid.contains(p) by {
            let number = cell_number(p);
            assert(numbers.contains(number));
            assert(cell_number(cell_of(number)) == number);
            assert(cell_of(number) == p);
        }
    }
    lemma_len_subset(cells, grid);
}

/// A finite set of cells can be listed: each of its cells once, and no
/// other cell.
pub proof fn lemma_list_of(cells: Set<Position>) -> (list: Seq<Position>)
    requires
        cells.finite(),
    ensures
        list.no_duplicates(),
        list.len() == cells.len(),
        forall|p: Position| cells.contains(p) <==> list.contains(p),
    decreases cells.len(),
{
    if cells.len() == 0 {
        assert(forall|p: Position| !cells.contains(p)) by {
            if exists|p: Position| cells.contains(p) {
                let p = choose|p: Position| cells.contains(p);
                assert(cells.remove(p).len() + 1 == cells.len());
            }
        }
        Seq::empty()
    } else {
        let one = cells.choose();
        let rest = lemma_list_of(cells.remove(one));
        let list = rest.push(one);
        assert forall|p: Position| cells.contains(p) <==> list.contains(p) by {
            if cells.contains(p) {
                if p == one {
                    assert(list[rest.len() as int] == p);
                } else {
                    assert(cells.remove(one).contains(p));
                    let i = choose|i: int| 0 <= i < rest.len() && rest[i] == p;
                    assert(list[i] == p);
                }
            }
            if list.contains(p) {
                let i = choose|i: int| 0 <= i < list.len() && list[i] == p;
                if i < rest.len() {
                    assert(rest.contains(rest[i]));
                }
            }
        }
        assert forall|i: int, j: int|
            0 <= i < list.len() && 0 <= j < list.len() && i != j implies list[i] != list[j] by {
            if i < rest.len() && j < rest.len() {
            } else if i < rest.len() {
                assert(rest.contains(rest[i]));
            } else {
                assert(rest.contains(rest[j]));
            }
        }
        list
    }
}

/// The room in a region is its size: the region of `from` has room for `n`
/// cells exactly if it has at least `n` cells.
pub proof fn lemma_room_is_size(free: Set<Position>, from: Position, n: nat)
    ensures
        region(free, from).finite(),
        roomy(free, from, n) <==> n <= region(free, from).len(),
{
    let whole = region(free, from);
    lemma_cells_are_finite(whole);
    if roomy(free, from, n) {
        let cells = choose|cells: Seq<Position>| #[trigger]
            lists_region(free, from, cells) && cells.len() == n;
        cells.unique_seq_to_set();
        assert(cells.to_set().subset_of(whole)) by {
            assert forall|p: Position| cells.to_set().contains(p) implies whole.contains(p) by {
                let i = choose|i: int| 0 <= i < cells.len() && cells[i] == p;
                assert(whole.contains(cells[i]));
            }
        }
        lemma_len_subset(cells.to_set(), whole);
    }
    if n <= whole.len() {
        let list = lemma_list_of(whole);
        let part = list.take(n as int);
        assert forall|i: int| 0 <= i < part.len() implies whole.contains(#[trigger] part[i]) by {
            assert(list.contains(list[i]));
        }
        assert(lists_region(free, from, part));
    }
}

/// The cells that touch an inner cell are its six neighbours.
pub proof fn lemma_touching_cells_are_around(p: Position, q: Position)
    requires
        p.inner(),
        p.touches(q),
    ensures
        exists|i: int| 0 <= i < 6 && #[trigger] p.around()[i] == q,
{
    lemma_touching_is_one_step(p, q);
}

} // verus!
