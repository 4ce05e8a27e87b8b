//! Grid cells and the counting functions that the layout invariant is
//! stated with: how often a machine id occurs, how many cells are empty,
//! and how many occupied cells repeat an id seen earlier in the grid.

use vstd::prelude::*;

verus! {

/// One cell of a facility grid: either empty floor or a single machine.
#[derive(Clone, Copy, Debug, PartialEq, Eq, Structural)]
pub enum Cell {
    Empty,
    Occupied(u64),
}

/// How many cells of `cells` hold machine `v`.
pub open spec fn id_count(cells: Seq<Cell>, v: u64) -> nat
    decreases cells.len(),
{
    if cells.len() == 0 {
        0
    } else {
        id_count(cells.drop_last(), v) + if cells.last() == Cell::Occupied(v) {
            1nat
        } else {
            0nat
        }
    }
}

/// How many cells of `cells` are empty.
pub open spec fn empty_count(cells: Seq<Cell>) -> nat
    decreases cells.len(),
{
    if cells.len() == 0 {
        0
    } else {
        empty_count(cells.drop_last()) + if cells.last() == Cell::Empty {
            1nat
        } else {
            0nat
        }
    }
}

/// How many occupied cells repeat a machine id that already occurs
/// somewhere earlier in the grid.
pub open spec fn dup_count(cells: Seq<Cell>) -> nat
    decreases cells.len(),
{
    if cells.len() == 0 {
        0
    } else {
        dup_count(cells.drop_last()) + match cells.last() {
            Cell::Occupied(v) => if id_count(cells.drop_last(), v) >= 1 {
                1nat
            } else {
                0nat
            },
            Cell::Empty => 0nat,
        }
    }
}

/// Machine `v` is placed somewhere in `cells`.
pub open spec fn has_id(cells: Seq<Cell>, v: u64) -> bool {
    id_count(cells, v) >= 1
}

/// No machine id occurs in two different cells.
pub open spec fn distinct_ids(cells: Seq<Cell>) -> bool {
    forall|v: u64| id_count(cells, v) <= 1
}

/// The index of the first cell holding machine `v` (meaningful only when
/// `has_id(cells, v)`).
pub open spec fn first_index(cells: Seq<Cell>, v: u64) -> int
    decreases cells.len(),
{
    if cells.len() == 0 {
        0
    } else if cells.first() == Cell::Occupied(v) {
        0
    } else {
        1 + first_index(cells.drop_first(), v)
    }
}

pub broadcast proof fn lemma_id_count_push(cells: Seq<Cell>, c: Cell, v: u64)
    ensures
        #[trigger] id_count(cells.push(c), v) == id_count(cells, v) + if c == Cell::Occupied(v) {
            1nat
        } else {
            0nat
        },
{
    assert(cells.push(c).drop_last() =~= cells);
}

pub broadcast proof fn lemma_empty_count_push(cells: Seq<Cell>, c: Cell)
    ensures
        #[trigger] empty_count(cells.push(c)) == empty_count(cells) + if c == Cell::Empty {
            1nat
        } else {
            0nat
        },
{
    assert(cells.push(c).drop_last() =~= cells);
}

pub broadcast proof fn lemma_dup_count_push(cells: Seq<Cell>, c: Cell)
    ensures
        #[trigger] dup_count(cells.push(c)) == dup_count(cells) + match c {
            Cell::Occupied(v) => if id_count(cells, v) >= 1 {
                1nat
            } else {
                0nat
            },
            Cell::Empty => 0nat,
        },
{
    assert(cells.push(c).drop_last() =~= cells);
}

pub proof fn lemma_id_count_update(cells: Seq<Cell>, i: int, c: Cell, v: u64)
    requires
        0 <= i < cells.len(),
    ensures
        id_count(cells.update(i, c), v) as int == id_count(cells, v) as int + (
        if c == Cell::Occupied(v) {
            1int
        } else {
            0int
        }) - (if cells[i] == Cell::Occupied(v) {
            1int
        } else {
            0int
        }),
    decreases cells.len(),
{
    if i == cells.len() - 1 {
        assert(cells.update(i, c).drop_last() =~= cells.drop_last());
    } else {
        lemma_id_count_update(cells.drop_last(), i, c, v);
        assert(cells.update(i, c).drop_last() =~= cells.drop_last().update(i, c));
        assert(cells.update(i, c).last() == cells.last());
    }
}

pub proof fn lemma_empty_count_update(cells: Seq<Cell>, i: int, c: Cell)
    requires
        0 <= i < cells.len(),
    ensures
        empty_count(cells.update(i, c)) as int == empty_count(cells) as int + (if c == Cell::Empty {
            1int
        } else {
            0int
        }) - (if cells[i] == Cell::Empty {
            1int
        } else {
            0int
        }),
    decreases cells.len(),
{
    if i == cells.len() - 1 {
        assert(cells.update(i, c).drop_last() =~= cells.drop_last());
    } else {
        lemma_empty_count_update(cells.drop_last(), i, c);
        assert(cells.update(i, c).drop_last() =~= cells.drop_last().update(i, c));
        assert(cells.update(i, c).last() == cells.last());
    }
}

/// A machine is counted at least once exactly when some cell holds it.
pub proof fn lemma_id_count_occurrence(cells: Seq<Cell>, v: u64)
    ensures
        has_id(cells, v) <==> exists|i: int| 0 <= i < cells.len() && cells[i] == Cell::Occupied(v),
    decreases cells.len(),
{
    if cells.len() > 0 {
        lemma_id_count_occurrence(cells.drop_last(), v);
        if has_id(cells, v) {
            if cells.last() == Cell::Occupied(v) {
                assert(cells[cells.len() - 1] == Cell::Occupied(v));
            } else {
                let i = choose|i: int|
                    0 <= i < cells.drop_last().len() && cells.drop_last()[i] == Cell::Occupied(v);
                assert(cells[i] == Cell::Occupied(v));
            }
        }
        if exists|i: int| 0 <= i < cells.len() && cells[i] == Cell::Occupied(v) {
            let i = choose|i: int| 0 <= i < cells.len() && cells[i] == Cell::Occupied(v);
            if i < cells.len() - 1 {
                assert(cells.drop_last()[i] == Cell::Occupied(v));
            }
        }
    }
}

/// Cell `i` repeats a machine id that already occurs earlier in the grid.
pub open spec fn repeated_at(cells: Seq<Cell>, i: int) -> bool {
    exists|v: u64| cells[i] == Cell::Occupied(v) && first_index(cells, v) < i
}

/// An occupied cell is a repeat exactly when its id already occurs in the
/// prefix before it.
pub proof fn lemma_repeated_at_prefix(cells: Seq<Cell>, i: int, v: u64)
    requires
        0 <= i < cells.len(),
        cells[i] == Cell::Occupied(v),
    ensures
        repeated_at(cells, i) <==> has_id(cells.subrange(0, i), v),
{
    lemma_id_count_occurrence(cells, v);
    assert(has_id(cells, v));
    lemma_first_index_valid(cells, v);
    let fi = first_index(cells, v);
    if repeated_at(cells, i) {
        let w = choose|w: u64| cells[i] == Cell::Occupied(w) && first_index(cells, w) < i;
        assert(w == v);
        assert(cells.subrange(0, i)[fi] == Cell::Occupied(v));
        lemma_id_count_occurrence(cells.subrange(0, i), v);
    }
    if has_id(cells.subrange(0, i), v) {
        lemma_id_count_occurrence(cells.subrange(0, i), v);
        let k = choose|k: int|
            0 <= k < cells.subrange(0, i).len() && cells.subrange(0, i)[k] == Cell::Occupied(v);
        assert(cells[k] == Cell::Occupied(v));
        assert(fi <= k);
    }
}

/// Two distinct cells holding the same machine make its count at least
/// two.
pub proof fn lemma_two_positions_two_count(cells: Seq<Cell>, v: u64, i: int, j: int)
    requires
        0 <= i < j < cells.len(),
        cells[i] == Cell::Occupied(v),
        cells[j] == Cell::Occupied(v),
    ensures
        id_count(cells, v) >= 2,
    decreases cells.len(),
{
    if j == cells.len() - 1 {
        assert(cells.drop_last()[i] == Cell::Occupied(v));
        lemma_id_count_occurrence(cells.drop_last(), v);
    } else {
        assert(cells.drop_last()[i] == Cell::Occupied(v));
        assert(cells.drop_last()[j] == Cell::Occupied(v));
        lemma_two_positions_two_count(cells.drop_last(), v, i, j);
    }
}

/// The index of the first occupied cell (meaningful only when some cell
/// is occupied).
pub open spec fn first_occupied(cells: Seq<Cell>) -> int
    decreases cells.len(),
{
    if cells.len() == 0 {
        0
    } else if cells.first() != Cell::Empty {
        0
    } else {
        1 + first_occupied(cells.drop_first())
    }
}

/// When some cell is occupied, the first occupied index is in range, is
/// occupied, and everything before it is empty.
pub proof fn lemma_first_occupied_valid(cells: Seq<Cell>)
    requires
        exists|i: int| 0 <= i < cells.len() && cells[i] != Cell::Empty,
    ensures
        0 <= first_occupied(cells) < cells.len(),
        cells[first_occupied(cells)] != Cell::Empty,
        forall|j: int| 0 <= j < first_occupied(cells) ==> cells[j] == Cell::Empty,
    decreases cells.len(),
{
    if cells.first() != Cell::Empty {
    } else {
        let i = choose|i: int| 0 <= i < cells.len() && cells[i] != Cell::Empty;
        assert(cells.drop_first()[i - 1] == cells[i]);
        lemma_first_occupied_valid(cells.drop_first());
        let fo = first_occupied(cells.drop_first());
        assert(cells[1 + fo] == cells.drop_first()[fo]);
        assert forall|j: int| 0 <= j < 1 + fo implies cells[j] == Cell::Empty by {
            if j >= 1 {
                assert(cells[j] == cells.drop_first()[j - 1]);
            }
        };
    }
}

/// A grid without repeated ids has duplicate count zero.
pub proof fn lemma_distinct_no_dups(cells: Seq<Cell>)
    requires
        distinct_ids(cells),
    ensures
        dup_count(cells) == 0,
    decreases cells.len(),
{
    if cells.len() > 0 {
        assert forall|v: u64| id_count(cells.drop_last(), v) <= 1 by {
            assert(id_count(cells, v) <= 1);
        };
        lemma_distinct_no_dups(cells.drop_last());
        if let Cell::Occupied(v) = cells.last() {
            assert(id_count(cells, v) <= 1);
        }
    }
}

/// There is an empty cell exactly when the empty count is positive.
pub proof fn lemma_empty_count_occurrence(cells: Seq<Cell>)
    ensures
        empty_count(cells) >= 1 <==> exists|i: int| 0 <= i < cells.len() && cells[i] == Cell::Empty,
    decreases cells.len(),
{
    if cells.len() > 0 {
        lemma_empty_count_occurrence(cells.drop_last());
        if empty_count(cells) >= 1 {
            if cells.last() == Cell::Empty {
                assert(cells[cells.len() - 1] == Cell::Empty);
            } else {
                let i = choose|i: int|
                    0 <= i < cells.drop_last().len() && cells.drop_last()[i] == Cell::Empty;
                assert(cells[i] == Cell::Empty);
            }
        }
        if exists|i: int| 0 <= i < cells.len() && cells[i] == Cell::Empty {
            let i = choose|i: int| 0 <= i < cells.len() && cells[i] == Cell::Empty;
            if i < cells.len() - 1 {
                assert(cells.drop_last()[i] == Cell::Empty);
            }
        }
    }
}

/// A prefix never holds more duplicates than the whole grid.
pub proof fn lemma_dup_count_prefix_mono(cells: Seq<Cell>, k: int)
    requires
        0 <= k <= cells.len(),
    ensures
        dup_count(cells.subrange(0, k)) <= dup_count(cells),
    decreases cells.len(),
{
    if k == cells.len() {
        assert(cells.subrange(0, k) =~= cells);
    } else {
        assert(cells.subrange(0, k) =~= cells.drop_last().subrange(0, k));
        lemma_dup_count_prefix_mono(cells.drop_last(), k);
    }
}

/// A cell that no earlier cell contradicts is the first occurrence.
pub proof fn lemma_first_index(cells: Seq<Cell>, v: u64, i: int)
    requires
        0 <= i < cells.len(),
        cells[i] == Cell::Occupied(v),
        forall|j: int| 0 <= j < i ==> cells[j] != Cell::Occupied(v),
    ensures
        first_index(cells, v) == i,
    decreases cells.len(),
{
    if i == 0 {
    } else {
        assert(cells.first() != Cell::Occupied(v));
        assert(cells.drop_first()[i - 1] == Cell::Occupied(v));
        assert(forall|j: int| 0 <= j < i - 1 ==> cells.drop_first()[j] != Cell::Occupied(v));
        lemma_first_index(cells.drop_first(), v, i - 1);
    }
}

/// The first occurrence really is an occurrence.
pub proof fn lemma_first_index_valid(cells: Seq<Cell>, v: u64)
    requires
        has_id(cells, v),
    ensures
        0 <= first_index(cells, v) < cells.len(),
        cells[first_index(cells, v)] == Cell::Occupied(v),
        forall|j: int| 0 <= j < first_index(cells, v) ==> cells[j] != Cell::Occupied(v),
    decreases cells.len(),
{
    lemma_id_count_occurrence(cells, v);
    let w = choose|i: int| 0 <= i < cells.len() && cells[i] == Cell::Occupied(v);
    if cells.first() == Cell::Occupied(v) {
    } else {
        assert(cells.drop_first()[w - 1] == Cell::Occupied(v));
        assert(id_count(cells.drop_first(), v) >= 1) by {
            lemma_id_count_occurrence(cells.drop_first(), v);
        }
        lemma_first_index_valid(cells.drop_first(), v);
        assert(forall|j: int| 1 <= j < first_index(cells, v) ==> cells[j] == cells.drop_first()[
            j - 1
        ] && cells[j] != Cell::Occupied(v));
    }
}

} // verus!
