//! A binary heap of frontier entries on a vector: the entry that comes
//! first is at the front.

use super::a_star::entry_le;
use crate::traits::computable_grid::{key_order, ComputeGridNode};
use vstd::multiset::Multiset;
use vstd::prelude::*;

verus! {

broadcast use vstd::seq_lib::group_to_multiset_ensures;

/// The place above place `i` of a heap.
pub open spec fn above(i: int) -> int {
    (i - 1) / 2
}

/// Whether no entry of `heap` comes before the entry above it.
pub open spec fn is_heap(heap: Seq<(u128, ComputeGridNode)>) -> bool {
    forall|i: int| 0 < i < heap.len() ==> entry_le(heap[above(i)], #[trigger] heap[i])
}

/// Whether `heap` is a heap but for the entry at `hole`, which may come
/// before the entry above it; the entries below `hole` fit the entry above it.
pub open spec fn is_heap_above(heap: Seq<(u128, ComputeGridNode)>, hole: int) -> bool {
    &&& forall|i: int|
        0 < i < heap.len() && i != hole ==> entry_le(heap[above(i)], #[trigger] heap[i])
    &&& forall|i: int|
        0 < i < heap.len() && above(i) == hole && hole > 0 ==> entry_le(
            heap[above(hole)],
            #[trigger] heap[i],
        )
}

/// Whether `heap` is a heap but for the entry at `hole`, which may come
/// after the entries below it; the entries below `hole` fit the entry above it.
pub open spec fn is_heap_below(heap: Seq<(u128, ComputeGridNode)>, hole: int) -> bool {
    &&& forall|i: int|
        0 < i < heap.len() && above(i) != hole ==> entry_le(heap[above(i)], #[trigger] heap[i])
    &&& forall|i: int|
        0 < i < heap.len() && above(i) == hole && hole > 0 ==> entry_le(
            heap[above(hole)],
            #[trigger] heap[i],
        )
}

/// The order of entries is total: of two entries one comes first, and of
/// three the first comes before the last.
pub proof fn entries_are_ordered(
    a: (u128, ComputeGridNode),
    b: (u128, ComputeGridNode),
    c: (u128, ComputeGridNode),
)
    ensures
        entry_le(a, b) || entry_le(b, a),
        entry_le(a, b) && entry_le(b, c) ==> entry_le(a, c),
        entry_le(a, b) && entry_le(b, a) ==> a == b,
{
    key_order(a.1, b.1);
}

/// No entry of a heap comes before its first.
pub proof fn first_of_heap_is_lowest(heap: Seq<(u128, ComputeGridNode)>, i: int)
    requires
        is_heap(heap),
        0 <= i < heap.len(),
    ensures
        entry_le(heap[0], heap[i]),
    decreases i,
{
    if i > 0 {
        first_of_heap_is_lowest(heap, above(i));
        entries_are_ordered(heap[0], heap[above(i)], heap[i]);
    } else {
        entries_are_ordered(heap[0], heap[0], heap[0]);
    }
}

fn comes_before(a: &(u128, ComputeGridNode), b: &(u128, ComputeGridNode)) -> (before: bool)
    ensures
        before == !entry_le(*b, *a),
{
    proof {
        key_order(a.1, b.1);
    }
    a.0 < b.0 || (a.0 == b.0 && a.1.key() < b.1.key())
}

fn swap_entries(heap: &mut Vec<(u128, ComputeGridNode)>, i: usize, j: usize)
    requires
        i < old(heap)@.len(),
        j < old(heap)@.len(),
    ensures
        final(heap)@ == old(heap)@.update(i as int, old(heap)@[j as int]).update(
            j as int,
            old(heap)@[i as int],
        ),
        final(heap)@.to_multiset() == old(heap)@.to_multiset(),
{
    let a = heap[i];
    let b = heap[j];
    heap.set(i, b);
    heap.set(j, a);
    proof {
        let before = old(heap)@;
        let middle = before.update(i as int, b);
        assert(heap@ =~= middle.update(j as int, a));
        assert(middle.to_multiset() =~= before.to_multiset().remove(a).insert(b));
        assert(heap@.to_multiset() =~= middle.to_multiset().remove(middle[j as int]).insert(a));
        if i == j {
            assert(heap@.to_multiset() =~= before.to_multiset());
        } else {
            assert(middle[j as int] == b);
            assert(heap@.to_multiset() =~= before.to_multiset());
        }
    }
}

/// Lets the entry at `hole` rise to its place.
fn sift_up(heap: &mut Vec<(u128, ComputeGridNode)>, hole: usize)
    requires
        hole < old(heap)@.len(),
        is_heap_above(old(heap)@, hole as int),
    ensures
        is_heap(final(heap)@),
        final(heap)@.to_multiset() == old(heap)@.to_multiset(),
        final(heap)@.len() == old(heap)@.len(),
{
    let mut i = hole;
    while i > 0
        invariant
            i < heap@.len(),
            heap@.len() == old(heap)@.len(),
            is_heap_above(heap@, i as int),
            heap@.to_multiset() == old(heap)@.to_multiset(),
        ensures
            is_heap(heap@),
            heap@.len() == old(heap)@.len(),
            heap@.to_multiset() == old(heap)@.to_multiset(),
        decreases i,
    {
        let up = (i - 1) / 2;
        if !comes_before(&heap[i], &heap[up]) {
            break ;
        }
        let ghost before = heap@;
        swap_entries(heap, i, up);
        proof {
            let after = heap@;
            assert forall|j: int| 0 < j < after.len() && j != up implies entry_le(
                after[above(j)],
                #[trigger] after[j],
            ) by {
                entries_are_ordered(before[i as int], before[up as int], before[j]);
                if j == i {
                } else if above(j) == up {
                    assert(entry_le(before[above(j)], before[j]));
                } else if above(j) == i {
                    assert(entry_le(before[above(i as int)], before[j]));
                } else {
                    assert(entry_le(before[above(j)], before[j]));
                }
            }
            assert forall|j: int| 0 < j < after.len() && above(j) == up && up > 0 implies entry_le(
                after[above(up as int)],
                #[trigger] after[j],
            ) by {
                assert(entry_le(before[above(up as int)], before[up as int]));
                if j == i {
                } else {
                    assert(entry_le(before[above(j)], before[j]));
                    entries_are_ordered(before[above(up as int)], before[up as int], before[j]);
                }
            }
        }
        i = up;
    }
}

/// Lets the entry at `hole` sink to its place.
fn sift_down(heap: &mut Vec<(u128, ComputeGridNode)>, hole: usize)
    requires
        hole < old(heap)@.len(),
        is_heap_below(old(heap)@, hole as int),
    ensures
        is_heap(final(heap)@),
        final(heap)@.to_multiset() == old(heap)@.to_multiset(),
        final(heap)@.len() == old(heap)@.len(),
{
    let len = heap.len();
    let mut i = hole;
    loop
        invariant
            i < len,
            len == heap@.len(),
            heap@.len() == old(heap)@.len(),
            is_heap_below(heap@, i as int),
            heap@.to_multiset() == old(heap)@.to_multiset(),
        ensures
            is_heap(heap@),
            heap@.len() == old(heap)@.len(),
            heap@.to_multiset() == old(heap)@.to_multiset(),
        decreases len - i,
    {
        if len - 1 - i <= i {
            // no entry below
            assert forall|j: int| 0 < j < heap@.len() implies entry_le(
                heap@[above(j)],
                #[trigger] heap@[j],
            ) by {}
            break ;
        }
        let left = 2 * i + 1;
        let mut least = left;
        if left + 1 < len && comes_before(&heap[left + 1], &heap[left]) {
            least = left + 1;
        }
        if !comes_before(&heap[least], &heap[i]) {
            assert forall|j: int| 0 < j < heap@.len() implies entry_le(
                heap@[above(j)],
                #[trigger] heap@[j],
            ) by {
                if above(j) == i {
                    entries_are_ordered(heap@[i as int], heap@[least as int], heap@[j]);
                    entries_are_ordered(heap@[left as int], heap@[left + 1], heap@[left + 1]);
                }
            }
            break ;
        }
        let ghost before = heap@;
        swap_entries(heap, i, least);
        proof {
            let after = heap@;
            entries_are_ordered(before[left as int], before[least as int], before[i as int]);
            if left + 1 < len {
                entries_are_ordered(before[left + 1], before[least as int], before[i as int]);
                entries_are_ordered(before[left as int], before[left + 1], before[left as int]);
            }
            assert forall|j: int| 0 < j < after.len() && above(j) != least implies entry_le(
                after[above(j)],
                #[trigger] after[j],
            ) by {
                if j == least {
                } else if above(j) == i {
                } else if j == i {
                    assert(entry_le(before[above(i as int)], before[least as int]));
                } else {
                    assert(entry_le(before[above(j)], before[j]));
                }
            }
            assert forall|j: int|
                0 < j < after.len() && above(j) == least && least > 0 implies entry_le(
                after[above(least as int)],
                #[trigger] after[j],
            ) by {
                assert(entry_le(before[above(j)], before[j]));
            }
        }
        i = least;
    }
}

/// Adds `entry` to the heap.
pub fn heap_push(heap: &mut Vec<(u128, ComputeGridNode)>, entry: (u128, ComputeGridNode))
    requires
        is_heap(old(heap)@),
    ensures
        is_heap(final(heap)@),
        final(heap)@.to_multiset() == old(heap)@.to_multiset().insert(entry),
{
    heap.push(entry);
    let hole = heap.len() - 1;
    proof {
        let before = old(heap)@;
        let after = heap@;
        assert forall|i: int| 0 < i < after.len() && i != hole implies entry_le(
            after[above(i)],
            #[trigger] after[i],
        ) by {
            assert(entry_le(before[above(i)], before[i]));
        }
    }
    sift_up(heap, hole);
}

/// Takes the entry that comes first out of the heap.
pub fn heap_pop(heap: &mut Vec<(u128, ComputeGridNode)>) -> (first: Option<
    (u128, ComputeGridNode),
>)
    requires
        is_heap(old(heap)@),
    ensures
        is_heap(final(heap)@),
        match first {
            Some(entry) => {
                &&& old(heap)@.len() > 0
                &&& entry == old(heap)@[0]
                &&& forall|i: int|
                    0 <= i < old(heap)@.len() ==> entry_le(entry, #[trigger] old(heap)@[i])
                &&& final(heap)@.to_multiset() == old(heap)@.to_multiset().remove(entry)
                &&& final(heap)@.len() + 1 == old(heap)@.len()
            },
            None => old(heap)@.len() == 0 && final(heap)@ == old(heap)@,
        },
{
    if heap.len() == 0 {
        return None;
    }
    let ghost before = heap@;
    let first = heap[0];
    proof {
        assert forall|i: int| 0 <= i < before.len() implies entry_le(first, #[trigger] before[i]) by {
            first_of_heap_is_lowest(before, i);
        }
    }
    let last = match heap.pop() {
        Some(last) => last,
        None => {
            return None;
        },
    };
    let ghost shorter = heap@;
    proof {
        assert(shorter =~= before.drop_last());
        assert(before =~= shorter.push(last));
        assert(before.to_multiset() =~= shorter.to_multiset().insert(last));
    }
    if heap.len() == 0 {
        proof {
            assert(shorter.to_multiset() =~= before.to_multiset().remove(first));
        }
        return Some(first);
    }
    heap.set(0, last);
    proof {
        let after = heap@;
        assert(after =~= shorter.update(0, last));
        assert(after.to_multiset() =~= shorter.to_multiset().remove(first).insert(last));
        assert(after.to_multiset() =~= before.to_multiset().remove(first));
        assert forall|i: int| 0 < i < after.len() && above(i) != 0 implies entry_le(
            after[above(i)],
            #[trigger] after[i],
        ) by {
            assert(entry_le(before[above(i)], before[i]));
        }
    }
    sift_down(heap, 0);
    Some(first)
}

} // verus!
