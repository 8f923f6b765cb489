//! A binary heap of matches, lowest-ranking first.

use vstd::prelude::*;

use crate::bytes::lemma_bytes_lt_total;
use crate::topk::{entries, rank_is_asymmetric, rank_is_transitive, ranks_below, Entry, Scored};

verus! {

/// The item at `i` does not rank below its parent in the heap.
pub open spec fn above_parent(v: Seq<Scored>, i: int) -> bool {
    !ranks_below(v[i]@, v[(i - 1) / 2]@)
}

/// `v` is a heap.
pub open spec fn is_heap(v: Seq<Scored>) -> bool {
    forall|i: int| 0 < i < v.len() ==> #[trigger] above_parent(v, i)
}

/// No item of a heap ranks below its first.
pub proof fn lemma_first_is_lowest(v: Seq<Scored>, i: int)
    requires
        is_heap(v),
        0 <= i < v.len(),
    ensures
        !ranks_below(v[i]@, v[0]@),
    decreases i,
{
    lemma_bytes_lt_total(v[0]@.prefix, v[0]@.prefix);
    if i > 0 {
        lemma_first_is_lowest(v, (i - 1) / 2);
        assert(above_parent(v, i));
        rank_is_transitive(v[0]@, v[(i - 1) / 2]@, v[i]@);
    }
}

/// Swapping two items keeps the multiset of the values.
proof fn lemma_swap_keeps_values(v: Seq<Scored>, i: int, j: int)
    requires
        0 <= i < j < v.len(),
    ensures
        entries(v.update(i, v[j]).update(j, v[i])).to_multiset() == entries(v).to_multiset(),
{
    broadcast use vstd::seq_lib::group_to_multiset_ensures;
    let e = entries(v);
    let first = e.update(i, e[j]);
    assert(entries(v.update(i, v[j]).update(j, v[i])) =~= first.update(j, e[i]));
    assert(first.to_multiset() =~= e.to_multiset().insert(e[j]).remove(e[i]));
    assert(first.update(j, e[i]).to_multiset() =~= first.to_multiset().insert(e[i]).remove(e[j]));
    assert(first.update(j, e[i]).to_multiset() =~= e.to_multiset());
}

/// Swaps the items at `i` and `j`.
pub fn swap_items(v: &mut Vec<Scored>, i: usize, j: usize)
    requires
        i < j < old(v)@.len(),
    ensures
        final(v)@ == old(v)@.update(i as int, old(v)@[j as int]).update(
            j as int,
            old(v)@[i as int],
        ),
        entries(final(v)@).to_multiset() == entries(old(v)@).to_multiset(),
{
    let (left, right) = v.as_mut_slice().split_at_mut(j);
    std::mem::swap(&mut left[i], &mut right[0]);
    proof {
        let before = old(v)@;
        assert(v@ =~= before.update(i as int, before[j as int]).update(j as int, before[i as int]));
        lemma_swap_keeps_values(before, i as int, j as int);
    }
}

/// Every item but the one at `hole` is above its parent, and the children of
/// `hole` are above the parent of `hole`.
spec fn heap_but_above(v: Seq<Scored>, hole: int) -> bool {
    &&& forall|i: int| 0 < i < v.len() && i != hole ==> #[trigger] above_parent(v, i)
    &&& forall|i: int|
        0 < i < v.len() && (i - 1) / 2 == hole && hole > 0 ==> !ranks_below(
            (#[trigger] v[i])@,
            v[(hole - 1) / 2]@,
        )
}

/// Every item but the children of `hole` is above its parent, and the children
/// of `hole` are above the parent of `hole`.
spec fn heap_but_below(v: Seq<Scored>, hole: int) -> bool {
    &&& forall|i: int| 0 < i < v.len() && (i - 1) / 2 != hole ==> #[trigger] above_parent(v, i)
    &&& forall|i: int|
        0 < i < v.len() && (i - 1) / 2 == hole && hole > 0 ==> !ranks_below(
            (#[trigger] v[i])@,
            v[(hole - 1) / 2]@,
        )
}

/// Swapping an item with the parent that it ranks below moves the hole up.
proof fn lemma_hole_up(v: Seq<Scored>, hole: int)
    requires
        heap_but_above(v, hole),
        0 < hole < v.len(),
        ranks_below(v[hole]@, v[(hole - 1) / 2]@),
    ensures
        heap_but_above(
            v.update((hole - 1) / 2, v[hole]).update(hole, v[(hole - 1) / 2]),
            (hole - 1) / 2,
        ),
{
    let up = (hole - 1) / 2;
    let w = v.update(up, v[hole]).update(hole, v[up]);
    rank_is_asymmetric(v[hole]@, v[up]@);
    if up > 0 {
        assert(above_parent(v, up));
    }
    assert forall|i: int| 0 < i < w.len() && i != up implies #[trigger] above_parent(w, i) by {
        if i == hole {
        } else if (i - 1) / 2 == hole {
            assert(!ranks_below(v[i]@, v[up]@));
        } else if (i - 1) / 2 == up {
            assert(above_parent(v, i));
            rank_is_transitive(v[hole]@, v[up]@, v[i]@);
        } else {
            assert(above_parent(v, i));
        }
    }
    assert forall|i: int|
        0 < i < w.len() && (i - 1) / 2 == up && up > 0 implies !ranks_below(
        (#[trigger] w[i])@,
        w[(up - 1) / 2]@,
    ) by {
        let top = (up - 1) / 2;
        if i != hole {
            assert(above_parent(v, i));
            rank_is_transitive(v[top]@, v[up]@, v[i]@);
        }
    }
}

/// Moves the item at `at` up to its place.
fn sift_up(v: &mut Vec<Scored>, at: usize)
    requires
        at < old(v)@.len(),
        heap_but_above(old(v)@, at as int),
    ensures
        is_heap(final(v)@),
        final(v)@.len() == old(v)@.len(),
        entries(final(v)@).to_multiset() == entries(old(v)@).to_multiset(),
{
    let mut hole: usize = at;
    while hole > 0
        invariant_except_break
            heap_but_above(v@, hole as int),
        invariant
            hole < v@.len(),
            v@.len() == old(v)@.len(),
            entries(v@).to_multiset() == entries(old(v)@).to_multiset(),
        ensures
            is_heap(v@),
        decreases hole,
    {
        let up: usize = (hole - 1) / 2;
        if !v[hole].is_below(&v[up]) {
            assert(above_parent(v@, hole as int));
            break;
        }
        proof {
            lemma_hole_up(v@, hole as int);
        }
        swap_items(v, up, hole);
        hole = up;
    }
}

/// Swapping an item with its lowest child, which ranks below it, moves the hole
/// down.
proof fn lemma_hole_down(v: Seq<Scored>, hole: int, child: int)
    requires
        heap_but_below(v, hole),
        0 <= hole < child < v.len(),
        (child - 1) / 2 == hole,
        ranks_below(v[child]@, v[hole]@),
        forall|i: int|
            0 < i < v.len() && (i - 1) / 2 == hole ==> !ranks_below(
                (#[trigger] v[i])@,
                v[child]@,
            ),
    ensures
        heap_but_below(v.update(hole, v[child]).update(child, v[hole]), child),
{
    let w = v.update(hole, v[child]).update(child, v[hole]);
    rank_is_asymmetric(v[child]@, v[hole]@);
    assert forall|i: int| 0 < i < w.len() && (i - 1) / 2 != child implies #[trigger] above_parent(
        w,
        i,
    ) by {
        if i == child {
        } else if (i - 1) / 2 == hole {
            assert(!ranks_below(v[i]@, v[child]@));
        } else if i == hole {
            assert(!ranks_below(v[child]@, v[(hole - 1) / 2]@));
        } else {
            assert(above_parent(v, i));
        }
    }
    assert forall|i: int| 0 < i < w.len() && (i - 1) / 2 == child && child > 0 implies !ranks_below(
        (#[trigger] w[i])@,
        w[(child - 1) / 2]@,
    ) by {
        assert(above_parent(v, i));
    }
}

/// Moves the item at `at` down to its place.
fn sift_down(v: &mut Vec<Scored>, at: usize)
    requires
        heap_but_below(old(v)@, at as int),
    ensures
        is_heap(final(v)@),
        final(v)@.len() == old(v)@.len(),
        entries(final(v)@).to_multiset() == entries(old(v)@).to_multiset(),
{
    let n: usize = v.len();
    let mut hole: usize = at;
    while hole < n / 2
        invariant_except_break
            heap_but_below(v@, hole as int),
        invariant
            n == v@.len(),
            v@.len() == old(v)@.len(),
            entries(v@).to_multiset() == entries(old(v)@).to_multiset(),
        ensures
            is_heap(v@),
        decreases n - hole,
    {
        let left: usize = 2 * hole + 1;
        let mut child: usize = left;
        if left + 1 < n && v[left + 1].is_below(&v[left]) {
            child = left + 1;
        }
        proof {
            lemma_bytes_lt_total(v@[child as int]@.prefix, v@[child as int]@.prefix);
            if child == left + 1 {
                rank_is_asymmetric(v@[child as int]@, v@[left as int]@);
            }
            assert forall|i: int| 0 < i < v@.len() && (i - 1) / 2 == hole implies !ranks_below(
                (#[trigger] v@[i])@,
                v@[child as int]@,
            ) by {
                assert(i == left || i == left + 1);
            }
        }
        if !v[child].is_below(&v[hole]) {
            proof {
                assert forall|i: int| 0 < i < v@.len() implies #[trigger] above_parent(v@, i) by {
                    if (i - 1) / 2 == hole {
                        rank_is_transitive(v@[hole as int]@, v@[child as int]@, v@[i]@);
                    }
                }
            }
            break;
        }
        proof {
            lemma_hole_down(v@, hole as int, child as int);
        }
        swap_items(v, hole, child);
        hole = child;
    }
}

/// Adds `item` to the heap.
pub fn push(v: &mut Vec<Scored>, item: Scored)
    requires
        is_heap(old(v)@),
    ensures
        is_heap(final(v)@),
        final(v)@.len() == old(v)@.len() + 1,
        entries(final(v)@).to_multiset() == entries(old(v)@).to_multiset().insert(item@),
{
    let at: usize = v.len();
    v.push(item);
    proof {
        broadcast use vstd::seq_lib::group_to_multiset_ensures;
        assert(entries(v@) =~= entries(old(v)@).push(item@));
        assert forall|i: int| 0 < i < v@.len() && i != at implies #[trigger] above_parent(v@, i) by {
            assert(above_parent(old(v)@, i));
        }
    }
    sift_up(v, at);
}

/// Takes a lowest-ranking item out of the heap.
pub fn pop(v: &mut Vec<Scored>) -> (r: Scored)
    requires
        is_heap(old(v)@),
        old(v)@.len() > 0,
    ensures
        is_heap(final(v)@),
        r == old(v)@[0],
        final(v)@.len() == old(v)@.len() - 1,
        entries(old(v)@).to_multiset().contains(r@),
        entries(final(v)@).to_multiset() == entries(old(v)@).to_multiset().remove(r@),
{
    let r: Scored = v.swap_remove(0);
    proof {
        broadcast use vstd::seq_lib::group_to_multiset_ensures;
        let before = entries(old(v)@);
        assert(before[0] == r@);
        assert(before.to_multiset().contains(r@));
        let moved = before.update(0, before.last());
        assert(entries(v@) =~= moved.drop_last());
        assert(moved.to_multiset() =~= before.to_multiset().insert(before.last()).remove(r@));
        assert(moved =~= moved.drop_last().push(before.last()));
        assert(moved.to_multiset() =~= moved.drop_last().to_multiset().insert(before.last()));
        let rest = moved.drop_last().to_multiset();
        assert forall|x: Entry| rest.count(x) == before.to_multiset().remove(r@).count(x) by {
            assert(rest.insert(before.last()).count(x) == before.to_multiset().insert(
                before.last(),
            ).remove(r@).count(x));
        }
        assert(rest =~= before.to_multiset().remove(r@));
        assert forall|i: int| 0 < i < v@.len() && (i - 1) / 2 != 0 implies #[trigger] above_parent(
            v@,
            i,
        ) by {
            assert(above_parent(old(v)@, i));
        }
    }
    sift_down(v, 0);
    r
}

/// Turns the order of the items round.
pub fn reverse(v: &mut Vec<Scored>)
    ensures
        final(v)@ == old(v)@.reverse(),
        entries(final(v)@).to_multiset() == entries(old(v)@).to_multiset(),
{
    let n: usize = v.len();
    let mut i: usize = 0;
    while i < n / 2
        invariant
            i <= n / 2,
            n == v@.len() == old(v)@.len(),
            forall|j: int| 0 <= j < i ==> #[trigger] v@[j] == old(v)@[n - 1 - j],
            forall|j: int| n - i <= j < n ==> #[trigger] v@[j] == old(v)@[n - 1 - j],
            forall|j: int| i <= j < n - i ==> #[trigger] v@[j] == old(v)@[j],
            entries(v@).to_multiset() == entries(old(v)@).to_multiset(),
        decreases n / 2 - i,
    {
        swap_items(v, i, n - 1 - i);
        i += 1;
    }
    assert(v@ =~= old(v)@.reverse());
}

} // verus!
