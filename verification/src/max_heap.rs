//! A binary max-heap of entries, kept in a vector: the parent of position `i`
//! is position `(i - 1) / 2`, and no entry is greater than its parent.

use vstd::prelude::*;
use vstd::multiset::{group_multiset_axioms, Multiset};
use vstd::seq_lib::group_to_multiset_ensures;
use crate::entry::{entry_at_most, entry_le, is_greatest};

verus! {

/// The entry at `i` is not greater than the entry at its parent position.
spec fn parent_holds(s: Seq<(i32, usize)>, i: int) -> bool {
    entry_le(s[i], s[(i - 1) / 2])
}

/// The entry at `i` is not greater than the entry two levels above it.
spec fn grandparent_holds(s: Seq<(i32, usize)>, i: int) -> bool {
    entry_le(s[i], s[((i - 1) / 2 - 1) / 2])
}

/// Every entry but the root is bounded by its parent.
spec fn heap_ordered(s: Seq<(i32, usize)>) -> bool {
    forall|i: int| 1 <= i < s.len() ==> #[trigger] parent_holds(s, i)
}

/// Every entry but the root and the one at `hole` is bounded by its parent:
/// the entry at `hole` may be too great for its place.
spec fn ordered_but_at(s: Seq<(i32, usize)>, hole: int) -> bool {
    forall|i: int| 1 <= i < s.len() && i != hole ==> #[trigger] parent_holds(s, i)
}

/// Every entry but the root and the children of `hole` is bounded by its
/// parent: the entry at `hole` may be too small for its place.
spec fn ordered_but_below(s: Seq<(i32, usize)>, hole: int) -> bool {
    forall|i: int| 1 <= i < s.len() && (i - 1) / 2 != hole ==> #[trigger] parent_holds(s, i)
}

/// The children of `hole` are bounded by the parent of `hole`, so that heap
/// order would hold if the entry at `hole` were taken out of the chain.
spec fn children_fit(s: Seq<(i32, usize)>, hole: int) -> bool {
    forall|c: int|
        1 <= c < s.len() && (c - 1) / 2 == hole && hole >= 1 ==> #[trigger] grandparent_holds(s, c)
}

/// In a heap-ordered sequence the root bounds the entry at every position.
proof fn lemma_root_bounds_position(s: Seq<(i32, usize)>, i: int)
    requires
        heap_ordered(s),
        0 <= i < s.len(),
    ensures
        entry_le(s[i], s[0]),
    decreases i,
{
    if i > 0 {
        assert(parent_holds(s, i));
        lemma_root_bounds_position(s, (i - 1) / 2);
    }
}

/// The root of a heap-ordered sequence is the greatest of its entries.
proof fn lemma_root_is_greatest(s: Seq<(i32, usize)>)
    requires
        heap_ordered(s),
        s.len() >= 1,
    ensures
        is_greatest(s.to_multiset(), s[0]),
{
    broadcast use group_to_multiset_ensures;

    assert(s.contains(s[0]));
    assert forall|e: (i32, usize)| s.to_multiset().count(e) > 0 implies entry_le(e, s[0]) by {
        assert(s.contains(e));
        let i = choose|i: int| 0 <= i < s.len() && s[i] == e;
        lemma_root_bounds_position(s, i);
    }
}

/// Exchanging two positions keeps the entries as a multiset.
proof fn lemma_exchange_keeps_entries(s: Seq<(i32, usize)>, i: int, j: int)
    requires
        0 <= i < s.len(),
        0 <= j < s.len(),
    ensures
        s.update(i, s[j]).update(j, s[i]).to_multiset() == s.to_multiset(),
{
    broadcast use group_to_multiset_ensures;
    broadcast use group_multiset_axioms;

    let mid = s.update(i, s[j]);
    assert(mid.to_multiset() == s.to_multiset().insert(s[j]).remove(s[i]));
    assert(mid.update(j, s[i]).to_multiset() == mid.to_multiset().insert(s[i]).remove(mid[j]));
    assert(s.to_multiset().count(s[i]) > 0) by {
        assert(s.contains(s[i]));
    }
    assert(s.to_multiset().count(s[j]) > 0) by {
        assert(s.contains(s[j]));
    }
    assert(mid.update(j, s[i]).to_multiset() =~= s.to_multiset());
}

/// Exchanging a too-great entry with its smaller parent moves the fault one
/// level up.
proof fn lemma_rise(s: Seq<(i32, usize)>, i: int)
    requires
        1 <= i < s.len(),
        ordered_but_at(s, i),
        children_fit(s, i),
        !parent_holds(s, i),
    ensures
        ordered_but_at(s.update(i, s[(i - 1) / 2]).update((i - 1) / 2, s[i]), (i - 1) / 2),
        children_fit(s.update(i, s[(i - 1) / 2]).update((i - 1) / 2, s[i]), (i - 1) / 2),
{
    let p = (i - 1) / 2;
    let after = s.update(i, s[p]).update(p, s[i]);
    assert forall|j: int| 1 <= j < after.len() && j != p implies #[trigger] parent_holds(
        after,
        j,
    ) by {
        if j == i {
        } else if (j - 1) / 2 == i {
            assert(grandparent_holds(s, j));
        } else {
            assert(parent_holds(s, j));
        }
    }
    assert forall|c: int|
        1 <= c < after.len() && (c - 1) / 2 == p && p >= 1 implies #[trigger] grandparent_holds(
        after,
        c,
    ) by {
        assert(parent_holds(s, p));
        if c != i {
            assert(parent_holds(s, c));
        }
    }
}

/// Exchanging a too-small entry with its greatest child moves the fault one
/// level down.
proof fn lemma_sink(s: Seq<(i32, usize)>, i: int, child: int)
    requires
        0 <= i,
        child < s.len(),
        child == 2 * i + 1 || child == 2 * i + 2,
        ordered_but_below(s, i),
        children_fit(s, i),
        forall|c: int| 1 <= c < s.len() && (c - 1) / 2 == i ==> entry_le(#[trigger] s[c], s[child]),
        !entry_le(s[child], s[i]),
    ensures
        ordered_but_below(s.update(i, s[child]).update(child, s[i]), child),
        children_fit(s.update(i, s[child]).update(child, s[i]), child),
{
    let after = s.update(i, s[child]).update(child, s[i]);
    assert forall|j: int|
        1 <= j < after.len() && (j - 1) / 2 != child implies #[trigger] parent_holds(after, j) by {
        if j == i {
            assert(grandparent_holds(s, child));
        } else if (j - 1) / 2 == i {
            assert(entry_le(s[j], s[child]));
        } else {
            assert(parent_holds(s, j));
        }
    }
    assert forall|c: int|
        1 <= c < after.len() && (c - 1) / 2 == child && child >= 1
        implies #[trigger] grandparent_holds(after, c) by {
        assert(parent_holds(s, c));
    }
}

/// Exchanges the entries at two positions.
fn exchange(items: &mut Vec<(i32, usize)>, i: usize, j: usize)
    requires
        i < old(items).len(),
        j < old(items).len(),
    ensures
        final(items)@ == old(items)@.update(i as int, old(items)@[j as int]).update(
            j as int,
            old(items)@[i as int],
        ),
        final(items)@.to_multiset() == old(items)@.to_multiset(),
{
    let a = items[i];
    let b = items[j];
    items[i] = b;
    items[j] = a;
    proof {
        lemma_exchange_keeps_entries(old(items)@, i as int, j as int);
    }
}

/// Appends `entry` and lets it rise until its parent bounds it.
fn push_ordered(items: &mut Vec<(i32, usize)>, entry: (i32, usize))
    requires
        heap_ordered(old(items)@),
    ensures
        heap_ordered(final(items)@),
        final(items)@.to_multiset() == old(items)@.to_multiset().insert(entry),
{
    items.push(entry);
    let mut i: usize = items.len() - 1;
    proof {
        broadcast use group_to_multiset_ensures;

        assert forall|j: int| 1 <= j < items@.len() && j != i implies #[trigger] parent_holds(
            items@,
            j,
        ) by {
            assert(parent_holds(old(items)@, j));
        }
    }
    while i > 0
        invariant
            i < items.len(),
            items@.to_multiset() == old(items)@.to_multiset().insert(entry),
            ordered_but_at(items@, i as int),
            children_fit(items@, i as int),
        ensures
            heap_ordered(items@),
            items@.to_multiset() == old(items)@.to_multiset().insert(entry),
        decreases i,
    {
        let parent: usize = (i - 1) / 2;
        if entry_at_most(items[i], items[parent]) {
            assert(parent_holds(items@, i as int));
            break;
        }
        proof {
            lemma_rise(items@, i as int);
        }
        exchange(items, i, parent);
        i = parent;
    }
}

/// Moves the last entry to the root, lets it sink below any greater child,
/// and returns the former root.
fn pop_ordered(items: &mut Vec<(i32, usize)>) -> (top: (i32, usize))
    requires
        heap_ordered(old(items)@),
        old(items).len() >= 1,
    ensures
        heap_ordered(final(items)@),
        top == old(items)@[0],
        final(items)@.to_multiset() == old(items)@.to_multiset().remove(top),
{
    let top = items[0];
    let last_at = items.len() - 1;
    exchange(items, 0, last_at);
    let ghost exchanged = items@;
    items.pop();
    proof {
        broadcast use group_to_multiset_ensures;

        assert(items@ == exchanged.remove(last_at as int));
        assert forall|j: int|
            1 <= j < items@.len() && (j - 1) / 2 != 0 implies #[trigger] parent_holds(
            items@,
            j,
        ) by {
            assert(parent_holds(old(items)@, j));
        }
    }
    let n = items.len();
    let mut i: usize = 0;
    while i < n / 2
        invariant
            n == items.len(),
            items@.to_multiset() == old(items)@.to_multiset().remove(top),
            ordered_but_below(items@, i as int),
            children_fit(items@, i as int),
        ensures
            heap_ordered(items@),
            items@.to_multiset() == old(items)@.to_multiset().remove(top),
        decreases n - i,
    {
        let left: usize = 2 * i + 1;
        let mut child: usize = left;
        if left + 1 < n && !entry_at_most(items[left + 1], items[left]) {
            child = left + 1;
        }
        assert forall|c: int| 1 <= c < n && (c - 1) / 2 == i implies entry_le(
            #[trigger] items@[c],
            items@[child as int],
        ) by {
            assert(c == left || c == left + 1);
        }
        if entry_at_most(items[child], items[i]) {
            assert forall|j: int| 1 <= j < n implies #[trigger] parent_holds(items@, j) by {
                if (j - 1) / 2 == i {
                    assert(entry_le(items@[j], items@[child as int]));
                }
            }
            break;
        }
        proof {
            lemma_sink(items@, i as int, child as int);
        }
        exchange(items, i, child);
        i = child;
    }
    top
}

/// A max-priority queue of `(value, index)` entries: the greatest entry, by
/// value and then by index, is the one that `peek` shows and `pop` removes.
///
/// Its view is the multiset of the entries it holds. Every operation keeps
/// the queue well formed: no stored entry is greater than its parent.
pub struct MaxHeap {
    items: Vec<(i32, usize)>,
}

impl View for MaxHeap {
    type V = Multiset<(i32, usize)>;

    closed spec fn view(&self) -> Multiset<(i32, usize)> {
        self.items@.to_multiset()
    }
}

impl MaxHeap {
    /// The stored vector is heap-ordered.
    pub closed spec fn well_formed(&self) -> bool {
        heap_ordered(self.items@)
    }

    /// An empty queue.
    pub fn new() -> (heap: MaxHeap)
        ensures
            heap.well_formed(),
            heap@ == Multiset::<(i32, usize)>::empty(),
    {
        let heap = MaxHeap { items: Vec::new() };
        proof {
            broadcast use group_to_multiset_ensures;

            vstd::multiset::lemma_multiset_empty_len(heap@);
        }
        heap
    }

    /// The number of entries held.
    pub fn len(&self) -> (n: usize)
        ensures
            n == self@.len(),
    {
        proof {
            broadcast use group_to_multiset_ensures;

        }
        self.items.len()
    }

    /// Whether the queue holds no entry.
    pub fn is_empty(&self) -> (empty: bool)
        ensures
            empty == (self@.len() == 0),
    {
        proof {
            broadcast use group_to_multiset_ensures;

        }
        self.items.len() == 0
    }

    /// Adds one entry.
    pub fn push(&mut self, entry: (i32, usize))
        requires
            old(self).well_formed(),
        ensures
            final(self).well_formed(),
            final(self)@ == old(self)@.insert(entry),
    {
        push_ordered(&mut self.items, entry);
    }

    /// The greatest entry, or nothing where the queue is empty.
    pub fn peek(&self) -> (top: Option<(i32, usize)>)
        requires
            self.well_formed(),
        ensures
            match top {
                Some(m) => is_greatest(self@, m),
                None => self@.len() == 0,
            },
    {
        proof {
            broadcast use group_to_multiset_ensures;

        }
        if self.items.len() == 0 {
            None
        } else {
            proof {
                lemma_root_is_greatest(self.items@);
            }
            Some(self.items[0])
        }
    }

    /// Removes and returns the greatest entry; an empty queue stays as it is
    /// and gives nothing.
    pub fn pop(&mut self) -> (top: Option<(i32, usize)>)
        requires
            old(self).well_formed(),
        ensures
            final(self).well_formed(),
            match top {
                Some(m) => is_greatest(old(self)@, m) && final(self)@ == old(self)@.remove(m),
                None => old(self)@.len() == 0 && final(self)@ == old(self)@,
            },
    {
        proof {
            broadcast use group_to_multiset_ensures;

        }
        if self.items.len() == 0 {
            None
        } else {
            proof {
                lemma_root_is_greatest(self.items@);
            }
            Some(pop_ordered(&mut self.items))
        }
    }
}

} // verus!
