//! Which entries a structure holds when stale entries leave only as they
//! reach the top: the common model of the heap and tree strategies.
//!
//! Both strategies take in one entry per element and, before a window's
//! maximum is read, remove the greatest entry for as long as it lies before
//! the window. An entry that has left the window therefore stays until the
//! first window whose maximum it exceeds.

use vstd::prelude::*;
use vstd::multiset::{group_multiset_axioms, Multiset};
use crate::entry::{entry_le, is_greatest};
use crate::window::{is_max_of_window, lemma_window_max_is_max, lemma_window_max_unique, window_max};

verus! {

/// Whether the entry for index `j` is still held once the first `done`
/// elements of `s` have been taken in with window length `k`: it has been
/// taken in, and it exceeds the maximum of no window that started after it
/// and has been completed.
pub open spec fn is_retained(s: Seq<i32>, k: int, done: int, j: int) -> bool {
    &&& 0 <= j < done
    &&& forall|w: int| j < w <= done - k ==> s[j] <= #[trigger] window_max(s, w, k)
}

/// Whether `e` is the entry of `s` at its own index and is retained.
pub open spec fn is_held(s: Seq<i32>, k: int, done: int, e: (i32, usize)) -> bool {
    is_retained(s, k, done, e.1 as int) && e.0 == s[e.1 as int]
}

/// One for an entry that is held, zero for any other.
pub open spec fn once_if(held: bool) -> nat {
    if held {
        1
    } else {
        0
    }
}

/// `items` holds the retained entries, once each, and nothing else.
pub open spec fn holds_retained(
    items: Multiset<(i32, usize)>,
    s: Seq<i32>,
    k: int,
    done: int,
) -> bool {
    forall|e: (i32, usize)| #[trigger] items.count(e) == once_if(is_held(s, k, done, e))
}

/// Every element that has left the window by the time `done` elements are
/// taken in exceeds each of the `k` elements after it. On such input, and on
/// no other, every entry is removed in the very cleanup in which it turns
/// stale.
pub open spec fn leaves_on_time(s: Seq<i32>, k: int, done: int) -> bool {
    forall|j: int, m: int|
        0 <= j < m <= j + k && j + k < done ==> #[trigger] s[j] > #[trigger] s[m]
}

/// No entry from before the current window is held.
pub open spec fn holds_window_only(s: Seq<i32>, k: int, done: int) -> bool {
    forall|j: int| 0 <= j < done - k ==> !#[trigger] is_retained(s, k, done, j)
}

/// `e` occurs once at most and, where it occurs, is what was held before
/// element `idx` came or is the entry of that element.
pub(crate) open spec fn is_old_or_newest(
    items: Multiset<(i32, usize)>,
    s: Seq<i32>,
    k: int,
    idx: int,
    e: (i32, usize),
) -> bool {
    &&& items.count(e) <= 1
    &&& items.count(e) == 1 ==> e.0 == s[e.1 as int] && (e.1 == idx || is_retained(
        s,
        k,
        idx,
        e.1 as int,
    ))
}

/// The state between taking in element `idx` and the end of the cleanup for
/// the window that ends there: `items` holds nothing twice, nothing but what
/// was held before or the new entry, and all that is to be held afterwards.
pub(crate) open spec fn is_cleaning(
    items: Multiset<(i32, usize)>,
    s: Seq<i32>,
    k: int,
    idx: int,
) -> bool {
    forall|e: (i32, usize)|
        #![trigger items.count(e)]
        is_old_or_newest(items, s, k, idx, e) && (is_held(s, k, idx + 1, e) ==> items.count(e)
            == 1)
}

/// Before any window is complete, every entry taken in is held.
pub proof fn lemma_seed_holds(items: Multiset<(i32, usize)>, s: Seq<i32>, k: int, idx: usize)
    requires
        0 <= idx < s.len(),
        idx + 1 < k,
        holds_retained(items, s, k, idx as int),
    ensures
        holds_retained(items.insert((s[idx as int], idx)), s, k, idx + 1),
{
    broadcast use group_multiset_axioms;

    let after = items.insert((s[idx as int], idx));
    assert forall|e: (i32, usize)| #[trigger]
        after.count(e) == once_if(is_held(s, k, idx + 1, e)) by {
        assert(items.count(e) == once_if(is_held(s, k, idx as int, e)));
    }
}

/// Taking in element `idx` starts the cleanup for the window that ends there.
pub(crate) proof fn lemma_cleaning_starts(
    items: Multiset<(i32, usize)>,
    s: Seq<i32>,
    k: int,
    idx: usize,
)
    requires
        1 <= k <= idx + 1 <= s.len(),
        holds_retained(items, s, k, idx as int),
    ensures
        is_cleaning(items.insert((s[idx as int], idx)), s, k, idx as int),
{
    broadcast use group_multiset_axioms;

    let after = items.insert((s[idx as int], idx));
    assert forall|e: (i32, usize)|
        #![trigger after.count(e)]
        is_old_or_newest(after, s, k, idx as int, e) && (is_held(s, k, idx + 1, e)
            ==> after.count(e) == 1) by {
        assert(items.count(e) == once_if(is_held(s, k, idx as int, e)));
    }
}

/// During a cleanup every entry of the current window is held, the newest
/// among them, so the structure is not empty.
pub(crate) proof fn lemma_cleaning_holds_window(
    items: Multiset<(i32, usize)>,
    s: Seq<i32>,
    k: int,
    idx: usize,
    j: usize,
)
    requires
        1 <= k <= idx + 1 <= s.len(),
        idx + 1 - k <= j <= idx,
        is_cleaning(items, s, k, idx as int),
    ensures
        items.count((s[j as int], j)) == 1,
        items.len() >= 1,
{
    broadcast use group_multiset_axioms;

    let entry = (s[j as int], j);
    assert(is_held(s, k, idx + 1, entry));
    assert(is_old_or_newest(items, s, k, idx as int, entry));
}

/// A greatest entry that lies before the window exceeds the window's
/// maximum; removing it continues the cleanup with one entry fewer.
pub(crate) proof fn lemma_cleaning_drops_stale(
    items: Multiset<(i32, usize)>,
    s: Seq<i32>,
    k: int,
    idx: usize,
    top: (i32, usize),
)
    requires
        1 <= k <= idx + 1 <= s.len(),
        is_cleaning(items, s, k, idx as int),
        is_greatest(items, top),
        top.1 < idx + 1 - k,
    ensures
        is_cleaning(items.remove(top), s, k, idx as int),
        items.remove(top).len() == items.len() - 1,
{
    broadcast use group_multiset_axioms;

    let start = idx + 1 - k;
    lemma_window_max_is_max(s, start, k);
    let p = choose|p: int| start <= p < start + k && s[p] == window_max(s, start, k);
    lemma_cleaning_holds_window(items, s, k, idx, p as usize);
    assert(entry_le((s[p], p as usize), top));
    assert(!is_retained(s, k, idx + 1, top.1 as int)) by {
        assert(top.0 > window_max(s, start, k));
        assert(is_old_or_newest(items, s, k, idx as int, top));
    }
    let after = items.remove(top);
    assert forall|e: (i32, usize)|
        #![trigger after.count(e)]
        is_old_or_newest(after, s, k, idx as int, e) && (is_held(s, k, idx + 1, e)
            ==> after.count(e) == 1) by {
        assert(is_old_or_newest(items, s, k, idx as int, e));
        assert(is_held(s, k, idx + 1, e) ==> items.count(e) == 1);
    }
    lemma_remove_present(items, top);
}

/// When the greatest entry lies inside the window the cleanup is over:
/// exactly the retained entries are held, and the greatest entry carries the
/// window's maximum.
pub(crate) proof fn lemma_cleaning_ends(
    items: Multiset<(i32, usize)>,
    s: Seq<i32>,
    k: int,
    idx: usize,
    top: (i32, usize),
)
    requires
        1 <= k <= idx + 1 <= s.len(),
        is_cleaning(items, s, k, idx as int),
        is_greatest(items, top),
        top.1 >= idx + 1 - k,
    ensures
        holds_retained(items, s, k, idx + 1),
        top.0 == window_max(s, idx + 1 - k, k),
{
    let start = idx + 1 - k;
    assert(is_old_or_newest(items, s, k, idx as int, top));
    assert forall|j: int| start <= j < start + k implies s[j] <= top.0 by {
        lemma_cleaning_holds_window(items, s, k, idx, j as usize);
        assert(entry_le((s[j], j as usize), top));
    }
    assert(is_max_of_window(s, start, k, top.0)) by {
        assert(start <= top.1 < start + k && s[top.1 as int] == top.0);
    }
    lemma_window_max_unique(s, start, k, top.0);
    assert forall|e: (i32, usize)| #[trigger]
        items.count(e) == once_if(is_held(s, k, idx + 1, e)) by {
        assert(is_old_or_newest(items, s, k, idx as int, e));
        assert(is_held(s, k, idx + 1, e) ==> items.count(e) == 1);
        if items.count(e) == 1 && e.1 != idx {
            assert(entry_le(e, top));
            assert(is_retained(s, k, idx as int, e.1 as int));
            assert(is_retained(s, k, idx + 1, e.1 as int));
        }
    }
}

/// Removing an entry that is there takes one from the length.
proof fn lemma_remove_present(items: Multiset<(i32, usize)>, e: (i32, usize))
    requires
        items.count(e) >= 1,
    ensures
        items.remove(e).len() == items.len() - 1,
{
    broadcast use group_multiset_axioms;

    assert(Multiset::singleton(e).subset_of(items)) by {
        assert forall|x: (i32, usize)| Multiset::singleton(e).count(x) <= items.count(x) by {
            if x != e {
                assert(Multiset::singleton(e).count(x) == 0);
            }
        }
    }
}

/// Entries that occur once at most, each the entry of `s` at an index of its
/// own in `[lo, hi)`, number at most `hi - lo`.
pub proof fn lemma_entries_at_most(items: Multiset<(i32, usize)>, s: Seq<i32>, lo: int, hi: int)
    requires
        0 <= lo,
        forall|e: (i32, usize)|
            #![trigger items.count(e)]
            items.count(e) <= 1 && (items.count(e) == 1 ==> lo <= e.1 < hi && e.0
                == s[e.1 as int]),
    ensures
        items.len() <= if hi >= lo { hi - lo } else { 0 },
    decreases hi - lo,
{
    broadcast use group_multiset_axioms;

    if hi <= lo {
        assert forall|e: (i32, usize)| items.count(e) == 0 by {
            assert(items.count(e) <= 1);
        }
        assert(items =~= Multiset::empty());
    } else {
        let last = (s[hi - 1], (hi - 1) as usize);
        let rest = items.remove(last);
        assert(items.count(last) <= 1);
        assert forall|e: (i32, usize)|
            #![trigger rest.count(e)]
            rest.count(e) <= 1 && (rest.count(e) == 1 ==> lo <= e.1 < hi - 1 && e.0
                == s[e.1 as int]) by {
            assert(items.count(e) <= 1);
        }
        lemma_entries_at_most(rest, s, lo, hi - 1);
        if items.count(last) == 1 {
            lemma_remove_present(items, last);
        } else {
            assert(rest =~= items);
        }
    }
}

/// A collection that holds the entry of `s` at every index of `[lo, hi)`
/// holds at least `hi - lo` entries.
pub proof fn lemma_entries_at_least(items: Multiset<(i32, usize)>, s: Seq<i32>, lo: int, hi: int)
    requires
        0 <= lo <= hi <= usize::MAX + 1,
        forall|e: (i32, usize)|
            lo <= e.1 < hi && e.0 == s[e.1 as int] ==> #[trigger] items.count(e) >= 1,
    ensures
        items.len() >= hi - lo,
    decreases hi - lo,
{
    broadcast use group_multiset_axioms;

    if hi > lo {
        let last = (s[hi - 1], (hi - 1) as usize);
        let rest = items.remove(last);
        assert(items.count(last) >= 1);
        assert forall|e: (i32, usize)|
            lo <= e.1 < hi - 1 && e.0 == s[e.1 as int] implies #[trigger] rest.count(e)
            >= 1 by {
            assert(items.count(e) >= 1);
        }
        lemma_entries_at_least(rest, s, lo, hi - 1);
        lemma_remove_present(items, last);
    }
}

/// No more entries are held than elements have been taken in.
pub proof fn lemma_retained_bound(items: Multiset<(i32, usize)>, s: Seq<i32>, k: int, done: int)
    requires
        0 <= done,
        holds_retained(items, s, k, done),
    ensures
        items.len() <= done,
{
    assert forall|e: (i32, usize)|
        #![trigger items.count(e)]
        items.count(e) <= 1 && (items.count(e) == 1 ==> 0 <= e.1 < done && e.0
            == s[e.1 as int]) by {
        assert(items.count(e) == once_if(is_held(s, k, done, e)));
    }
    lemma_entries_at_most(items, s, 0, done);
}

/// After a cleanup at least the `k` entries of the window are held, and no
/// more than `k` exactly when no entry from before the window has stayed.
pub proof fn lemma_bound_iff_window_only(
    items: Multiset<(i32, usize)>,
    s: Seq<i32>,
    k: int,
    done: int,
)
    requires
        1 <= k <= done <= s.len() <= usize::MAX,
        holds_retained(items, s, k, done),
    ensures
        items.len() >= k,
        items.len() <= k <==> holds_window_only(s, k, done),
{
    let start = done - k;
    assert forall|e: (i32, usize)|
        start <= e.1 < done && e.0 == s[e.1 as int] implies #[trigger] items.count(e) >= 1 by {
        assert(is_held(s, k, done, e));
        assert(items.count(e) == once_if(is_held(s, k, done, e)));
    }
    lemma_entries_at_least(items, s, start, done);
    if holds_window_only(s, k, done) {
        assert forall|e: (i32, usize)|
            #![trigger items.count(e)]
            items.count(e) <= 1 && (items.count(e) == 1 ==> start <= e.1 < done && e.0
                == s[e.1 as int]) by {
            assert(items.count(e) == once_if(is_held(s, k, done, e)));
        }
        lemma_entries_at_most(items, s, start, done);
    } else {
        let j = choose|j: int| 0 <= j < start && is_retained(s, k, done, j);
        let stale = (s[j], j as usize);
        assert(items.count(stale) == once_if(is_held(s, k, done, stale)));
        let rest = items.remove(stale);
        assert forall|e: (i32, usize)|
            start <= e.1 < done && e.0 == s[e.1 as int] implies #[trigger] rest.count(e)
            >= 1 by {
            broadcast use group_multiset_axioms;

            assert(items.count(e) >= 1);
        }
        lemma_entries_at_least(rest, s, start, done);
        lemma_remove_present(items, stale);
    }
}

/// Where every element leaves on time, the held entries are those of the
/// current window, so there are at most `k` of them.
pub proof fn lemma_on_time_bound(items: Multiset<(i32, usize)>, s: Seq<i32>, k: int, done: int)
    requires
        1 <= k,
        0 <= done <= s.len(),
        holds_retained(items, s, k, done),
        leaves_on_time(s, k, done),
    ensures
        items.len() <= k,
        forall|e: (i32, usize)| items.count(e) > 0 ==> e.1 >= done - k,
{
    let lo = if done >= k {
        done - k
    } else {
        0
    };
    assert forall|e: (i32, usize)|
        #![trigger items.count(e)]
        items.count(e) <= 1 && (items.count(e) == 1 ==> lo <= e.1 < done && e.0
            == s[e.1 as int]) by {
        assert(items.count(e) == once_if(is_held(s, k, done, e)));
        if items.count(e) == 1 && e.1 < lo {
            let j = e.1 as int;
            lemma_window_max_is_max(s, j + 1, k);
            let m = choose|m: int| j + 1 <= m < j + 1 + k && s[m] == window_max(s, j + 1, k);
            assert(s[j] > s[m]);
            assert(s[j] <= window_max(s, j + 1, k));
        }
    }
    lemma_entries_at_most(items, s, lo, done);
    assert forall|e: (i32, usize)| items.count(e) > 0 implies e.1 >= done - k by {
        assert(items.count(e) <= 1);
    }
}

/// An element that does not exceed each of the `k` elements after it is
/// still held when it has just left the window, beside the `k` entries of
/// the window itself.
pub proof fn lemma_late_leaver_stays(
    items: Multiset<(i32, usize)>,
    s: Seq<i32>,
    k: int,
    j: int,
    m: int,
)
    requires
        1 <= k,
        0 <= j < m <= j + k,
        j + k < s.len() <= usize::MAX,
        s[j] <= s[m],
        holds_retained(items, s, k, j + k + 1),
    ensures
        items.count((s[j], j as usize)) == 1,
        items.len() > k,
{
    let done = j + k + 1;
    lemma_window_max_is_max(s, j + 1, k);
    assert(s[m] <= window_max(s, j + 1, k));
    assert forall|e: (i32, usize)|
        j <= e.1 < done && e.0 == s[e.1 as int] implies #[trigger] items.count(e) >= 1 by {
        assert(is_held(s, k, done, e));
        assert(items.count(e) == once_if(is_held(s, k, done, e)));
    }
    lemma_entries_at_least(items, s, j, done);
    let own = (s[j], j as usize);
    assert(items.count(own) == once_if(is_held(s, k, done, own)));
}

} // verus!
