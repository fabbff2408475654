//! What the strategies have in common: at every window the structure of each
//! one reports the maximum that a scan of the window finds.

use vstd::prelude::*;
use vstd::multiset::Multiset;
use crate::deque::{is_monotonic_window, lemma_front_is_window_max};
use crate::entry::{entry_le, is_greatest};
use crate::retained::{holds_retained, is_held, once_if};
use crate::window::{
    is_max_of_window, lemma_window_max_is_max, lemma_window_max_unique, sliding_max, window_max,
};

verus! {

/// Once a full window has been taken in, the greatest entry that the heap or
/// the tree holds lies in that window and carries its maximum.
pub proof fn lemma_retained_top_is_window_max(
    items: Multiset<(i32, usize)>,
    s: Seq<i32>,
    k: int,
    done: int,
    top: (i32, usize),
)
    requires
        1 <= k <= done <= s.len() <= usize::MAX,
        holds_retained(items, s, k, done),
        is_greatest(items, top),
    ensures
        done - k <= top.1 < done,
        top.0 == window_max(s, done - k, k),
{
    let start = done - k;
    assert(items.count(top) == once_if(is_held(s, k, done, top)));
    lemma_window_max_is_max(s, start, k);
    assert forall|j: int| start <= j < start + k implies s[j] <= top.0 && (top.1 < start
        ==> s[j] < top.0) by {
        let e = (s[j], j as usize);
        assert(is_held(s, k, done, e));
        assert(items.count(e) == once_if(is_held(s, k, done, e)));
        assert(entry_le(e, top));
    }
    assert(top.1 >= start) by {
        let p = choose|p: int| start <= p < start + k && s[p] == window_max(s, start, k);
        assert(top.1 < start ==> s[p] < top.0);
        assert(top.1 < start ==> s[top.1 as int] <= window_max(s, start, k));
    }
    assert(is_max_of_window(s, start, k, top.0));
    lemma_window_max_unique(s, start, k, top.0);
}

/// The strategies agree: for one input and one window, the greatest entry
/// held by the heap or the tree and the front of the deque carry the same
/// value, the element of the common output for that window.
pub proof fn lemma_strategies_agree(
    s: Seq<i32>,
    k: int,
    done: int,
    items: Multiset<(i32, usize)>,
    top: (i32, usize),
    dq: Seq<(i32, usize)>,
)
    requires
        1 <= k <= done <= s.len() <= usize::MAX,
        holds_retained(items, s, k, done),
        is_greatest(items, top),
        is_monotonic_window(dq, s, k, done),
    ensures
        dq.len() >= 1,
        top.0 == dq[0].0,
        dq[0].0 == sliding_max(s, k)[done - k],
{
    lemma_retained_top_is_window_max(items, s, k, done, top);
    lemma_front_is_window_max(dq, s, k, done);
}

} // verus!
