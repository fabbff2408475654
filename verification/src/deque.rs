//! The linear strategy: a deque of candidate entries whose values fall
//! strictly from front to back, so that the front is the window's maximum.

use std::collections::VecDeque;
use vstd::prelude::*;
use crate::window::{is_max_of_window, lemma_window_max_unique, sliding_max, window_max};

verus! {

/// Where the current window starts once `done` elements have been taken in:
/// the window is `[window_start(k, done), done)`, at most `k` long.
pub open spec fn window_start(k: int, done: int) -> int {
    if done >= k {
        done - k
    } else {
        0
    }
}

/// Stored values fall strictly from front to back.
pub open spec fn strictly_decreasing(dq: Seq<(i32, usize)>) -> bool {
    forall|a: int, b: int| 0 <= a < b < dq.len() ==> dq[a].0 > dq[b].0
}

/// Stored indices rise strictly from front to back.
pub open spec fn strictly_increasing_indices(dq: Seq<(i32, usize)>) -> bool {
    forall|a: int, b: int| 0 <= a < b < dq.len() ==> dq[a].1 < dq[b].1
}

/// Every entry is a `(value, index)` pair of `s` with its index in `[lo, hi)`.
pub open spec fn entries_within(dq: Seq<(i32, usize)>, s: Seq<i32>, lo: int, hi: int) -> bool {
    forall|t: int|
        0 <= t < dq.len() ==> lo <= (#[trigger] dq[t]).1 < hi && dq[t].0 == s[dq[t].1 as int]
}

/// Some entry at index `j` or later holds a value of at least `x`.
pub open spec fn covered(dq: Seq<(i32, usize)>, j: int, x: i32) -> bool {
    exists|t: int| 0 <= t < dq.len() && (#[trigger] dq[t]).1 >= j && dq[t].0 >= x
}

/// The state of the deque once the first `done` elements of `s` have been
/// taken in with window length `k`: its entries are pairs of `s` inside the
/// current window, in rising index order and strictly falling value order,
/// and every element of the window is covered by an entry that is no older
/// and no smaller. These conditions fix the deque's contents.
pub open spec fn is_monotonic_window(
    dq: Seq<(i32, usize)>,
    s: Seq<i32>,
    k: int,
    done: int,
) -> bool {
    &&& entries_within(dq, s, window_start(k, done), done)
    &&& strictly_increasing_indices(dq)
    &&& strictly_decreasing(dq)
    &&& forall|j: int| window_start(k, done) <= j < done ==> #[trigger] covered(dq, j, s[j])
}

/// Entries with strictly rising indices inside `[lo, hi)` number at most
/// `hi - lo`.
pub proof fn lemma_rising_indices_bound(dq: Seq<(i32, usize)>, s: Seq<i32>, lo: int, hi: int)
    requires
        entries_within(dq, s, lo, hi),
        strictly_increasing_indices(dq),
    ensures
        dq.len() <= if hi >= lo { hi - lo } else { 0 },
    decreases dq.len(),
{
    if dq.len() > 0 {
        let rest = dq.drop_last();
        let top = dq.last().1 as int;
        assert(lo <= dq[dq.len() - 1].1 < hi);
        assert forall|t: int| 0 <= t < rest.len() implies lo <= (#[trigger] rest[t]).1 < top
            && rest[t].0 == s[rest[t].1 as int] by {
            assert(rest[t] == dq[t]);
        }
        lemma_rising_indices_bound(rest, s, lo, top);
    }
}

/// The deque never holds more than `k` entries.
pub proof fn lemma_monotonic_window_bounded(dq: Seq<(i32, usize)>, s: Seq<i32>, k: int, done: int)
    requires
        1 <= k,
        0 <= done,
        is_monotonic_window(dq, s, k, done),
    ensures
        dq.len() <= k,
        dq.len() <= done,
{
    lemma_rising_indices_bound(dq, s, window_start(k, done), done);
}

/// Once a full window has been taken in, the front of the deque holds that
/// window's maximum.
pub proof fn lemma_front_is_window_max(dq: Seq<(i32, usize)>, s: Seq<i32>, k: int, done: int)
    requires
        1 <= k <= done <= s.len(),
        is_monotonic_window(dq, s, k, done),
    ensures
        dq.len() >= 1,
        dq[0].0 == window_max(s, done - k, k),
{
    let lo = done - k;
    assert(covered(dq, done - 1, s[done - 1]));
    let front = dq[0];
    assert(lo <= front.1 < done && front.0 == s[front.1 as int]);
    assert forall|j: int| lo <= j < lo + k implies s[j] <= front.0 by {
        assert(covered(dq, j, s[j]));
        let t = choose|t: int| 0 <= t < dq.len() && (#[trigger] dq[t]).1 >= j && dq[t].0 >= s[j];
        if t > 0 {
            assert(dq[0].0 > dq[t].0);
        }
    }
    assert(is_max_of_window(s, lo, k, front.0));
    lemma_window_max_unique(s, lo, k, front.0);
}

/// No element taken in after index `j` equals or exceeds the element at `j`.
pub open spec fn outlasts(s: Seq<i32>, j: int, done: int) -> bool {
    forall|m: int| j < m < done ==> #[trigger] s[m] < s[j]
}

/// Every entry of the deque outlasts all that came after it.
pub proof fn lemma_entries_outlast(dq: Seq<(i32, usize)>, s: Seq<i32>, k: int, done: int, t: int)
    requires
        is_monotonic_window(dq, s, k, done),
        0 <= t < dq.len(),
    ensures
        outlasts(s, dq[t].1 as int, done),
{
    let j = dq[t].1 as int;
    assert(window_start(k, done) <= dq[t].1 < done);
    assert forall|m: int| j < m < done implies #[trigger] s[m] < s[j] by {
        assert(covered(dq, m, s[m]));
        let u = choose|u: int| 0 <= u < dq.len() && (#[trigger] dq[u]).1 >= m && dq[u].0 >= s[m];
        if u < t {
            assert(dq[u].1 < dq[t].1);
        }
        assert(dq[t].0 > dq[u].0);
    }
}

/// Every element of the window that outlasts all that came after it has its
/// entry in the deque.
pub proof fn lemma_outlasting_is_entry(
    dq: Seq<(i32, usize)>,
    s: Seq<i32>,
    k: int,
    done: int,
    j: int,
)
    requires
        is_monotonic_window(dq, s, k, done),
        window_start(k, done) <= j < done,
        outlasts(s, j, done),
    ensures
        exists|t: int| 0 <= t < dq.len() && (#[trigger] dq[t]).1 == j && dq[t].0 == s[j],
{
    assert(covered(dq, j, s[j]));
    let t = choose|t: int| 0 <= t < dq.len() && (#[trigger] dq[t]).1 >= j && dq[t].0 >= s[j];
    assert(window_start(k, done) <= dq[t].1 < done && dq[t].0 == s[dq[t].1 as int]);
    if dq[t].1 > j {
        assert(s[dq[t].1 as int] < s[j]);
    }
}

/// Where in `b` the entry `a[t]` stands.
spec fn place_in(b: Seq<(i32, usize)>, a: Seq<(i32, usize)>, t: int) -> int {
    choose|u: int| 0 <= u < b.len() && (#[trigger] b[u]) == a[t]
}

/// Of two deques in the same state, the second holds every entry of the
/// first, no nearer to its front.
proof fn lemma_place_in(
    a: Seq<(i32, usize)>,
    b: Seq<(i32, usize)>,
    s: Seq<i32>,
    k: int,
    done: int,
    t: int,
)
    requires
        is_monotonic_window(a, s, k, done),
        is_monotonic_window(b, s, k, done),
        0 <= t < a.len(),
    ensures
        t <= place_in(b, a, t) < b.len(),
        b[place_in(b, a, t)] == a[t],
    decreases t,
{
    lemma_entries_outlast(a, s, k, done, t);
    assert(window_start(k, done) <= a[t].1 < done && a[t].0 == s[a[t].1 as int]);
    lemma_outlasting_is_entry(b, s, k, done, a[t].1 as int);
    let u = choose|u: int|
        0 <= u < b.len() && (#[trigger] b[u]).1 == a[t].1 && b[u].0 == s[a[t].1 as int];
    assert(b[u] == a[t]);
    let p = place_in(b, a, t);
    if t > 0 {
        lemma_place_in(a, b, s, k, done, t - 1);
        let q = place_in(b, a, t - 1);
        assert(a[t - 1].1 < a[t].1);
        if p < q {
            assert(b[p].1 < b[q].1);
        }
    }
}

/// The state fixes the deque: two deques in the same state are equal.
pub proof fn lemma_monotonic_window_unique(
    a: Seq<(i32, usize)>,
    b: Seq<(i32, usize)>,
    s: Seq<i32>,
    k: int,
    done: int,
)
    requires
        is_monotonic_window(a, s, k, done),
        is_monotonic_window(b, s, k, done),
    ensures
        a == b,
{
    if a.len() > 0 {
        lemma_place_in(a, b, s, k, done, a.len() - 1);
    }
    if b.len() > 0 {
        lemma_place_in(b, a, s, k, done, b.len() - 1);
    }
    assert(a.len() == b.len());
    assert forall|t: int| 0 <= t < a.len() implies a[t] == b[t] by {
        lemma_place_in(a, b, s, k, done, t);
        let p = place_in(b, a, t);
        lemma_place_in(b, a, s, k, done, p);
        let back = place_in(a, b, p);
        assert(a[back] == a[t]);
        if back < t {
            assert(a[back].1 < a[t].1);
        }
        if back > t {
            assert(a[t].1 < a[back].1);
        }
    }
    assert(a =~= b);
}

/// Takes element `idx` of `nums` into the deque: entries that have left the
/// window go from the front, entries that the new value matches or exceeds go
/// from the back, and the new entry is pushed at the back.
pub fn slide_deque(deque: &mut VecDeque<(i32, usize)>, nums: &Vec<i32>, k: usize, idx: usize)
    requires
        1 <= k,
        idx < nums.len(),
        is_monotonic_window(old(deque)@, nums@, k as int, idx as int),
    ensures
        is_monotonic_window(final(deque)@, nums@, k as int, idx + 1),
        strictly_decreasing(final(deque)@),
        1 <= final(deque)@.len() <= k,
        final(deque)@.last() == (nums[idx as int], idx),
        idx + 1 >= k ==> final(deque)@[0].0 == window_max(nums@, idx + 1 - k, k as int),
{
    let val = nums[idx];
    let ghost s = nums@;
    let ghost lo = window_start(k as int, idx + 1);

    while deque.len() > 0 && idx >= k && deque[0].1 <= idx - k
        invariant
            1 <= k,
            idx < nums.len(),
            s == nums@,
            lo == window_start(k as int, idx + 1),
            entries_within(deque@, s, window_start(k as int, idx as int), idx as int),
            strictly_increasing_indices(deque@),
            strictly_decreasing(deque@),
            forall|j: int| lo <= j < idx ==> #[trigger] covered(deque@, j, s[j]),
        decreases deque.len(),
    {
        let ghost before = deque@;
        deque.pop_front();
        proof {
            let after = deque@;
            assert forall|j: int| lo <= j < idx implies #[trigger] covered(after, j, s[j]) by {
                assert(covered(before, j, s[j]));
                let t = choose|t: int|
                    0 <= t < before.len() && (#[trigger] before[t]).1 >= j && before[t].0 >= s[j];
                assert(after[t - 1] == before[t]);
            }
        }
    }

    proof {
        let dq = deque@;
        assert forall|t: int| 0 <= t < dq.len() implies lo <= (#[trigger] dq[t]).1 < idx
            && dq[t].0 == s[dq[t].1 as int] by {
            if t > 0 {
                assert(dq[0].1 < dq[t].1);
            }
        }
    }

    while deque.len() > 0 && deque[deque.len() - 1].0 <= val
        invariant
            idx < nums.len(),
            s == nums@,
            val == s[idx as int],
            0 <= lo <= idx,
            entries_within(deque@, s, lo, idx as int),
            strictly_increasing_indices(deque@),
            strictly_decreasing(deque@),
            forall|j: int| lo <= j < idx ==> s[j] <= val || #[trigger] covered(deque@, j, s[j]),
        decreases deque.len(),
    {
        let ghost before = deque@;
        deque.pop_back();
        proof {
            let after = deque@;
            assert forall|j: int| lo <= j < idx implies s[j] <= val || #[trigger] covered(
                after,
                j,
                s[j],
            ) by {
                if s[j] > val {
                    assert(covered(before, j, s[j]));
                    let t = choose|t: int|
                        0 <= t < before.len() && (#[trigger] before[t]).1 >= j && before[t].0
                            >= s[j];
                    assert(after[t] == before[t]);
                }
            }
        }
    }

    let ghost before = deque@;
    deque.push_back((val, idx));

    proof {
        let after = deque@;
        let last = after.len() - 1;
        assert(after[last] == (val, idx));
        assert forall|t: int| 0 <= t < after.len() implies lo <= (#[trigger] after[t]).1 < idx + 1
            && after[t].0 == s[after[t].1 as int] by {
            if t < last {
                assert(after[t] == before[t]);
            }
        }
        assert forall|a: int, b: int| 0 <= a < b < after.len() implies after[a].1 < after[b].1
            && after[a].0 > after[b].0 by {
            assert(after[a] == before[a]);
            if b < last {
                assert(after[b] == before[b]);
            } else if a < last - 1 {
                assert(before[a].0 > before[last - 1].0);
            }
        }
        assert forall|j: int| lo <= j < idx + 1 implies #[trigger] covered(after, j, s[j]) by {
            if j < idx && s[j] > val {
                assert(covered(before, j, s[j]));
                let t = choose|t: int|
                    0 <= t < before.len() && (#[trigger] before[t]).1 >= j && before[t].0 >= s[j];
                assert(after[t] == before[t]);
            } else {
                assert(after[last].1 >= j && after[last].0 >= s[j]);
            }
        }
        assert(is_monotonic_window(after, s, k as int, idx + 1));
        lemma_monotonic_window_bounded(after, s, k as int, idx + 1);
        if idx + 1 >= k {
            lemma_front_is_window_max(after, s, k as int, idx + 1);
        }
    }
}

/// Sliding-window maximum in linear time with a monotonic deque.
///
/// The result lists, for each start `i` from `0` to `nums.len() - k`, the
/// greatest element of `nums[i..i + k)`.
pub fn linear(nums: &Vec<i32>, k: i32) -> (maximums: Vec<i32>)
    requires
        1 <= k <= nums.len(),
    ensures
        maximums.len() == nums.len() - k + 1,
        maximums@ == sliding_max(nums@, k as int),
{
    let n = nums.len();
    let k = k as usize;
    let mut maximums: Vec<i32> = Vec::with_capacity(n - k + 1);
    let window_size: usize = k - 1;

    let mut deque: VecDeque<(i32, usize)> = VecDeque::new();

    for idx in 0..n
        invariant
            1 <= k <= n,
            n == nums.len(),
            window_size == k - 1,
            is_monotonic_window(deque@, nums@, k as int, idx as int),
            maximums.len() == (if idx >= k { idx - k + 1 } else { 0 }),
            forall|w: int|
                0 <= w < maximums.len() ==> maximums[w] == window_max(nums@, w, k as int),
    {
        slide_deque(&mut deque, nums, k, idx);

        if idx >= window_size {
            maximums.push(deque[0].0);
        }
    }
    maximums
}

} // verus!
