//! The priority-queue strategy: a max-heap of entries from which stale
//! entries are removed lazily, only when they show at the top.

use vstd::prelude::*;
use crate::entry::{is_greatest, lemma_greatest_unique};
use crate::max_heap::MaxHeap;
use crate::retained::{
    holds_retained, is_cleaning, lemma_cleaning_drops_stale, lemma_cleaning_ends,
    lemma_cleaning_holds_window, lemma_cleaning_starts, lemma_retained_bound, lemma_seed_holds,
};
use crate::window::{sliding_max, window_max};

verus! {

/// Completes the window that ends at `idx`: takes in element `idx`, removes
/// the greatest entry for as long as it lies before the window, and returns
/// the value of the greatest entry that is left, the window's maximum.
///
/// Stale entries below the top stay in the heap, which therefore may hold
/// more than `k` entries, though never more than were taken in.
pub fn slide_heap(heap: &mut MaxHeap, nums: &Vec<i32>, k: usize, idx: usize) -> (top: i32)
    requires
        1 <= k <= idx + 1 <= nums.len(),
        old(heap).well_formed(),
        holds_retained(old(heap)@, nums@, k as int, idx as int),
    ensures
        final(heap).well_formed(),
        holds_retained(final(heap)@, nums@, k as int, idx + 1),
        final(heap)@.len() <= idx + 1,
        top == window_max(nums@, idx + 1 - k, k as int),
{
    let window_size: usize = k - 1;

    heap.push((nums[idx], idx));
    proof {
        lemma_cleaning_starts(old(heap)@, nums@, k as int, idx);
        lemma_cleaning_holds_window(heap@, nums@, k as int, idx, idx);
    }

    let mut top = heap.peek().unwrap();
    while top.1 < idx - window_size
        invariant
            1 <= k <= idx + 1 <= nums.len(),
            window_size == k - 1,
            heap.well_formed(),
            is_cleaning(heap@, nums@, k as int, idx as int),
            is_greatest(heap@, top),
        decreases heap@.len(),
    {
        let ghost before = heap@;
        let removed = heap.pop();
        proof {
            lemma_greatest_unique(before, top, removed.unwrap());
            lemma_cleaning_drops_stale(before, nums@, k as int, idx, top);
            lemma_cleaning_holds_window(heap@, nums@, k as int, idx, idx);
        }
        top = heap.peek().unwrap();
    }

    proof {
        lemma_cleaning_ends(heap@, nums@, k as int, idx, top);
        lemma_retained_bound(heap@, nums@, k as int, idx + 1);
    }
    top.0
}

/// Sliding-window maximum with a max-heap and lazy removal.
///
/// The result lists, for each start `i` from `0` to `nums.len() - k`, the
/// greatest element of `nums[i..i + k)`.
pub fn heap(nums: &Vec<i32>, k: i32) -> (maximums: Vec<i32>)
    requires
        1 <= k <= nums.len(),
    ensures
        maximums.len() == nums.len() - k + 1,
        maximums@ == sliding_max(nums@, k as int),
{
    let k = k as usize;
    let n = nums.len();
    let mut maximums: Vec<i32> = Vec::with_capacity(n - k + 1);
    let window_size: usize = k - 1;

    let mut heap = MaxHeap::new();

    for idx in 0..window_size
        invariant
            1 <= k <= n,
            n == nums.len(),
            window_size == k - 1,
            heap.well_formed(),
            holds_retained(heap@, nums@, k as int, idx as int),
    {
        proof {
            lemma_seed_holds(heap@, nums@, k as int, idx);
        }
        heap.push((nums[idx], idx));
    }

    for idx in window_size..n
        invariant
            1 <= k <= n,
            n == nums.len(),
            window_size == k - 1,
            heap.well_formed(),
            holds_retained(heap@, nums@, k as int, idx as int),
            maximums.len() == idx - window_size,
            forall|w: int|
                0 <= w < maximums.len() ==> maximums[w] == window_max(nums@, w, k as int),
    {
        let top = slide_heap(&mut heap, nums, k, idx);
        maximums.push(top);
    }
    maximums
}

} // verus!
