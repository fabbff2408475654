//! The quadratic baseline: every window is scanned on its own.

use vstd::prelude::*;
use crate::window::{sliding_max, window_max, lemma_window_max_of_subrange};

verus! {

/// The greatest element of a non-empty slice.
pub fn slice_max(window: &[i32]) -> (m: i32)
    requires
        window.len() >= 1,
    ensures
        m == window_max(window@, 0, window.len() as int),
{
    let mut m: i32 = window[0];
    for j in 1..window.len()
        invariant
            window.len() >= 1,
            m == window_max(window@, 0, j as int),
    {
        if window[j] > m {
            m = window[j];
        }
    }
    m
}

/// Sliding-window maximum by taking each window as a slice and scanning it.
///
/// The result lists, for each start `i` from `0` to `v.len() - k`, the
/// greatest element of `v[i..i + k)`.
pub fn brute_force(v: &Vec<i32>, k: i32) -> (maximums: Vec<i32>)
    requires
        1 <= k <= v.len(),
    ensures
        maximums.len() == v.len() - k + 1,
        maximums@ == sliding_max(v@, k as int),
{
    let k = k as usize;
    let n = v.len();
    let mut maximums: Vec<i32> = Vec::with_capacity(n - k + 1);
    for i in 0..(n - k + 1)
        invariant
            1 <= k <= n,
            n == v.len(),
            maximums.len() == i,
            forall|w: int| 0 <= w < i ==> maximums[w] == window_max(v@, w, k as int),
    {
        let current_slice = &v[i..i + k];
        let max_value = slice_max(current_slice);
        proof {
            lemma_window_max_of_subrange(v@, i as int, k as int);
        }
        maximums.push(max_value);
    }
    maximums
}

/// Sliding-window maximum by index arithmetic alone: the same sequence as
/// `brute_force`, without forming a slice per window.
pub fn brute_force_idiomatic(v: &Vec<i32>, k: i32) -> (maximums: Vec<i32>)
    requires
        1 <= k <= v.len(),
    ensures
        maximums.len() == v.len() - k + 1,
        maximums@ == sliding_max(v@, k as int),
{
    let k = k as usize;
    let n = v.len();
    let mut maximums: Vec<i32> = Vec::new();
    for i in 0..(n - k + 1)
        invariant
            1 <= k <= n,
            n == v.len(),
            maximums.len() == i,
            forall|w: int| 0 <= w < i ==> maximums[w] == window_max(v@, w, k as int),
    {
        let mut best: i32 = v[i];
        for j in 1..k
            invariant
                1 <= k <= n,
                n == v.len(),
                i + k <= n,
                best == window_max(v@, i as int, j as int),
        {
            if v[i + j] > best {
                best = v[i + j];
            }
        }
        maximums.push(best);
    }
    maximums
}

} // verus!
