//! What a window maximum is, and the facts about it that the strategies share.

use vstd::prelude::*;

verus! {

/// The greater of two values.
pub open spec fn larger(a: i32, b: i32) -> i32 {
    if a >= b {
        a
    } else {
        b
    }
}

/// The greatest of the `len` elements of `s` that start at index `start`.
///
/// Meaningful for `0 <= start`, `1 <= len` and `start + len <= s.len()`.
pub open spec fn window_max(s: Seq<i32>, start: int, len: int) -> i32
    decreases len,
{
    if len <= 1 {
        s[start]
    } else {
        larger(window_max(s, start, len - 1), s[start + len - 1])
    }
}

/// The maxima of all windows of length `k` of `s`, by window start.
///
/// Meaningful for `1 <= k <= s.len()`; the result then has `s.len() - k + 1`
/// elements, and element `i` is the maximum of `s[i..i + k)`.
pub open spec fn sliding_max(s: Seq<i32>, k: int) -> Seq<i32> {
    Seq::new((s.len() - k + 1) as nat, |i: int| window_max(s, i, k))
}

/// Whether `m` occurs in `s[start..start + len)` and no element there exceeds it.
pub open spec fn is_max_of_window(s: Seq<i32>, start: int, len: int, m: i32) -> bool {
    &&& exists|j: int| start <= j < start + len && s[j] == m
    &&& forall|j: int| start <= j < start + len ==> s[j] <= m
}

/// `window_max` is an element of its window and bounds every element of it.
pub proof fn lemma_window_max_is_max(s: Seq<i32>, start: int, len: int)
    requires
        0 <= start,
        1 <= len,
        start + len <= s.len(),
    ensures
        is_max_of_window(s, start, len, window_max(s, start, len)),
    decreases len,
{
    if len > 1 {
        lemma_window_max_is_max(s, start, len - 1);
        let prev = window_max(s, start, len - 1);
        let j = choose|j: int| start <= j < start + len - 1 && s[j] == prev;
        let m = window_max(s, start, len);
        if m == prev {
            assert(start <= j < start + len && s[j] == m);
        } else {
            assert(s[start + len - 1] == m);
        }
    } else {
        assert(s[start] == window_max(s, start, len));
    }
}

/// A window has one maximum only: whatever is a maximum of it is `window_max`.
pub proof fn lemma_window_max_unique(s: Seq<i32>, start: int, len: int, m: i32)
    requires
        0 <= start,
        1 <= len,
        start + len <= s.len(),
        is_max_of_window(s, start, len, m),
    ensures
        m == window_max(s, start, len),
{
    lemma_window_max_is_max(s, start, len);
}

/// A window of `s` read through the subrange that holds exactly that window
/// has the same maximum.
pub proof fn lemma_window_max_of_subrange(s: Seq<i32>, start: int, len: int)
    requires
        0 <= start,
        1 <= len,
        start + len <= s.len(),
    ensures
        window_max(s.subrange(start, start + len), 0, len) == window_max(s, start, len),
{
    lemma_window_max_same_elements(s.subrange(start, start + len), 0, s, start, len);
}

/// Two windows that hold the same elements in the same order have the same
/// maximum.
pub proof fn lemma_window_max_same_elements(
    a: Seq<i32>,
    a_start: int,
    b: Seq<i32>,
    b_start: int,
    len: int,
)
    requires
        0 <= a_start,
        0 <= b_start,
        1 <= len,
        a_start + len <= a.len(),
        b_start + len <= b.len(),
        forall|j: int|
            a_start <= j < a_start + len ==> #[trigger] a[j] == b[j - a_start + b_start],
    ensures
        window_max(a, a_start, len) == window_max(b, b_start, len),
    decreases len,
{
    if len > 1 {
        lemma_window_max_same_elements(a, a_start, b, b_start, len - 1);
        assert(a[a_start + len - 1] == b[b_start + len - 1]);
    } else {
        assert(a[a_start] == b[b_start]);
    }
}

/// The output has one element per window: `s.len() - k + 1` of them.
pub proof fn lemma_sliding_max_len(s: Seq<i32>, k: int)
    requires
        1 <= k <= s.len(),
    ensures
        sliding_max(s, k).len() == s.len() - k + 1,
{
}

/// Every element of the output is the greatest element of its window.
pub proof fn lemma_sliding_max_lists_maxima(s: Seq<i32>, k: int, i: int)
    requires
        1 <= k <= s.len(),
        0 <= i <= s.len() - k,
    ensures
        is_max_of_window(s, i, k, sliding_max(s, k)[i]),
{
    lemma_window_max_is_max(s, i, k);
}

/// Whatever lists a maximum of every window, in window order, is the output.
pub proof fn lemma_sliding_max_unique(s: Seq<i32>, k: int, out: Seq<i32>)
    requires
        1 <= k <= s.len(),
        out.len() == s.len() - k + 1,
        forall|i: int| 0 <= i < out.len() ==> is_max_of_window(s, i, k, #[trigger] out[i]),
    ensures
        out == sliding_max(s, k),
{
    assert forall|i: int| 0 <= i < out.len() implies out[i] == sliding_max(s, k)[i] by {
        lemma_window_max_unique(s, i, k, out[i]);
    }
    assert(out =~= sliding_max(s, k));
}

/// With windows of length one the output is the input.
pub proof fn lemma_unit_window(s: Seq<i32>)
    ensures
        sliding_max(s, 1) == s,
{
    assert(sliding_max(s, 1) =~= s);
}

/// With one window that spans the input the output is a single element, the
/// greatest element of the input.
pub proof fn lemma_full_window(s: Seq<i32>)
    requires
        s.len() >= 1,
    ensures
        sliding_max(s, s.len() as int) == seq![window_max(s, 0, s.len() as int)],
        exists|j: int| 0 <= j < s.len() && s[j] == sliding_max(s, s.len() as int)[0],
        forall|j: int| 0 <= j < s.len() ==> s[j] <= sliding_max(s, s.len() as int)[0],
{
    lemma_window_max_is_max(s, 0, s.len() as int);
    assert(sliding_max(s, s.len() as int) =~= seq![window_max(s, 0, s.len() as int)]);
}

} // verus!
