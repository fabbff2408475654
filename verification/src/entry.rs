//! Candidate entries: `(value, index)` pairs, ordered by value and then by
//! index, and what it means for one to be the greatest of a collection.

use vstd::prelude::*;
use vstd::multiset::Multiset;

verus! {

/// The order of entries: by value first, by index among equal values.
pub open spec fn entry_le(a: (i32, usize), b: (i32, usize)) -> bool {
    a.0 < b.0 || (a.0 == b.0 && a.1 <= b.1)
}

/// Whether `m` occurs in `items` and no entry of `items` is greater.
pub open spec fn is_greatest(items: Multiset<(i32, usize)>, m: (i32, usize)) -> bool {
    &&& items.count(m) > 0
    &&& forall|e: (i32, usize)| items.count(e) > 0 ==> entry_le(e, m)
}

/// Decides the order of two entries.
pub fn entry_at_most(a: (i32, usize), b: (i32, usize)) -> (r: bool)
    ensures
        r == entry_le(a, b),
{
    a.0 < b.0 || (a.0 == b.0 && a.1 <= b.1)
}

/// A collection has one greatest entry only.
pub proof fn lemma_greatest_unique(items: Multiset<(i32, usize)>, a: (i32, usize), b: (i32, usize))
    requires
        is_greatest(items, a),
        is_greatest(items, b),
    ensures
        a == b,
{
    assert(entry_le(a, b) && entry_le(b, a));
}

} // verus!
