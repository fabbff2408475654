//! The ordered-tree strategy: the entries are kept in a binary search tree of
//! the `binary_search_tree` crate, whose maximum is read and extracted.

use binary_search_tree::BinarySearchTree;
use vstd::prelude::*;
use vstd::multiset::Multiset;
use crate::entry::{is_greatest, lemma_greatest_unique};
use crate::retained::{
    holds_retained, holds_window_only, is_cleaning, leaves_on_time, lemma_bound_iff_window_only,
    lemma_cleaning_drops_stale, lemma_cleaning_ends, lemma_cleaning_holds_window,
    lemma_cleaning_starts, lemma_on_time_bound, lemma_retained_bound, lemma_seed_holds,
};
use crate::window::{sliding_max, window_max};

verus! {

/// `binary_search_tree::BinarySearchTree`, a binary search tree that keeps
/// every inserted value, equal ones too. Its nodes are not looked into here:
/// what it holds is spoken of through `tree_items` and `tree_size`.
#[verifier::external_type_specification]
#[verifier::external_body]
#[verifier::reject_recursive_types(T)]
pub struct ExBinarySearchTree<T: Ord>(BinarySearchTree<T>);

/// The entries that a tree holds: each as many times as it was inserted and
/// not yet extracted.
pub uninterp spec fn tree_items(tree: BinarySearchTree<(i32, usize)>) -> Multiset<(i32, usize)>;

/// The number that a tree keeps of its entries, in its public field `size`.
pub uninterp spec fn tree_size(tree: BinarySearchTree<(i32, usize)>) -> nat;

/// `BinarySearchTree::new`: a tree that holds nothing, with its count at zero.
#[verifier::external_body]
fn tree_new() -> (tree: BinarySearchTree<(i32, usize)>)
    ensures
        tree_items(tree) == Multiset::<(i32, usize)>::empty(),
        tree_size(tree) == 0,
{
    BinarySearchTree::new()
}

/// `BinarySearchTree::insert`: adds one occurrence of `entry`, beside any
/// equal entry that is there already, and adds one to the count. The count
/// must be below its greatest value, or adding to it overflows.
#[verifier::external_body]
fn tree_insert(tree: &mut BinarySearchTree<(i32, usize)>, entry: (i32, usize))
    requires
        tree_size(*old(tree)) < usize::MAX,
    ensures
        tree_items(*final(tree)) == tree_items(*old(tree)).insert(entry),
        tree_size(*final(tree)) == tree_size(*old(tree)) + 1,
{
    tree.insert(entry);
}

/// `BinarySearchTree::max`: the entry of the rightmost node, which in a
/// search tree is the greatest in tuple order, by value and then by index;
/// nothing where the tree is empty.
#[verifier::external_body]
fn tree_max(tree: &BinarySearchTree<(i32, usize)>) -> (top: Option<&(i32, usize)>)
    ensures
        match top {
            Some(m) => is_greatest(tree_items(*tree), *m),
            None => tree_items(*tree).len() == 0,
        },
{
    tree.max()
}

/// `BinarySearchTree::extract_max`: unlinks the rightmost node, so removes
/// one occurrence of the greatest entry, returns it and takes one from the
/// count; an empty tree is left as it is. The count of a tree that holds an
/// entry must not be zero, or taking from it overflows.
#[verifier::external_body]
fn tree_extract_max(tree: &mut BinarySearchTree<(i32, usize)>) -> (top: Option<(i32, usize)>)
    requires
        tree_items(*old(tree)).len() > 0 ==> tree_size(*old(tree)) > 0,
    ensures
        match top {
            Some(m) => {
                &&& is_greatest(tree_items(*old(tree)), m)
                &&& tree_items(*final(tree)) == tree_items(*old(tree)).remove(m)
                &&& tree_size(*final(tree)) == tree_size(*old(tree)) - 1
            },
            None => {
                &&& tree_items(*old(tree)).len() == 0
                &&& tree_items(*final(tree)) == tree_items(*old(tree))
                &&& tree_size(*final(tree)) == tree_size(*old(tree))
            },
        },
{
    tree.extract_max()
}

/// Completes the window that ends at `idx`: takes in element `idx`, extracts
/// the tree's maximum for as long as it lies before the window, and returns
/// the value of the maximum that is left, the window's maximum.
///
/// A stale entry below the maximum stays in the tree, so the tree holds at
/// most `k` entries only where none has stayed. Where every element leaves
/// on time none has.
pub fn slide_tree(
    tree: &mut BinarySearchTree<(i32, usize)>,
    nums: &Vec<i32>,
    k: usize,
    idx: usize,
) -> (top: i32)
    requires
        1 <= k <= idx + 1 <= nums.len(),
        holds_retained(tree_items(*old(tree)), nums@, k as int, idx as int),
        tree_size(*old(tree)) == tree_items(*old(tree)).len(),
    ensures
        holds_retained(tree_items(*final(tree)), nums@, k as int, idx + 1),
        tree_size(*final(tree)) == tree_items(*final(tree)).len(),
        top == window_max(nums@, idx + 1 - k, k as int),
        tree_items(*final(tree)).len() <= k <==> holds_window_only(nums@, k as int, idx + 1),
        leaves_on_time(nums@, k as int, idx + 1) ==> tree_items(*final(tree)).len() <= k,
{
    let window_size: usize = k - 1;

    proof {
        lemma_retained_bound(tree_items(*tree), nums@, k as int, idx as int);
    }
    tree_insert(tree, (nums[idx], idx));
    proof {
        lemma_cleaning_starts(tree_items(*old(tree)), nums@, k as int, idx);
        lemma_cleaning_holds_window(tree_items(*tree), nums@, k as int, idx, idx);
    }

    let mut top = *tree_max(tree).unwrap();
    while top.1 < idx - window_size
        invariant
            1 <= k <= idx + 1 <= nums.len(),
            window_size == k - 1,
            is_cleaning(tree_items(*tree), nums@, k as int, idx as int),
            is_greatest(tree_items(*tree), top),
            tree_size(*tree) == tree_items(*tree).len(),
        decreases tree_items(*tree).len(),
    {
        let ghost before = tree_items(*tree);
        let removed = tree_extract_max(tree);
        proof {
            lemma_greatest_unique(before, top, removed.unwrap());
            lemma_cleaning_drops_stale(before, nums@, k as int, idx, top);
            lemma_cleaning_holds_window(tree_items(*tree), nums@, k as int, idx, idx);
        }
        top = *tree_max(tree).unwrap();
    }

    proof {
        lemma_cleaning_ends(tree_items(*tree), nums@, k as int, idx, top);
        lemma_bound_iff_window_only(tree_items(*tree), nums@, k as int, idx + 1);
        if leaves_on_time(nums@, k as int, idx + 1) {
            lemma_on_time_bound(tree_items(*tree), nums@, k as int, idx + 1);
        }
    }
    top.0
}

/// Sliding-window maximum with an ordered tree.
///
/// The result lists, for each start `i` from `0` to `nums.len() - k`, the
/// greatest element of `nums[i..i + k)`.
pub fn bst(nums: &Vec<i32>, k: i32) -> (maximums: Vec<i32>)
    requires
        1 <= k <= nums.len(),
    ensures
        maximums.len() == nums.len() - k + 1,
        maximums@ == sliding_max(nums@, k as int),
{
    let k = k as usize;
    let n = nums.len();
    let mut maximums: Vec<i32> = Vec::with_capacity(n - k + 1);
    let window_size: usize = k - 1;

    let mut tree = tree_new();

    for idx in 0..window_size
        invariant
            1 <= k <= n,
            n == nums.len(),
            window_size == k - 1,
            holds_retained(tree_items(tree), nums@, k as int, idx as int),
            tree_size(tree) == tree_items(tree).len(),
    {
        proof {
            lemma_seed_holds(tree_items(tree), nums@, k as int, idx);
            lemma_retained_bound(tree_items(tree), nums@, k as int, idx as int);
        }
        tree_insert(&mut tree, (nums[idx], idx));
    }

    for idx in window_size..n
        invariant
            1 <= k <= n,
            n == nums.len(),
            window_size == k - 1,
            holds_retained(tree_items(tree), nums@, k as int, idx as int),
            tree_size(tree) == tree_items(tree).len(),
            maximums.len() == idx - window_size,
            forall|w: int|
                0 <= w < maximums.len() ==> maximums[w] == window_max(nums@, w, k as int),
    {
        let top = slide_tree(&mut tree, nums, k, idx);
        maximums.push(top);
    }
    maximums
}

} // verus!
