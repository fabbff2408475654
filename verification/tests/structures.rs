use binary_search_tree::BinarySearchTree;
use sliding_max::deque::slide_deque;
use sliding_max::entry::entry_at_most;
use sliding_max::heap::slide_heap;
use sliding_max::tree::slide_tree;
use sliding_max::MaxHeap;
use std::collections::VecDeque;

fn sample(n: usize, modulus: i64) -> Vec<i32> {
    let mut state: i64 = 12345;
    let mut v = Vec::with_capacity(n);
    for _ in 0..n {
        state = (state * 1103515245 + 12345) % 2147483648;
        v.push((state % modulus) as i32 - (modulus / 2) as i32);
    }
    v
}

#[test]
fn entries_are_ordered_by_value_then_index() {
    assert!(entry_at_most((1, 9), (2, 0)));
    assert!(!entry_at_most((2, 0), (1, 9)));
    assert!(entry_at_most((5, 3), (5, 4)));
    assert!(!entry_at_most((5, 4), (5, 3)));
    assert!(entry_at_most((5, 3), (5, 3)));
    assert!(entry_at_most((-1, 0), (0, 0)));
}

#[test]
fn empty_heap_shows_and_gives_nothing() {
    let mut heap = MaxHeap::new();
    assert!(heap.is_empty());
    assert_eq!(heap.len(), 0);
    assert_eq!(heap.peek(), None);
    assert_eq!(heap.pop(), None);
    assert_eq!(heap.len(), 0);
}

#[test]
fn heap_gives_entries_from_greatest_to_least() {
    let mut heap = MaxHeap::new();
    let entries = [(3, 0), (-7, 1), (10, 2), (3, 3), (0, 4), (10, 5), (-7, 6), (2, 7)];
    for e in entries {
        heap.push(e);
    }
    assert_eq!(heap.len(), 8);
    assert!(!heap.is_empty());
    assert_eq!(heap.peek(), Some((10, 5)));
    let mut out = Vec::new();
    while let Some(e) = heap.pop() {
        out.push(e);
    }
    assert_eq!(
        out,
        vec![(10, 5), (10, 2), (3, 3), (3, 0), (2, 7), (0, 4), (-7, 6), (-7, 1)]
    );
    assert!(heap.is_empty());
}

#[test]
fn heap_keeps_equal_entries_apart() {
    let mut heap = MaxHeap::new();
    heap.push((4, 1));
    heap.push((4, 1));
    heap.push((4, 0));
    assert_eq!(heap.len(), 3);
    assert_eq!(heap.pop(), Some((4, 1)));
    assert_eq!(heap.pop(), Some((4, 1)));
    assert_eq!(heap.pop(), Some((4, 0)));
    assert_eq!(heap.pop(), None);
}

#[test]
fn heap_sorts_many_entries() {
    let values = sample(2000, 500);
    let mut heap = MaxHeap::new();
    for (i, v) in values.iter().enumerate() {
        heap.push((*v, i));
        assert_eq!(heap.len(), i + 1);
    }
    let mut expected: Vec<(i32, usize)> = values.iter().cloned().zip(0..).collect();
    expected.sort();
    expected.reverse();
    let mut out = Vec::new();
    while let Some(top) = heap.peek() {
        assert_eq!(heap.pop(), Some(top));
        out.push(top);
    }
    assert_eq!(out, expected);
}

#[test]
fn heap_interleaves_pushes_and_pops() {
    let mut heap = MaxHeap::new();
    heap.push((1, 0));
    heap.push((5, 1));
    assert_eq!(heap.pop(), Some((5, 1)));
    heap.push((3, 2));
    heap.push((2, 3));
    assert_eq!(heap.peek(), Some((3, 2)));
    assert_eq!(heap.pop(), Some((3, 2)));
    assert_eq!(heap.pop(), Some((2, 3)));
    heap.push((0, 4));
    assert_eq!(heap.pop(), Some((1, 0)));
    assert_eq!(heap.pop(), Some((0, 4)));
    assert_eq!(heap.pop(), None);
}

#[test]
fn deque_steps_on_a_known_input() {
    let nums = vec![1, 3, -1, -3, 5, 3, 6, 7];
    let k = 3;
    let mut deque: VecDeque<(i32, usize)> = VecDeque::new();
    let expected: Vec<Vec<(i32, usize)>> = vec![
        vec![(1, 0)],
        vec![(3, 1)],
        vec![(3, 1), (-1, 2)],
        vec![(3, 1), (-1, 2), (-3, 3)],
        vec![(5, 4)],
        vec![(5, 4), (3, 5)],
        vec![(6, 6)],
        vec![(7, 7)],
    ];
    for idx in 0..nums.len() {
        slide_deque(&mut deque, &nums, k, idx);
        let held: Vec<(i32, usize)> = deque.iter().cloned().collect();
        assert_eq!(held, expected[idx]);
    }
}

#[test]
fn deque_never_holds_more_than_the_window() {
    for k in [1usize, 2, 3, 7, 64, 300] {
        for nums in [sample(300, 50), (0..300).rev().collect::<Vec<i32>>(), vec![8; 300]] {
            let mut deque: VecDeque<(i32, usize)> = VecDeque::new();
            for idx in 0..nums.len() {
                slide_deque(&mut deque, &nums, k, idx);
                assert!(deque.len() >= 1);
                assert!(deque.len() <= k);
                assert_eq!(deque.back(), Some(&(nums[idx], idx)));
            }
        }
    }
}

#[test]
fn deque_reaches_the_window_length_on_falling_input() {
    let nums: Vec<i32> = (0..20).rev().collect();
    let k = 5;
    let mut deque: VecDeque<(i32, usize)> = VecDeque::new();
    for idx in 0..nums.len() {
        slide_deque(&mut deque, &nums, k, idx);
        assert_eq!(deque.len(), (idx + 1).min(k));
    }
}

#[test]
fn deque_values_fall_strictly_from_front_to_back() {
    for k in [1usize, 2, 5, 40] {
        let nums = sample(400, 12);
        let mut deque: VecDeque<(i32, usize)> = VecDeque::new();
        for idx in 0..nums.len() {
            slide_deque(&mut deque, &nums, k, idx);
            for t in 1..deque.len() {
                assert!(deque[t - 1].0 > deque[t].0);
                assert!(deque[t - 1].1 < deque[t].1);
            }
            if idx + 1 >= k {
                let expected = *nums[idx + 1 - k..=idx].iter().max().unwrap();
                assert_eq!(deque[0].0, expected);
            }
        }
    }
}

#[test]
fn heap_step_reports_the_window_maximum() {
    let nums = vec![1, 3, -1, -3, 5, 3, 6, 7];
    let k = 3;
    let mut heap = MaxHeap::new();
    heap.push((nums[0], 0));
    heap.push((nums[1], 1));
    let mut out = Vec::new();
    for idx in 2..nums.len() {
        out.push(slide_heap(&mut heap, &nums, k, idx));
    }
    assert_eq!(out, vec![3, 3, 5, 5, 6, 7]);
}

#[test]
fn heap_keeps_stale_entries_below_the_top() {
    let nums = vec![1, 2, 3, 4, 5, 6];
    let k = 2;
    let mut heap = MaxHeap::new();
    heap.push((nums[0], 0));
    for idx in 1..nums.len() {
        assert_eq!(slide_heap(&mut heap, &nums, k, idx), nums[idx]);
        assert_eq!(heap.len(), idx + 1);
    }
}

#[test]
fn heap_drops_stale_entries_that_reach_the_top() {
    let nums = vec![9, 1, 2, 3, 0, 0, 0];
    let k = 3;
    let mut heap = MaxHeap::new();
    heap.push((nums[0], 0));
    heap.push((nums[1], 1));
    assert_eq!(slide_heap(&mut heap, &nums, k, 2), 9);
    assert_eq!(heap.len(), 3);
    assert_eq!(slide_heap(&mut heap, &nums, k, 3), 3);
    assert_eq!(heap.len(), 3);
    assert_eq!(slide_heap(&mut heap, &nums, k, 4), 3);
    assert_eq!(heap.len(), 4);
    assert_eq!(slide_heap(&mut heap, &nums, k, 5), 3);
    assert_eq!(heap.len(), 5);
    assert_eq!(slide_heap(&mut heap, &nums, k, 6), 0);
    assert_eq!(heap.len(), 3);
    assert_eq!(heap.peek(), Some((0, 6)));
}

#[test]
fn tree_step_reports_the_window_maximum() {
    let nums = vec![1, 3, -1, -3, 5, 3, 6, 7];
    let k = 3;
    let mut tree: BinarySearchTree<(i32, usize)> = BinarySearchTree::new();
    tree.insert((nums[0], 0));
    tree.insert((nums[1], 1));
    let mut out = Vec::new();
    for idx in 2..nums.len() {
        out.push(slide_tree(&mut tree, &nums, k, idx));
    }
    assert_eq!(out, vec![3, 3, 5, 5, 6, 7]);
}

#[test]
fn tree_holds_the_window_alone_where_every_element_leaves_on_time() {
    let nums = vec![50, 40, 30, 20, 10, 9, 8, 7, 3, 2, 1];
    for k in [1usize, 2, 3, 10, 11] {
        let mut tree: BinarySearchTree<(i32, usize)> = BinarySearchTree::new();
        for idx in 0..k - 1 {
            tree.insert((nums[idx], idx));
        }
        for idx in k - 1..nums.len() {
            assert_eq!(slide_tree(&mut tree, &nums, k, idx), nums[idx + 1 - k]);
            assert_eq!(tree.len(), k);
            let held: Vec<(i32, usize)> = tree.sorted_vec().into_iter().cloned().collect();
            let mut expected: Vec<(i32, usize)> =
                (idx + 1 - k..=idx).map(|j| (nums[j], j)).collect();
            expected.sort();
            assert_eq!(held, expected);
        }
    }
}

#[test]
fn tree_keeps_a_stale_entry_that_is_not_its_maximum() {
    let nums = vec![1, 2, 3];
    let k = 2;
    let mut tree: BinarySearchTree<(i32, usize)> = BinarySearchTree::new();
    tree.insert((nums[0], 0));
    assert_eq!(slide_tree(&mut tree, &nums, k, 1), 2);
    assert_eq!(tree.len(), 2);
    assert_eq!(slide_tree(&mut tree, &nums, k, 2), 3);
    assert_eq!(tree.len(), 3);
    assert!(tree.contains(&(1, 0)));
}

#[test]
fn tree_extracts_stale_maxima_until_the_window_shows() {
    let nums = vec![9, 8, 1, 1, 1];
    let k = 2;
    let mut tree: BinarySearchTree<(i32, usize)> = BinarySearchTree::new();
    tree.insert((nums[0], 0));
    assert_eq!(slide_tree(&mut tree, &nums, k, 1), 9);
    assert_eq!(slide_tree(&mut tree, &nums, k, 2), 8);
    assert_eq!(tree.len(), 2);
    assert_eq!(slide_tree(&mut tree, &nums, k, 3), 1);
    assert_eq!(tree.len(), 2);
    assert_eq!(tree.max(), Some(&(1, 3)));
    assert_eq!(slide_tree(&mut tree, &nums, k, 4), 1);
    assert_eq!(tree.max(), Some(&(1, 4)));
    assert_eq!(tree.len(), 3);
}

#[test]
fn heap_and_tree_hold_the_same_entries() {
    let nums = sample(300, 40);
    for k in [1usize, 2, 9, 150, 300] {
        let mut heap = MaxHeap::new();
        let mut tree: BinarySearchTree<(i32, usize)> = BinarySearchTree::new();
        for idx in 0..k - 1 {
            heap.push((nums[idx], idx));
            tree.insert((nums[idx], idx));
        }
        for idx in k - 1..nums.len() {
            let a = slide_heap(&mut heap, &nums, k, idx);
            let b = slide_tree(&mut tree, &nums, k, idx);
            assert_eq!(a, b);
            assert_eq!(heap.len(), tree.len());
            assert_eq!(heap.peek().as_ref(), tree.max());
        }
    }
}
