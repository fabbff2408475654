//! Sliding-window maximum: for every window of `k` consecutive elements of a
//! sequence of integers, the greatest element of that window, in window order.
//!
//! Four strategies compute the same sequence: a direct scan of every window,
//! a max-heap with lazy removal, an ordered tree, and a monotonic deque.
//! Their common meaning is the spec function [`window::sliding_max`].

pub mod brute;
pub mod deque;
pub mod entry;
pub mod heap;
pub mod laws;
pub mod max_heap;
pub mod random;
pub mod retained;
pub mod tree;
pub mod window;

pub use brute::brute_force;
pub use brute::brute_force_idiomatic;
pub use deque::linear;
pub use heap::heap;
pub use max_heap::MaxHeap;
pub use random::gen_random_vector;
pub use tree::bst;
