//! Random input sequences, drawn from the thread-local generator of `rand`.

use rand::rngs::ThreadRng;
use vstd::prelude::*;

verus! {

/// `rand::rngs::ThreadRng`, the handle to a thread's generator. Its state is
/// not looked into here.
#[verifier::external_type_specification]
#[verifier::external_body]
pub struct ExThreadRng(ThreadRng);

/// `rand::thread_rng`: a handle to the generator of the current thread.
/// Nothing is known of it but that it can be drawn from. The generator is
/// seeded from the operating system on first use in a thread, and `rand`
/// panics there if the system gives it no seed.
#[verifier::external_body]
fn thread_generator() -> ThreadRng {
    rand::thread_rng()
}

/// `Rng::gen_range` on the half-open range `low..high`: some value of the
/// range, whichever the generator gives. The range must not be empty.
#[verifier::external_body]
fn random_in(rng: &mut ThreadRng, low: i32, high: i32) -> (x: i32)
    requires
        low < high,
    ensures
        low <= x < high,
{
    rand::Rng::gen_range(rng, low..high)
}

/// A sequence of `n` random values, each non-negative and below `i32::MAX`.
///
/// Which values come is up to the generator: two calls need not agree.
pub fn gen_random_vector(n: usize) -> (nums: Vec<i32>)
    ensures
        nums.len() == n,
        forall|i: int| 0 <= i < n ==> 0 <= #[trigger] nums[i] < i32::MAX,
{
    let mut nums: Vec<i32> = Vec::new();
    let mut rng = thread_generator();
    for _i in 0..n
        invariant
            nums.len() == _i,
            forall|i: int| 0 <= i < nums.len() ==> 0 <= #[trigger] nums[i] < i32::MAX,
    {
        nums.push(random_in(&mut rng, 0, i32::MAX));
    }

    nums
}

} // verus!
