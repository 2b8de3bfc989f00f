//! Random input lists, drawn from the thread-local generator of `rand`.

use rand::rngs::ThreadRng;
use rand::Rng;
use vstd::prelude::*;

verus! {

/// `rand::rngs::ThreadRng`, the handle to the generator of the current
/// thread. Nothing is known of what it holds.
#[verifier::external_type_specification]
#[verifier::external_body]
pub struct ExThreadRng(rand::rngs::ThreadRng);

/// `rand::thread_rng` hands out the handle to the generator of the current
/// thread. It takes no argument; the generator is seeded by the operating
/// system when the thread first asks for it, and the call fails only where
/// the system has no entropy to give. Nothing is claimed of the handle.
pub assume_specification[ rand::thread_rng ]() -> (generator: rand::rngs::ThreadRng)
;

/// `Rng::gen::<u32>` on the thread generator: the next sample of the
/// standard distribution. Nothing is claimed of the sample, so that every
/// `u32` has to be expected, and two calls may give two values.
#[verifier::external_body]
fn next_sample(generator: &mut ThreadRng) -> (sample: u32) {
    generator.gen::<u32>()
}

/// Brings a sample below `max` by taking its remainder.
pub fn reduce_sample(sample: u32, max: u32) -> (value: u32)
    requires
        max > 0,
    ensures
        value == sample % max,
        value < max,
{
    sample % max
}

/// A list of `size` random numbers, each below `max`.
///
/// Every item is a fresh sample of the thread generator, reduced by
/// [`reduce_sample`]. Which numbers come out is left open; their count and
/// their bound are not. There is no number below zero, so `max` has to be
/// positive.
pub fn random_list(size: usize, max: u32) -> (list: Vec<u32>)
    requires
        max > 0,
    ensures
        list@.len() == size,
        forall|i: int| 0 <= i < size ==> list@[i] < max,
{
    let mut generator: ThreadRng = rand::thread_rng();
    let mut list: Vec<u32> = Vec::new();
    let mut i: usize = 0;
    while i < size
        invariant
            i <= size,
            max > 0,
            list@.len() == i,
            forall|j: int| 0 <= j < i ==> list@[j] < max,
        decreases size - i,
    {
        let sample: u32 = next_sample(&mut generator);
        list.push(reduce_sample(sample, max));
        i += 1;
    }
    list
}

} // verus!
