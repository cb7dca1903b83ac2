//! The identifier generator: a pseudo-unique numeric token per task, mixed
//! from the textual rendering of the current local time and fresh randomness.
//! No uniqueness is checked against existing identifiers; collisions are
//! merely made improbable.

use vstd::prelude::*;
use crate::task::Id;
use rand::Rng;

verus! {

/// Relies on chrono::offset::Local::now and the Display of the resulting
/// date-time: the current local wall-clock time rendered as text. The result
/// depends on the clock, so nothing is promised of it.
#[verifier::external_body]
fn local_now_string() -> (r: String) {
    chrono::offset::Local::now().to_string()
}

/// Relies on rand::thread_rng and rand::Rng::gen::<u64>: a pseudo-random
/// value. Nothing is promised of it.
#[verifier::external_body]
fn random_u64() -> (r: u64) {
    rand::thread_rng().gen::<u64>()
}

/// Mixes the given bytes into one accumulator, scaling each by a freshly
/// drawn random value, with wrapping arithmetic throughout. The result
/// depends on the randomness drawn, so no value is promised.
fn multiply_contents_by_a_random_number(items: &[u8]) -> u64 {
    let mut result: u64 = 0;
    let mut index: usize = 0;
    while index < items.len()
        decreases items.len() - index,
    {
        let scaled: u64 = (items[index] as u64).wrapping_mul(random_u64());
        result = result.wrapping_add(scaled);
        index = index + 1;
    }
    result
}

/// Generates a numeric task identifier intended to be distinct from all
/// previously generated ones: the current local time rendered as text, its
/// bytes each scaled by fresh randomness and summed. Not cryptographically
/// unique and not monotonic; the caller compares identifiers for equality
/// only.
pub fn gen_id() -> Id {
    let now: String = local_now_string();
    multiply_contents_by_a_random_number(now.as_str().as_bytes())
}

} // verus!
