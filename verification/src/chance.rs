//! Where the simulation draws its random numbers.

use vstd::prelude::*;

verus! {

/// A byte from `rand::random`, which draws it from the thread's generator. Nothing is
/// claimed of the value: any byte may come back, and two draws may differ.
#[verifier::external_body]
pub(crate) fn random_byte() -> u8 {
    rand::random::<u8>()
}

/// A machine word from `rand::random`, which draws it from the thread's generator.
/// Nothing is claimed of the value: any word may come back, and two draws may differ.
#[verifier::external_body]
pub(crate) fn random_index() -> usize {
    rand::random::<usize>()
}

} // verus!
