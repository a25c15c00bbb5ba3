use crate::field::{FieldElement, MODULUS};
use vstd::prelude::*;

verus! {

/// Relies on rand::random::<u128>: a value drawn from the thread-local
/// cryptographically secure generator.  Nothing can be promised of a
/// random value, so nothing is.
#[verifier::external_body]
fn random_u128() -> u128 {
    rand::random::<u128>()
}

impl FieldElement {
    /// A random field element: draw 128 uniformly random bits and reject
    /// any candidate at or above the modulus, so that accepted values are
    /// uniform over the field rather than biased by truncation.  A draw is
    /// rejected with probability below `2^-120`, so the retry bound is
    /// never reached in practice; it exists so that the loop provably
    /// terminates.
    pub fn random() -> (r: Self)
        ensures
            r.valid(),
    {
        let mut tries: u64 = 0;
        while tries < 100000
            decreases 100000 - tries,
        {
            let c = random_u128();
            if c < MODULUS {
                return FieldElement::from_u128(c);
            }
            tries = tries + 1;
        }
        FieldElement::from_u128(random_u128())
    }
}

} // verus!
