//! ROT13: the Caesar shift by 13, which is its own inverse.
use vstd::prelude::*;

use crate::substitute::{affine_index, affine_substitution, substituted};

verus! {

/// Moves every letter 13 places along the alphabet.
pub fn apply(message: &str) -> (r: String)
    ensures
        r@ == substituted(message@, affine_index(1, 13)),
{
    affine_substitution(message, 1, 13)
}

} // verus!
