//! The Caesar cipher: every letter moves a fixed number of places along the
//! alphabet.
use vstd::prelude::*;

use crate::cipher::Cipher;
use crate::substitute::{
    affine_index, affine_substitution, lemma_affine_congruent, lemma_same_substitution,
    substituted,
};

verus! {

/// A Caesar cipher with a shift in `1..=26`.
pub struct Caesar {
    shift: usize,
}

impl Caesar {
    /// The shift.
    pub closed spec fn shift_of(&self) -> int {
        self.shift as int
    }

    #[verifier::type_invariant]
    spec fn shift_in_range(&self) -> bool {
        1 <= self.shift <= 26
    }
}

impl Cipher for Caesar {
    type Key = usize;

    open spec fn accepts(shift: usize) -> bool {
        1 <= shift <= 26
    }

    open spec fn made_from(&self, shift: usize) -> bool {
        self.shift_of() == shift
    }

    open spec fn encrypted(&self, message: Seq<char>) -> Option<Seq<char>> {
        Some(substituted(message, affine_index(1, self.shift_of())))
    }

    open spec fn decrypted(&self, message: Seq<char>) -> Option<Seq<char>> {
        Some(substituted(message, affine_index(1, -self.shift_of())))
    }

    /// Makes a Caesar cipher; the shift must lie in `1..=26`.
    fn new(shift: usize) -> (r: Result<Caesar, &'static str>) {
        if shift >= 1 && shift <= 26 {
            return Ok(Caesar { shift });
        }
        Err("Invalid shift factor. Must be in the range 1-26")
    }

    /// Moves every letter `shift` places forward: `E(x) = (x + n) mod 26`.
    fn encrypt(&self, message: &str) -> (r: Result<String, &'static str>) {
        proof {
            use_type_invariant(self);
        }
        let add = self.shift % 26;
        proof {
            vstd::arithmetic::div_mod::lemma_mod_twice(self.shift as int, 26);
            lemma_affine_congruent(1, add as int, 1, self.shift as int);
            lemma_same_substitution(
                message@,
                affine_index(1, add as int),
                affine_index(1, self.shift as int),
            );
        }
        Ok(affine_substitution(message, 1, add))
    }

    /// Moves every letter `shift` places back: `D(x) = (x - n) mod 26`.
    fn decrypt(&self, ciphertext: &str) -> (r: Result<String, &'static str>) {
        proof {
            use_type_invariant(self);
        }
        let add = (26 - self.shift) % 26;
        proof {
            vstd::arithmetic::div_mod::lemma_mod_add_multiples_vanish(-(self.shift as int), 26);
            lemma_affine_congruent(1, add as int, 1, -(self.shift as int));
            lemma_same_substitution(
                ciphertext@,
                affine_index(1, add as int),
                affine_index(1, -(self.shift as int)),
            );
        }
        Ok(affine_substitution(ciphertext, 1, add))
    }
}

} // verus!
