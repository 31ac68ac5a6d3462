//! The affine cipher: the letter at index `x` becomes the letter at
//! `(a * x + b) mod 26`, where `a` is prime to 26.
use vstd::prelude::*;

use crate::alphabet::{gcd, gcd_of, inverse_mod26, lemma_unit_has_inverse, multiplicative_inverse};
use crate::cipher::Cipher;
use crate::substitute::{affine_index, affine_substitution, lemma_same_substitution, substituted};

verus! {

/// The index `x` sent back to `(a_inv * (x - b)) mod 26`.
pub open spec fn affine_inverse_index(a_inv: int, b: int) -> spec_fn(nat) -> nat {
    |x: nat| ((a_inv * (x - b)) % 26) as nat
}

/// The inverse of `a` modulo 26, or 0 where there is none.
pub open spec fn inverse_or_zero(a: int) -> int {
    match inverse_mod26(a) {
        Some(x) => x as int,
        None => 0,
    }
}

/// An affine cipher with key `(a, b)`.
pub struct Affine {
    a_b: (usize, usize),
}

impl Affine {
    /// The key `(a, b)`.
    pub closed spec fn key(&self) -> (usize, usize) {
        self.a_b
    }

    #[verifier::type_invariant]
    spec fn key_in_range(&self) -> bool {
        Self::accepts(self.a_b)
    }
}

proof fn lemma_decrypt_index(a_inv: int, b: int)
    requires
        0 <= a_inv < 26,
        1 <= b <= 26,
    ensures
        forall|x: nat|
            x < 26 ==> #[trigger] affine_index(a_inv, (a_inv * (26 - b)) % 26)(x)
                == affine_inverse_index(a_inv, b)(x),
{
    assert forall|x: nat| x < 26 implies #[trigger] affine_index(a_inv, (a_inv * (26 - b)) % 26)(
        x,
    ) == affine_inverse_index(a_inv, b)(x) by {
        let t = a_inv * (26 - b);
        let u = a_inv * x;
        assert(a_inv * (x - b) == 26 * (-a_inv) + (u + t)) by (nonlinear_arith)
            requires
                t == a_inv * (26 - b),
                u == a_inv * x,
        ;
        vstd::arithmetic::div_mod::lemma_mod_multiples_vanish(-a_inv, u + t, 26);
        vstd::arithmetic::div_mod::lemma_add_mod_noop(u, t, 26);
        vstd::arithmetic::div_mod::lemma_mod_twice(t, 26);
        vstd::arithmetic::div_mod::lemma_add_mod_noop(u, t % 26, 26);
    }
}

impl Cipher for Affine {
    type Key = (usize, usize);

    open spec fn accepts(a_b: (usize, usize)) -> bool {
        1 <= a_b.0 <= 26 && 1 <= a_b.1 <= 26 && gcd(a_b.0 as nat, 26) == 1
    }

    open spec fn made_from(&self, a_b: (usize, usize)) -> bool {
        self.key() == a_b
    }

    open spec fn encrypted(&self, message: Seq<char>) -> Option<Seq<char>> {
        Some(substituted(message, affine_index(self.key().0 as int, self.key().1 as int)))
    }

    open spec fn decrypted(&self, message: Seq<char>) -> Option<Seq<char>> {
        Some(
            substituted(
                message,
                affine_inverse_index(inverse_or_zero(self.key().0 as int), self.key().1 as int),
            ),
        )
    }

    /// Makes an affine cipher; `a` and `b` must lie in `1..=26` and `a` must be
    /// prime to 26.
    fn new(a_b: (usize, usize)) -> (r: Result<Affine, &'static str>) {
        if a_b.0 < 1 || a_b.1 < 1 {
            return Err("The keys a & b must be >= 1.");
        }
        if a_b.0 > 26 || a_b.1 > 26 {
            return Err("The keys a & b must be <= 26.");
        }
        if gcd_of(a_b.0, 26) != 1 {
            return Err("The key 'a' cannot share a common factor with 26.");
        }
        Ok(Affine { a_b })
    }

    /// `E(x) = (a * x + b) mod 26` on every letter.
    fn encrypt(&self, message: &str) -> (r: Result<String, &'static str>) {
        proof {
            use_type_invariant(self);
        }
        let (a, b) = self.a_b;
        let ma = a % 26;
        let mb = b % 26;
        proof {
            vstd::arithmetic::div_mod::lemma_mod_twice(a as int, 26);
            vstd::arithmetic::div_mod::lemma_mod_twice(b as int, 26);
            crate::substitute::lemma_affine_congruent(ma as int, mb as int, a as int, b as int);
            lemma_same_substitution(
                message@,
                affine_index(ma as int, mb as int),
                affine_index(a as int, b as int),
            );
        }
        Ok(affine_substitution(message, ma, mb))
    }

    /// `D(x) = (a^-1 * (x - b)) mod 26` on every letter.
    fn decrypt(&self, ciphertext: &str) -> (r: Result<String, &'static str>) {
        proof {
            use_type_invariant(self);
        }
        let (a, b) = self.a_b;
        proof {
            if a == 26 {
                assert(gcd(26, 26) == gcd(26, 0));
            }
            lemma_unit_has_inverse(a as int);
        }
        let a_inv = match multiplicative_inverse(a as isize) {
            Some(x) => x,
            None => {
                assert(false);
                0
            },
        };
        assert(a_inv * (26 - b) < 676) by (nonlinear_arith)
            requires
                a_inv < 26,
                1 <= b <= 26,
        ;
        let add = (a_inv * (26 - b)) % 26;
        proof {
            lemma_decrypt_index(a_inv as int, b as int);
            lemma_same_substitution(
                ciphertext@,
                affine_index(a_inv as int, add as int),
                affine_inverse_index(a_inv as int, b as int),
            );
        }
        Ok(affine_substitution(ciphertext, a_inv, add))
    }
}

} // verus!
