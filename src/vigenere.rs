//! The Vigenère cipher: the key, repeated, shifts each letter of the message
//! by the index of the key letter that falls on it.
use vstd::prelude::*;

use crate::alphabet::{all_letters, chars_of, is_alphabetic_only, letters_of, scrub_text};
use crate::cipher::Cipher;
use crate::substitute::{cycle, cycled, keyed, keyed_substitution, Combine};

verus! {

/// A Vigenère cipher.
pub struct Vigenere {
    key: String,
}

impl Vigenere {
    /// The key.
    pub closed spec fn key_of(&self) -> Seq<char> {
        self.key@
    }

    #[verifier::type_invariant]
    spec fn key_is_letters(&self) -> bool {
        Self::accepts(self.key)
    }

    /// The key repeated over the letters of `message`.
    pub fn keystream(&self, message: &str) -> (r: Vec<char>)
        ensures
            r@ == cycle(self.key_of(), letters_of(message@).len()),
    {
        proof {
            use_type_invariant(self);
        }
        let scrubbed = scrub_text(message);
        let len = scrubbed.as_str().unicode_len();
        let key = chars_of(self.key.as_str());
        cycled(&key, len)
    }
}

impl Cipher for Vigenere {
    type Key = String;

    open spec fn accepts(key: String) -> bool {
        key@.len() >= 1 && all_letters(key@)
    }

    open spec fn made_from(&self, key: String) -> bool {
        self.key_of() == key@
    }

    open spec fn encrypted(&self, message: Seq<char>) -> Option<Seq<char>> {
        Some(keyed(message, cycle(self.key_of(), letters_of(message).len()), Combine::Add))
    }

    open spec fn decrypted(&self, message: Seq<char>) -> Option<Seq<char>> {
        Some(keyed(message, cycle(self.key_of(), letters_of(message).len()), Combine::Subtract))
    }

    /// Makes a Vigenère cipher; the key must be letters only, at least one.
    fn new(key: String) -> (r: Result<Vigenere, &'static str>) {
        if key.as_str().unicode_len() < 1 {
            return Err("Invalid key. It must have at least one character.");
        } else if !is_alphabetic_only(key.as_str()) {
            return Err("Invalid key. Vigenère keys cannot contain non-alphabetic symbols.");
        }
        Ok(Vigenere { key })
    }

    /// `C_i = (M_i + K_i) mod 26` on the letters; other characters stay.
    fn encrypt(&self, message: &str) -> (r: Result<String, &'static str>) {
        proof {
            use_type_invariant(self);
        }
        let ks = self.keystream(message);
        Ok(keyed_substitution(message, &ks, Combine::Add))
    }

    /// `M_i = (C_i - K_i) mod 26` on the letters; other characters stay.
    fn decrypt(&self, ciphertext: &str) -> (r: Result<String, &'static str>) {
        proof {
            use_type_invariant(self);
        }
        let ks = self.keystream(ciphertext);
        Ok(keyed_substitution(ciphertext, &ks, Combine::Subtract))
    }
}

} // verus!
