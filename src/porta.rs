//! The Porta cipher: the key, repeated, picks for each letter of the message
//! one of thirteen reciprocal alphabets, so decryption is encryption.
use vstd::prelude::*;

use crate::alphabet::{all_letters, chars_of, is_alphabetic_only, letters_of, scrub_text};
use crate::cipher::Cipher;
use crate::substitute::{cycle, cycled, keyed, keyed_substitution, Combine};

verus! {

/// A Porta cipher.
pub struct Porta {
    key: String,
}

impl Porta {
    /// The key.
    pub closed spec fn key_of(&self) -> Seq<char> {
        self.key@
    }

    #[verifier::type_invariant]
    spec fn key_is_letters(&self) -> bool {
        Self::accepts(self.key)
    }

    /// The key repeated over the letters of `message`.
    pub fn keystream(&self, message: &str) -> (r: Vec<char>)
        ensures
            r@ == cycle(self.key_of(), letters_of(message@).len()),
    {
        proof {
            use_type_invariant(self);
        }
        let scrubbed = scrub_text(message);
        let len = scrubbed.as_str().unicode_len();
        let key = chars_of(self.key.as_str());
        cycled(&key, len)
    }
}

impl Cipher for Porta {
    type Key = String;

    open spec fn accepts(key: String) -> bool {
        key@.len() >= 1 && all_letters(key@)
    }

    open spec fn made_from(&self, key: String) -> bool {
        self.key_of() == key@
    }

    open spec fn encrypted(&self, message: Seq<char>) -> Option<Seq<char>> {
        Some(keyed(message, cycle(self.key_of(), letters_of(message).len()), Combine::Reciprocal))
    }

    open spec fn decrypted(&self, message: Seq<char>) -> Option<Seq<char>> {
        Some(keyed(message, cycle(self.key_of(), letters_of(message).len()), Combine::Reciprocal))
    }

    /// Makes a Porta cipher; the key must be letters only, at least one.
    fn new(key: String) -> (r: Result<Porta, &'static str>) {
        if key.as_str().unicode_len() < 1 {
            return Err("Invalid key: must have at least one character.");
        } else if !is_alphabetic_only(key.as_str()) {
            return Err("Invalid key: must contain only alphabetic characters.");
        }
        Ok(Porta { key })
    }

    /// Each letter goes through the alphabet that its key letter picks.
    fn encrypt(&self, message: &str) -> (r: Result<String, &'static str>) {
        proof {
            use_type_invariant(self);
        }
        let ks = self.keystream(message);
        Ok(keyed_substitution(message, &ks, Combine::Reciprocal))
    }

    /// The same as encryption: each alphabet is its own inverse.
    fn decrypt(&self, ciphertext: &str) -> (r: Result<String, &'static str>) {
        proof {
            use_type_invariant(self);
        }
        let ks = self.keystream(ciphertext);
        Ok(keyed_substitution(ciphertext, &ks, Combine::Reciprocal))
    }
}

} // verus!
