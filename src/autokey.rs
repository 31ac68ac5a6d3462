//! The autokey cipher: the key is followed by the message's own letters, and
//! each letter of the message is shifted by the letter of that stream that
//! falls on it.
use vstd::prelude::*;

use crate::alphabet::{
    all_letters, chars_of, find_position, get_letter, index_of, is_alphabetic_only, is_letter,
    is_upper, lemma_index_bound, lemma_letter_round_trip, letter_at, letters_of, scrub_text,
    string_of,
};
use crate::cipher::Cipher;
use crate::substitute::{keyed, keyed_substitution, lemma_letter_count_step, letter_count, Combine};

verus! {

/// The first `i` characters of the decryption of `c` under `key`: the `k`-th
/// letter is shifted back by the `k`-th letter of the key followed by the
/// letters decrypted so far.
pub open spec fn autokey_plain(c: Seq<char>, key: Seq<char>, i: nat) -> Seq<char>
    decreases i,
{
    if i == 0 {
        Seq::empty()
    } else {
        let prev = autokey_plain(c, key, (i - 1) as nat);
        let ch = c[i - 1];
        if is_letter(ch) {
            let k = letter_count(c, i - 1);
            let kc = if k < key.len() {
                key[k as int]
            } else {
                letters_of(prev)[k - key.len()]
            };
            prev.push(letter_at(((index_of(ch) - index_of(kc)) % 26) as nat, is_upper(ch)))
        } else {
            prev.push(ch)
        }
    }
}

/// An autokey cipher.
pub struct Autokey {
    key: String,
}

impl Autokey {
    /// The key.
    pub closed spec fn key_of(&self) -> Seq<char> {
        self.key@
    }

    #[verifier::type_invariant]
    spec fn key_is_letters(&self) -> bool {
        Self::accepts(self.key)
    }

    /// The key followed by the letters of `message`, cut to the number of those letters.
    pub fn encrypt_keystream(&self, message: &str) -> (r: Vec<char>)
        ensures
            r@ == (self.key_of() + letters_of(message@)).subrange(
                0,
                letters_of(message@).len() as int,
            ),
    {
        let scrubbed = chars_of(scrub_text(message).as_str());
        let key = chars_of(self.key.as_str());
        let len = scrubbed.len();
        let ghost full = key@ + scrubbed@;
        let mut out: Vec<char> = Vec::new();
        let mut k: usize = 0;
        while k < len
            invariant
                len == scrubbed@.len(),
                full == key@ + scrubbed@,
                k <= len,
                out@ == full.subrange(0, k as int),
            decreases len - k,
        {
            if k < key.len() {
                out.push(key[k]);
            } else {
                out.push(scrubbed[k - key.len()]);
            }
            assert(out@ =~= full.subrange(0, k + 1));
            k += 1;
        }
        out
    }

    /// Decrypts, feeding each recovered letter back into the keystream.
    fn autokey_decrypt(&self, ciphertext: &str) -> (r: String)
        ensures
            r@ == autokey_plain(ciphertext@, self.key_of(), ciphertext@.len()),
    {
        proof {
            use_type_invariant(self);
        }
        let c = chars_of(ciphertext);
        let key = chars_of(self.key.as_str());
        let ghost kv = key@;
        let mut plain: Vec<char> = Vec::new();
        let mut plain_letters: Vec<char> = Vec::new();
        let mut count: usize = 0;
        let mut i: usize = 0;
        proof {
            assert(ciphertext@.subrange(0, 0) =~= Seq::<char>::empty());
            reveal(Seq::filter);
        }
        while i < c.len()
            invariant
                c@ == ciphertext@,
                kv == key@,
                kv == self.key_of(),
                all_letters(kv),
                kv.len() >= 1,
                i <= c.len(),
                count == letter_count(ciphertext@, i as int),
                plain@ == autokey_plain(ciphertext@, kv, i as nat),
                plain_letters@ == letters_of(plain@),
                plain_letters@.len() == count,
                all_letters(plain_letters@),
            decreases c.len() - i,
        {
            let ch = c[i];
            let ghost prev = plain@;
            proof {
                lemma_letter_count_step(ciphertext@, i as int);
                reveal(Seq::filter);
            }
            match find_position(ch) {
                Some(ci) => {
                    let kc = if count < key.len() {
                        key[count]
                    } else {
                        plain_letters[count - key.len()]
                    };
                    proof {
                        lemma_index_bound(ch);
                        lemma_index_bound(kc);
                    }
                    let ki = match find_position(kc) {
                        Some(k) => k,
                        None => {
                            assert(false);
                            0
                        },
                    };
                    proof {
                        vstd::arithmetic::div_mod::lemma_mod_add_multiples_vanish(ci - ki, 26);
                    }
                    let si = (ci + 26 - ki) % 26;
                    let up = 'A' <= ch && ch <= 'Z';
                    proof {
                        lemma_letter_round_trip(si as nat, up);
                    }
                    let s = match get_letter(si, up) {
                        Some(l) => l,
                        None => {
                            assert(false);
                            'a'
                        },
                    };
                    plain.push(s);
                    plain_letters.push(s);
                    count += 1;
                    proof {
                        assert(plain@.drop_last() == prev);
                        assert(plain@.last() == s);
                    }
                },
                None => {
                    plain.push(ch);
                    proof {
                        assert(plain@.drop_last() == prev);
                        assert(plain@.last() == ch);
                    }
                },
            }
            assert(plain@ == autokey_plain(ciphertext@, kv, (i + 1) as nat));
            assert(plain_letters@ == letters_of(plain@));
            i += 1;
        }
        string_of(&plain)
    }
}

impl Cipher for Autokey {
    type Key = String;

    open spec fn accepts(key: String) -> bool {
        key@.len() >= 1 && all_letters(key@)
    }

    open spec fn made_from(&self, key: String) -> bool {
        self.key_of() == key@
    }

    open spec fn encrypted(&self, message: Seq<char>) -> Option<Seq<char>> {
        Some(keyed(message, self.key_of() + letters_of(message), Combine::Add))
    }

    open spec fn decrypted(&self, message: Seq<char>) -> Option<Seq<char>> {
        Some(autokey_plain(message, self.key_of(), message.len()))
    }

    /// Makes an autokey cipher; the key must be letters only, at least one.
    fn new(key: String) -> (r: Result<Autokey, &'static str>) {
        if key.as_str().unicode_len() < 1 {
            return Err("Invalid key. It must have at least one character.");
        } else if !is_alphabetic_only(key.as_str()) {
            return Err("Invalid key. Autokey keys cannot contain non-alphabetic symbols.");
        }
        Ok(Autokey { key })
    }

    /// `C_i = (M_i + K_i) mod 26`, with the keystream the key followed by the message's letters.
    fn encrypt(&self, message: &str) -> (r: Result<String, &'static str>) {
        proof {
            use_type_invariant(self);
        }
        let ks = self.encrypt_keystream(message);
        let ghost full = self.key_of() + letters_of(message@);
        proof {
            assert(all_letters(letters_of(message@))) by {
                let l = letters_of(message@);
                assert forall|i: int| 0 <= i < l.len() implies is_letter(#[trigger] l[i]) by {
                    message@.lemma_filter_pred(|c: char| is_letter(c), i);
                }
            }
            assert(all_letters(full));
        }
        let out = keyed_substitution(message, &ks, Combine::Add);
        proof {
            let n = letters_of(message@).len() as int;
            assert forall|i: int| 0 <= i < message@.len() && is_letter(message@[i]) implies
                letter_count(message@, i) < n && ks@[letter_count(message@, i) as int]
                    == full[letter_count(message@, i) as int] by {
                lemma_letter_count_step(message@, i);
            }
            assert(out@ =~= keyed(message@, full, Combine::Add));
        }
        Ok(out)
    }

    /// `M_i = (C_i - K_i) mod 26`, each recovered letter extending the keystream.
    fn decrypt(&self, ciphertext: &str) -> (r: Result<String, &'static str>) {
        Ok(self.autokey_decrypt(ciphertext))
    }
}

} // verus!
