//! The Polybius square cipher: each letter and digit is replaced by the row id
//! and the column id of its cell in a keyed 6 by 6 square.
use vstd::prelude::*;

use crate::alphabet::{chars_of, find_position, is_letter, string_of, ALPHANUMERIC};
use crate::cipher::Cipher;
use crate::keygen::{keyed, keyed_alphabet, polybius_square, square_accepts, square_entries, PolybiusSquare};

verus! {

/// The place of the first entry of `e` whose symbol is `c`.
pub open spec fn first_with_symbol(e: Seq<(char, char, char)>, c: char, from: int) -> Option<int>
    decreases e.len() - from,
{
    if from >= e.len() || from < 0 {
        None
    } else if e[from].2 == c {
        Some(from)
    } else {
        first_with_symbol(e, c, from + 1)
    }
}

/// The place of the first entry of `e` named by the ids `a` and `b`.
pub open spec fn first_with_ids(e: Seq<(char, char, char)>, a: char, b: char, from: int) -> Option<int>
    decreases e.len() - from,
{
    if from >= e.len() || from < 0 {
        None
    } else if e[from].0 == a && e[from].1 == b {
        Some(from)
    } else {
        first_with_ids(e, a, b, from + 1)
    }
}

/// The encryption of `m`: each symbol of the square becomes its two ids;
/// every other character stays.
pub open spec fn square_encoded(e: Seq<(char, char, char)>, m: Seq<char>) -> Seq<char>
    decreases m.len(),
{
    if m.len() == 0 {
        Seq::empty()
    } else {
        let prev = square_encoded(e, m.drop_last());
        match first_with_symbol(e, m.last(), 0) {
            Some(i) => prev.push(e[i].0).push(e[i].1),
            None => prev.push(m.last()),
        }
    }
}

/// Decoding the first `j` characters of `c`: the text so far and the letters
/// waiting for their partner, or `None` once a pair names no cell.
pub open spec fn square_decoding(e: Seq<(char, char, char)>, c: Seq<char>, j: nat) -> Option<
    (Seq<char>, Seq<char>),
>
    decreases j,
{
    if j == 0 {
        Some((Seq::empty(), Seq::empty()))
    } else {
        match square_decoding(e, c, (j - 1) as nat) {
            None => None,
            Some((out, buf)) => {
                let ch = c[j - 1];
                if !is_letter(ch) {
                    Some((out.push(ch), buf))
                } else if buf.len() == 0 {
                    Some((out, seq![ch]))
                } else {
                    match first_with_ids(e, buf[0], ch, 0) {
                        Some(i) => Some((out.push(e[i].2), Seq::empty())),
                        None => None,
                    }
                }
            },
        }
    }
}

/// A Polybius square cipher.
pub struct Polybius {
    entries: Vec<(char, char, char)>,
}

impl Polybius {
    /// The (row id, column id, symbol) entries of the square.
    pub closed spec fn entries_of(&self) -> Seq<(char, char, char)> {
        self.entries@
    }
}

/// The first place where `e` holds an entry with symbol `c`.
fn find_symbol(e: &Vec<(char, char, char)>, c: char) -> (r: Option<usize>)
    ensures
        r matches Some(i) ==> i < e@.len() && first_with_symbol(e@, c, 0) == Some(i as int),
        r is None ==> first_with_symbol(e@, c, 0) is None,
{
    let mut i: usize = 0;
    while i < e.len()
        invariant
            i <= e@.len(),
            first_with_symbol(e@, c, 0) == first_with_symbol(e@, c, i as int),
        decreases e@.len() - i,
    {
        if e[i].2 == c {
            return Some(i);
        }
        i += 1;
    }
    None
}

/// The first place where `e` holds an entry named by `a` and `b`.
fn find_ids(e: &Vec<(char, char, char)>, a: char, b: char) -> (r: Option<usize>)
    ensures
        r matches Some(i) ==> i < e@.len() && first_with_ids(e@, a, b, 0) == Some(i as int),
        r is None ==> first_with_ids(e@, a, b, 0) is None,
{
    let mut i: usize = 0;
    while i < e.len()
        invariant
            i <= e@.len(),
            first_with_ids(e@, a, b, 0) == first_with_ids(e@, a, b, i as int),
        decreases e@.len() - i,
    {
        if e[i].0 == a && e[i].1 == b {
            return Some(i);
        }
        i += 1;
    }
    None
}

impl Cipher for Polybius {
    type Key = (String, [char; 6], [char; 6]);

    open spec fn accepts(key: (String, [char; 6], [char; 6])) -> bool {
        &&& forall|i: int| 0 <= i < key.0@.len() ==> ALPHANUMERIC.holds(#[trigger] key.0@[i])
        &&& square_accepts(keyed(key.0@, ALPHANUMERIC, false), key.1@, key.2@)
    }

    open spec fn made_from(&self, key: (String, [char; 6], [char; 6])) -> bool {
        self.entries_of() == square_entries(keyed(key.0@, ALPHANUMERIC, false), key.1@, key.2@, 36)
    }

    open spec fn encrypted(&self, message: Seq<char>) -> Option<Seq<char>> {
        Some(square_encoded(self.entries_of(), message))
    }

    open spec fn decrypted(&self, message: Seq<char>) -> Option<Seq<char>> {
        match square_decoding(self.entries_of(), message, message.len()) {
            Some((out, buf)) => Some(out),
            None => None,
        }
    }

    /// Makes a Polybius cipher from a key phrase, which keys the alphanumeric
    /// alphabet, and six column ids and six row ids.
    fn new(key: (String, [char; 6], [char; 6])) -> (r: Result<Polybius, &'static str>) {
        let (phrase, column_ids, row_ids) = key;
        let alphabet_key = match keyed_alphabet(phrase.as_str(), ALPHANUMERIC, false) {
            Ok(k) => k,
            Err(e) => {
                return Err(e);
            },
        };
        match polybius_square(alphabet_key.as_str(), column_ids, row_ids) {
            Ok(square) => Ok(Polybius { entries: square.into_entries() }),
            Err(e) => Err(e),
        }
    }

    /// Replaces each symbol of the square by its row id and column id.
    fn encrypt(&self, message: &str) -> (r: Result<String, &'static str>) {
        let m = chars_of(message);
        let mut out: Vec<char> = Vec::new();
        let mut i: usize = 0;
        while i < m.len()
            invariant
                m@ == message@,
                i <= m@.len(),
                out@ == square_encoded(self.entries@, m@.subrange(0, i as int)),
            decreases m@.len() - i,
        {
            let c = m[i];
            proof {
                let s = m@.subrange(0, i + 1);
                assert(s.drop_last() == m@.subrange(0, i as int));
                assert(s.last() == c);
            }
            match find_symbol(&self.entries, c) {
                Some(k) => {
                    out.push(self.entries[k].0);
                    out.push(self.entries[k].1);
                },
                None => {
                    out.push(c);
                },
            }
            i += 1;
        }
        assert(m@.subrange(0, m@.len() as int) == m@);
        Ok(string_of(&out))
    }

    /// Replaces each pair of letters by the symbol they name; every other
    /// character stays, and a pair that names no cell is an error.
    fn decrypt(&self, ciphertext: &str) -> (r: Result<String, &'static str>) {
        let c = chars_of(ciphertext);
        let mut out: Vec<char> = Vec::new();
        let mut pending: Option<char> = None;
        let mut i: usize = 0;
        while i < c.len()
            invariant
                c@ == ciphertext@,
                i <= c@.len(),
                square_decoding(self.entries@, c@, i as nat) matches Some((o, b)) && o == out@ && b
                    == match pending {
                    Some(p) => seq![p],
                    None => Seq::<char>::empty(),
                },
            decreases c@.len() - i,
        {
            let ch = c[i];
            if find_position(ch).is_none() {
                out.push(ch);
            } else {
                match pending {
                    None => {
                        pending = Some(ch);
                    },
                    Some(first) => {
                        match find_ids(&self.entries, first, ch) {
                            Some(k) => {
                                out.push(self.entries[k].2);
                                pending = None;
                            },
                            None => {
                                proof {
                                    lemma_decoding_stays_failed(self.entries@, c@, (i + 1) as nat, c@.len());
                                }
                                return Err("Unknown sequence in the ciphertext.");
                            },
                        }
                    },
                }
            }
            i += 1;
        }
        Ok(string_of(&out))
    }
}

/// Once decoding fails it stays failed.
proof fn lemma_decoding_stays_failed(e: Seq<(char, char, char)>, c: Seq<char>, j: nat, k: nat)
    requires
        j <= k,
        square_decoding(e, c, j) is None,
    ensures
        square_decoding(e, c, k) is None,
    decreases k - j,
{
    if j < k {
        lemma_decoding_stays_failed(e, c, j, (k - 1) as nat);
    }
}

} // verus!
