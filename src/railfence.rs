//! The rail fence cipher: a transposition that writes the message in a zigzag
//! over `key` rails and reads it off rail by rail. Every character moves,
//! whitespace and punctuation included.
use vstd::prelude::*;

use crate::alphabet::{chars_of, string_of};

verus! {

/// The rail of place `i` under `key` rails: the rails run down from 0 to
/// `key - 1` and back up, over and over.
pub open spec fn rail(i: nat, key: nat) -> nat {
    if key <= 1 {
        0
    } else {
        let c = (key - 1) as nat;
        if (i / c) % 2 == 0 {
            i % c
        } else {
            (c - i % c) as nat
        }
    }
}

/// The characters among the first `j` of `m` that lie on rail `r`, in order.
pub open spec fn rail_chars(m: Seq<char>, key: nat, r: nat, j: nat) -> Seq<char>
    decreases j,
{
    if j == 0 {
        Seq::empty()
    } else {
        let prev = rail_chars(m, key, r, (j - 1) as nat);
        if rail((j - 1) as nat, key) == r {
            prev.push(m[j - 1])
        } else {
            prev
        }
    }
}

/// Rails `0..r` of `m`, read one after the other.
pub open spec fn fence(m: Seq<char>, key: nat, r: nat) -> Seq<char>
    decreases r,
{
    if r == 0 {
        Seq::empty()
    } else {
        fence(m, key, (r - 1) as nat) + rail_chars(m, key, (r - 1) as nat, m.len())
    }
}

/// The rails that can hold a character of a text of length `n`.
pub open spec fn rails_used(key: nat, n: nat) -> nat {
    if key < n {
        key
    } else {
        n
    }
}

/// How many of the first `j` places lie on rail `r`.
pub open spec fn on_rail(key: nat, r: nat, j: nat) -> nat
    decreases j,
{
    if j == 0 {
        0
    } else {
        on_rail(key, r, (j - 1) as nat) + if rail((j - 1) as nat, key) == r {
            1nat
        } else {
            0nat
        }
    }
}

/// How many of the first `j` places lie on a rail above `r`.
pub open spec fn above_rail(key: nat, r: nat, j: nat) -> nat
    decreases j,
{
    if j == 0 {
        0
    } else {
        above_rail(key, r, (j - 1) as nat) + if rail((j - 1) as nat, key) < r {
            1nat
        } else {
            0nat
        }
    }
}

/// Where the character at place `i` of a text of length `n` lands on encryption.
pub open spec fn fence_position(key: nat, n: nat, i: nat) -> nat {
    above_rail(key, rail(i, key), n) + on_rail(key, rail(i, key), i)
}

/// A rail fence cipher.
pub struct Railfence {
    key: usize,
}

proof fn lemma_rail_bound(i: nat, key: nat)
    requires
        key >= 1,
    ensures
        rail(i, key) < key,
        rail(i, key) <= i,
{
    if key > 1 {
        let c = (key - 1) as nat;
        vstd::arithmetic::div_mod::lemma_fundamental_div_mod(i as int, c as int);
        vstd::arithmetic::div_mod::lemma_mod_pos_bound(i as int, c as int);
        vstd::arithmetic::div_mod::lemma_div_pos_is_pos(i as int, c as int);
        if (i / c) % 2 != 0 {
            assert(i / c >= 1);
            assert(c * (i / c) >= c) by (nonlinear_arith)
                requires
                    i / c >= 1,
                    c >= 1,
            ;
        } else {
            assert(c * (i / c) >= 0) by (nonlinear_arith)
                requires
                    i / c >= 0,
                    c >= 1,
            ;
        }
    }
}

proof fn lemma_counts_bound(key: nat, r: nat, j: nat)
    ensures
        above_rail(key, r, j) + on_rail(key, r, j) <= j,
    decreases j,
{
    if j > 0 {
        lemma_counts_bound(key, r, (j - 1) as nat);
    }
}

proof fn lemma_on_rail_grows(key: nat, r: nat, i: nat, j: nat)
    requires
        i <= j,
    ensures
        on_rail(key, r, i) <= on_rail(key, r, j),
    decreases j,
{
    if i < j {
        lemma_on_rail_grows(key, r, i, (j - 1) as nat);
    }
}

/// The rail of place `i` under `key` rails.
fn rail_of(i: usize, key: usize) -> (r: usize)
    requires
        key >= 1,
    ensures
        r as nat == rail(i as nat, key as nat),
        r < key,
        r <= i,
{
    proof {
        lemma_rail_bound(i as nat, key as nat);
    }
    if key <= 1 {
        0
    } else {
        let c = key - 1;
        if (i / c) % 2 == 0 {
            i % c
        } else {
            c - i % c
        }
    }
}

impl Railfence {
    /// The number of rails.
    pub closed spec fn key_of(&self) -> nat {
        self.key as nat
    }

    #[verifier::type_invariant]
    spec fn has_rails(&self) -> bool {
        self.key >= 1
    }

    /// Makes a rail fence cipher with `key` rails; there must be at least one.
    pub fn new(key: usize) -> (r: Result<Railfence, &'static str>)
        ensures
            r is Ok <==> key >= 1,
            r matches Ok(f) ==> f.key_of() == key,
    {
        if key == 0 {
            return Err("Invalid key. Railfence key cannot be zero.");
        }
        Ok(Railfence { key })
    }

    /// Writes `message` in a zigzag over the rails and reads it rail by rail.
    pub fn encrypt(&self, message: &str) -> (r: String)
        ensures
            r@ == fence(message@, self.key_of(), rails_used(self.key_of(), message@.len())),
    {
        proof {
            use_type_invariant(self);
        }
        let m = chars_of(message);
        let n = m.len();
        let rows = if self.key < n {
            self.key
        } else {
            n
        };
        let mut out: Vec<char> = Vec::new();
        let mut r: usize = 0;
        while r < rows
            invariant
                m@ == message@,
                n == m@.len(),
                self.key >= 1,
                r <= rows,
                out@ == fence(message@, self.key as nat, r as nat),
            decreases rows - r,
        {
            let ghost before = out@;
            let mut i: usize = 0;
            while i < n
                invariant
                    m@ == message@,
                    n == m@.len(),
                    self.key >= 1,
                    i <= n,
                    out@ == before + rail_chars(message@, self.key as nat, r as nat, i as nat),
                decreases n - i,
            {
                if rail_of(i, self.key) == r {
                    out.push(m[i]);
                }
                assert(out@ =~= before + rail_chars(message@, self.key as nat, r as nat, (i + 1) as nat));
                i += 1;
            }
            r += 1;
        }
        string_of(&out)
    }

    /// Puts the characters of `cipher_text` back on the places they were read from.
    pub fn decrypt(&self, cipher_text: &str) -> (r: String)
        ensures
            r@.len() == cipher_text@.len(),
            forall|i: int|
                0 <= i < r@.len() ==> #[trigger] r@[i] == cipher_text@[fence_position(
                    self.key_of(),
                    cipher_text@.len(),
                    i as nat,
                ) as int],
    {
        proof {
            use_type_invariant(self);
        }
        let c = chars_of(cipher_text);
        let n = c.len();
        let key = self.key;
        let mut out: Vec<char> = Vec::new();
        let mut i: usize = 0;
        while i < n
            invariant
                c@ == cipher_text@,
                n == c@.len(),
                key == self.key,
                key >= 1,
                i <= n,
                out@.len() == i,
                forall|t: int|
                    0 <= t < i ==> #[trigger] out@[t] == c@[fence_position(key as nat, n as nat, t as nat) as int],
            decreases n - i,
        {
            let r = rail_of(i, key);
            let mut above: usize = 0;
            let mut same: usize = 0;
            let mut t: usize = 0;
            while t < n
                invariant
                    n == c@.len(),
                    key >= 1,
                    i < n,
                    t <= n,
                    r as nat == rail(i as nat, key as nat),
                    above as nat == above_rail(key as nat, r as nat, t as nat),
                    same as nat == on_rail(key as nat, r as nat, if t < i { t as nat } else { i as nat }),
                decreases n - t,
            {
                proof {
                    lemma_counts_bound(key as nat, r as nat, t as nat);
                    lemma_on_rail_grows(key as nat, r as nat, if t < i { t as nat } else { i as nat }, t as nat);
                }
                let rt = rail_of(t, key);
                if rt < r {
                    above += 1;
                }
                if t < i && rt == r {
                    same += 1;
                }
                t += 1;
            }
            proof {
                lemma_counts_bound(key as nat, r as nat, n as nat);
                lemma_on_rail_grows(key as nat, r as nat, (i + 1) as nat, n as nat);
            }
            out.push(c[above + same]);
            i += 1;
        }
        string_of(&out)
    }
}

} // verus!
