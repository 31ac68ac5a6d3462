//! Letter-by-letter substitution on text: letters move within the alphabet and
//! keep their case, every other character stays as it is.
use vstd::prelude::*;

use crate::alphabet::{
    all_letters, chars_of, find_position, get_letter, index_of, is_letter, is_upper,
    lemma_index_bound, lemma_letter_round_trip, letter_at, letters_of, string_of,
};

verus! {

/// `c` replaced by the letter at `f(index of c)`, in the case of `c`, when `c` is a letter.
pub open spec fn substituted_char(c: char, f: spec_fn(nat) -> nat) -> char {
    if is_letter(c) {
        letter_at(f(index_of(c)), is_upper(c))
    } else {
        c
    }
}

/// Every letter of `s` replaced through `f`.
pub open spec fn substituted(s: Seq<char>, f: spec_fn(nat) -> nat) -> Seq<char> {
    s.map_values(|c: char| substituted_char(c, f))
}

/// The letter index `x` sent to `(mult * x + add) mod 26`.
pub open spec fn affine_index(mult: int, add: int) -> spec_fn(nat) -> nat {
    |x: nat| ((mult * x + add) % 26) as nat
}

/// Two substitutions that agree on every letter index agree on every text.
pub proof fn lemma_same_substitution(s: Seq<char>, f: spec_fn(nat) -> nat, g: spec_fn(nat) -> nat)
    requires
        forall|x: nat| x < 26 ==> #[trigger] f(x) == g(x),
    ensures
        substituted(s, f) == substituted(s, g),
{
    assert forall|i: int| 0 <= i < s.len() implies substituted(s, f)[i] == substituted(s, g)[i] by {
        if is_letter(s[i]) {
            lemma_index_bound(s[i]);
        }
    }
    assert(substituted(s, f) =~= substituted(s, g));
}

/// Affine maps whose coefficients agree modulo 26 agree on every index.
pub proof fn lemma_affine_congruent(m1: int, a1: int, m2: int, a2: int)
    requires
        m1 % 26 == m2 % 26,
        a1 % 26 == a2 % 26,
    ensures
        forall|x: nat| x < 26 ==> #[trigger] affine_index(m1, a1)(x) == affine_index(m2, a2)(x),
{
    assert forall|x: nat| x < 26 implies #[trigger] affine_index(m1, a1)(x) == affine_index(m2, a2)(x) by {
        vstd::arithmetic::div_mod::lemma_mul_mod_noop_left(m1, x as int, 26);
        vstd::arithmetic::div_mod::lemma_mul_mod_noop_left(m2, x as int, 26);
        vstd::arithmetic::div_mod::lemma_add_mod_noop(m1 * x, a1, 26);
        vstd::arithmetic::div_mod::lemma_add_mod_noop(m2 * x, a2, 26);
    }
}

/// Replaces each letter at index `x` by the letter at `(mult * x + add) mod 26`.
pub(crate) fn affine_substitution(text: &str, mult: usize, add: usize) -> (r: String)
    requires
        mult < 26,
        add < 26,
    ensures
        r@ == substituted(text@, affine_index(mult as int, add as int)),
{
    let ghost f = affine_index(mult as int, add as int);
    let chars = chars_of(text);
    let mut out: Vec<char> = Vec::new();
    let mut i: usize = 0;
    while i < chars.len()
        invariant
            chars@ == text@,
            mult < 26,
            add < 26,
            f == affine_index(mult as int, add as int),
            i <= chars.len(),
            out@ == substituted(text@, f).subrange(0, i as int),
        decreases chars.len() - i,
    {
        let c = chars[i];
        match find_position(c) {
            Some(x) => {
                proof {
                    lemma_index_bound(c);
                }
                assert(mult * x + add < 676) by (nonlinear_arith)
                    requires
                        mult < 26,
                        x < 26,
                        add < 26,
                ;
                let y = (mult * x + add) % 26;
                let up = 'A' <= c && c <= 'Z';
                proof {
                    lemma_letter_round_trip(y as nat, up);
                }
                match get_letter(y, up) {
                    Some(l) => out.push(l),
                    None => {
                        assert(false);
                    },
                }
            },
            None => {
                out.push(c);
            },
        }
        assert(out@ =~= substituted(text@, f).subrange(0, i + 1));
        i += 1;
    }
    assert(out@ =~= substituted(text@, f));
    string_of(&out)
}

/// How the index of a message letter and the index of a key letter combine.
pub enum Combine {
    /// `(m + k) mod 26`.
    Add,
    /// `(m - k) mod 26`.
    Subtract,
    /// Porta's reciprocal table: the two halves of the alphabet swap, shifted by `k / 2`.
    Reciprocal,
}

/// Porta's substitution of index `m` under key index `k`.
pub open spec fn porta_index(m: nat, k: nat) -> nat {
    let r = k / 2;
    if m < 13 {
        13 + (m + r) % 13
    } else {
        ((m - 13 - r) % 13) as nat
    }
}

/// The index that the message index `m` and the key index `k` give.
pub open spec fn combined(kind: Combine, m: nat, k: nat) -> nat {
    match kind {
        Combine::Add => (m + k) % 26,
        Combine::Subtract => ((m - k) % 26) as nat,
        Combine::Reciprocal => porta_index(m, k),
    }
}

/// The number of letters in `s` before place `i`.
pub open spec fn letter_count(s: Seq<char>, i: int) -> nat {
    letters_of(s.subrange(0, i)).len()
}

/// `s` with its `j`-th letter combined with the `j`-th character of `ks`; other
/// characters stay.
pub open spec fn keyed(s: Seq<char>, ks: Seq<char>, kind: Combine) -> Seq<char> {
    Seq::new(
        s.len(),
        |i: int|
            if is_letter(s[i]) {
                letter_at(
                    combined(kind, index_of(s[i]), index_of(ks[letter_count(s, i) as int])),
                    is_upper(s[i]),
                )
            } else {
                s[i]
            },
    )
}

/// Counting letters one place further.
pub proof fn lemma_letter_count_step(s: Seq<char>, i: int)
    requires
        0 <= i < s.len(),
    ensures
        letter_count(s, i + 1) == letter_count(s, i) + if is_letter(s[i]) {
            1nat
        } else {
            0nat
        },
        letter_count(s, i + 1) <= letters_of(s).len(),
{
    reveal(Seq::filter);
    let a = s.subrange(0, i + 1);
    assert(a.drop_last() == s.subrange(0, i));
    assert(a.last() == s[i]);
    assert(s == a + s.subrange(i + 1, s.len() as int));
    Seq::filter_distributes_over_add(a, s.subrange(i + 1, s.len() as int), |c: char| is_letter(c));
}

/// The index that `kind` gives for message index `m` and key index `k`.
fn combine(kind: &Combine, m: usize, k: usize) -> (r: usize)
    requires
        m < 26,
        k < 26,
    ensures
        r as nat == combined(*kind, m as nat, k as nat),
        r < 26,
{
    match kind {
        Combine::Add => (m + k) % 26,
        Combine::Subtract => {
            proof {
                vstd::arithmetic::div_mod::lemma_mod_add_multiples_vanish(m - k, 26);
            }
            (m + 26 - k) % 26
        },
        Combine::Reciprocal => {
            let r = k / 2;
            if m < 13 {
                13 + (m + r) % 13
            } else {
                proof {
                    vstd::arithmetic::div_mod::lemma_mod_add_multiples_vanish(m - 13 - r, 13);
                }
                (m - r) % 13
            }
        },
    }
}

/// Combines the `j`-th letter of `text` with the `j`-th character of `keystream`.
pub(crate) fn keyed_substitution(text: &str, keystream: &Vec<char>, kind: Combine) -> (r: String)
    requires
        all_letters(keystream@),
        keystream@.len() >= letters_of(text@).len(),
    ensures
        r@ == keyed(text@, keystream@, kind),
{
    let chars = chars_of(text);
    let mut out: Vec<char> = Vec::new();
    let mut i: usize = 0;
    let mut count: usize = 0;
    proof {
        assert(text@.subrange(0, 0) =~= Seq::<char>::empty());
        reveal(Seq::filter);
    }
    while i < chars.len()
        invariant
            chars@ == text@,
            all_letters(keystream@),
            keystream@.len() >= letters_of(text@).len(),
            i <= chars.len(),
            count == letter_count(text@, i as int),
            out@ == keyed(text@, keystream@, kind).subrange(0, i as int),
        decreases chars.len() - i,
    {
        let c = chars[i];
        proof {
            lemma_letter_count_step(text@, i as int);
        }
        match find_position(c) {
            Some(m) => {
                let kc = keystream[count];
                proof {
                    lemma_index_bound(c);
                    lemma_index_bound(kc);
                }
                let k = match find_position(kc) {
                    Some(k) => k,
                    None => {
                        assert(false);
                        0
                    },
                };
                let y = combine(&kind, m, k);
                let up = 'A' <= c && c <= 'Z';
                proof {
                    lemma_letter_round_trip(y as nat, up);
                }
                match get_letter(y, up) {
                    Some(l) => out.push(l),
                    None => {
                        assert(false);
                    },
                }
                count += 1;
            },
            None => {
                out.push(c);
            },
        }
        assert(out@ =~= keyed(text@, keystream@, kind).subrange(0, i + 1));
        i += 1;
    }
    assert(out@ =~= keyed(text@, keystream@, kind));
    string_of(&out)
}

/// `key` repeated until it is `len` characters long.
pub open spec fn cycle(key: Seq<char>, len: nat) -> Seq<char> {
    Seq::new(len, |k: int| key[k % key.len() as int])
}

/// The first `len` characters of `key` repeated.
pub(crate) fn cycled(key: &Vec<char>, len: usize) -> (r: Vec<char>)
    requires
        key@.len() >= 1,
    ensures
        r@ == cycle(key@, len as nat),
{
    let mut out: Vec<char> = Vec::new();
    let mut k: usize = 0;
    while k < len
        invariant
            key@.len() >= 1,
            k <= len,
            out@ == cycle(key@, len as nat).subrange(0, k as int),
        decreases len - k,
    {
        out.push(key[k % key.len()]);
        assert(out@ =~= cycle(key@, len as nat).subrange(0, k + 1));
        k += 1;
    }
    assert(out@ =~= cycle(key@, len as nat));
    out
}

} // verus!
