//! The 26-letter alphabet: positions of letters, letters at positions, and
//! arithmetic modulo the alphabet's size.
use vstd::prelude::*;

verus! {

/// Number of letters in the alphabet.
pub const ALPHABET_LEN: u64 = 26;

/// Whether `c` is a lowercase letter `a`..`z`.
pub open spec fn is_lower(c: char) -> bool {
    'a' <= c && c <= 'z'
}

/// Whether `c` is an uppercase letter `A`..`Z`.
pub open spec fn is_upper(c: char) -> bool {
    'A' <= c && c <= 'Z'
}

/// Whether `c` has a place in the alphabet, in either case.
pub open spec fn is_letter(c: char) -> bool {
    is_lower(c) || is_upper(c)
}

/// The place of a letter in the alphabet, case ignored (0 for `a` and `A`).
pub open spec fn index_of(c: char) -> nat {
    if is_lower(c) {
        (c as u32 - 'a' as u32) as nat
    } else {
        (c as u32 - 'A' as u32) as nat
    }
}

/// The place of `c` in the alphabet, or `None` for a character outside it.
pub open spec fn position_of(c: char) -> Option<nat> {
    if is_letter(c) {
        Some(index_of(c))
    } else {
        None
    }
}

/// The letter at place `i` (below 26), in upper or lower case.
pub open spec fn letter_at(i: nat, upper: bool) -> char {
    if upper {
        ((65 + i) as u8) as char
    } else {
        ((97 + i) as u8) as char
    }
}

/// Greatest common divisor by Euclid's rule, with `gcd(0, 0) == 0`.
pub open spec fn gcd(a: nat, b: nat) -> nat
    decreases b,
{
    if b == 0 {
        a
    } else {
        gcd(b, a % b)
    }
}

/// Relies on `num::integer::gcd`: for two unsigned integers it returns their
/// greatest common divisor, and 0 when both are 0.
#[verifier::external_body]
pub(crate) fn gcd_of(a: usize, b: usize) -> (r: usize)
    ensures
        r as nat == gcd(a as nat, b as nat),
{
    num::integer::gcd(a, b)
}

/// A residue modulo 26 that is prime to 26 has an inverse.
#[verifier::rlimit(50)]
pub proof fn lemma_unit_has_inverse(a: int)
    requires
        0 <= a < 26,
        gcd(a as nat, 26) == 1,
    ensures
        inverse_mod26(a) is Some,
{
    reveal_with_fuel(inverse_from, 27);
    if a == 0 {
        assert(gcd(0, 26) == gcd(26, 0));
        assert(gcd(26, 0) == 26);
    } else if a == 1 {
        assert(inverse_from(1, 1) == Some(1nat));
    } else if a == 2 {
        assert(gcd(2, 26) == gcd(26, 2));
        assert(gcd(26, 2) == gcd(2, 0));
        assert(gcd(2, 0) == 2);
    } else if a == 3 {
        assert(inverse_from(3, 1) == Some(9nat));
    } else if a == 4 {
        assert(gcd(4, 26) == gcd(26, 4));
        assert(gcd(26, 4) == gcd(4, 2));
        assert(gcd(4, 2) == gcd(2, 0));
        assert(gcd(2, 0) == 2);
    } else if a == 5 {
        assert(inverse_from(5, 1) == Some(21nat));
    } else if a == 6 {
        assert(gcd(6, 26) == gcd(26, 6));
        assert(gcd(26, 6) == gcd(6, 2));
        assert(gcd(6, 2) == gcd(2, 0));
        assert(gcd(2, 0) == 2);
    } else if a == 7 {
        assert(inverse_from(7, 1) == Some(15nat));
    } else if a == 8 {
        assert(gcd(8, 26) == gcd(26, 8));
        assert(gcd(26, 8) == gcd(8, 2));
        assert(gcd(8, 2) == gcd(2, 0));
        assert(gcd(2, 0) == 2);
    } else if a == 9 {
        assert(inverse_from(9, 1) == Some(3nat));
    } else if a == 10 {
        assert(gcd(10, 26) == gcd(26, 10));
        assert(gcd(26, 10) == gcd(10, 6));
        assert(gcd(10, 6) == gcd(6, 4));
        assert(gcd(6, 4) == gcd(4, 2));
        assert(gcd(4, 2) == gcd(2, 0));
        assert(gcd(2, 0) == 2);
    } else if a == 11 {
        assert(inverse_from(11, 1) == Some(19nat));
    } else if a == 12 {
        assert(gcd(12, 26) == gcd(26, 12));
        assert(gcd(26, 12) == gcd(12, 2));
        assert(gcd(12, 2) == gcd(2, 0));
        assert(gcd(2, 0) == 2);
    } else if a == 13 {
        assert(gcd(13, 26) == gcd(26, 13));
        assert(gcd(26, 13) == gcd(13, 0));
        assert(gcd(13, 0) == 13);
    } else if a == 14 {
        assert(gcd(14, 26) == gcd(26, 14));
        assert(gcd(26, 14) == gcd(14, 12));
        assert(gcd(14, 12) == gcd(12, 2));
        assert(gcd(12, 2) == gcd(2, 0));
        assert(gcd(2, 0) == 2);
    } else if a == 15 {
        assert(inverse_from(15, 1) == Some(7nat));
    } else if a == 16 {
        assert(gcd(16, 26) == gcd(26, 16));
        assert(gcd(26, 16) == gcd(16, 10));
        assert(gcd(16, 10) == gcd(10, 6));
        assert(gcd(10, 6) == gcd(6, 4));
        assert(gcd(6, 4) == gcd(4, 2));
        assert(gcd(4, 2) == gcd(2, 0));
        assert(gcd(2, 0) == 2);
    } else if a == 17 {
        assert(inverse_from(17, 1) == Some(23nat));
    } else if a == 18 {
        assert(gcd(18, 26) == gcd(26, 18));
        assert(gcd(26, 18) == gcd(18, 8));
        assert(gcd(18, 8) == gcd(8, 2));
        assert(gcd(8, 2) == gcd(2, 0));
        assert(gcd(2, 0) == 2);
    } else if a == 19 {
        assert(inverse_from(19, 1) == Some(11nat));
    } else if a == 20 {
        assert(gcd(20, 26) == gcd(26, 20));
        assert(gcd(26, 20) == gcd(20, 6));
        assert(gcd(20, 6) == gcd(6, 2));
        assert(gcd(6, 2) == gcd(2, 0));
        assert(gcd(2, 0) == 2);
    } else if a == 21 {
        assert(inverse_from(21, 1) == Some(5nat));
    } else if a == 22 {
        assert(gcd(22, 26) == gcd(26, 22));
        assert(gcd(26, 22) == gcd(22, 4));
        assert(gcd(22, 4) == gcd(4, 2));
        assert(gcd(4, 2) == gcd(2, 0));
        assert(gcd(2, 0) == 2);
    } else if a == 23 {
        assert(inverse_from(23, 1) == Some(17nat));
    } else if a == 24 {
        assert(gcd(24, 26) == gcd(26, 24));
        assert(gcd(26, 24) == gcd(24, 2));
        assert(gcd(24, 2) == gcd(2, 0));
        assert(gcd(2, 0) == 2);
    } else if a == 25 {
        assert(inverse_from(25, 1) == Some(25nat));
    }
}

/// Whether every character of `s` is a letter.
pub open spec fn all_letters(s: Seq<char>) -> bool {
    forall|i: int| 0 <= i < s.len() ==> is_letter(#[trigger] s[i])
}

/// The letters of `s`, in order, with every other character left out.
pub open spec fn letters_of(s: Seq<char>) -> Seq<char> {
    s.filter(|c: char| is_letter(c))
}

/// The smallest `x` in `from..26` with `a * x == 1 (mod 26)`, if there is one.
pub open spec fn inverse_from(a: int, from: nat) -> Option<nat>
    decreases 26 - from,
{
    if from >= 26 {
        None
    } else if (a * from) % 26 == 1 {
        Some(from)
    } else {
        inverse_from(a, from + 1)
    }
}

/// The multiplicative inverse of `a` modulo 26 in `1..26`, if there is one.
pub open spec fn inverse_mod26(a: int) -> Option<nat> {
    inverse_from(a, 1)
}

pub proof fn lemma_letter_round_trip(i: nat, upper: bool)
    requires
        i < 26,
    ensures
        is_letter(letter_at(i, upper)),
        index_of(letter_at(i, upper)) == i,
        is_upper(letter_at(i, upper)) == upper,
{
}

pub proof fn lemma_index_bound(c: char)
    requires
        is_letter(c),
    ensures
        index_of(c) < 26,
        letter_at(index_of(c), is_upper(c)) == c,
{
}

/// Finds the place of `c` in the alphabet, in either case.
pub fn find_position(c: char) -> (r: Option<usize>)
    ensures
        r matches Some(p) ==> position_of(c) == Some(p as nat),
        r is None ==> position_of(c) is None,
{
    if 'a' <= c && c <= 'z' {
        Some((c as u32 - 'a' as u32) as usize)
    } else if 'A' <= c && c <= 'Z' {
        Some((c as u32 - 'A' as u32) as usize)
    } else {
        None
    }
}

/// The letter at `index` in the chosen case, or `None` past the last letter.
pub fn get_letter(index: usize, is_uppercase: bool) -> (r: Option<char>)
    ensures
        index > 25 ==> r is None,
        index <= 25 ==> r == Some(letter_at(index as nat, is_uppercase)),
{
    if index > 25 {
        return None;
    }
    let i = index as u8;
    if is_uppercase {
        Some((65u8 + i) as char)
    } else {
        Some((97u8 + i) as char)
    }
}

/// Reduces `i` into `0..26`, wrapping negative values around.
pub fn modulo(i: isize) -> (r: usize)
    ensures
        r as int == i as int % 26,
        r < 26,
{
    if i >= 0 {
        (i % 26) as usize
    } else {
        let k = -(i + 1);
        let r = 25 - k % 26;
        proof {
            let q = k as int / 26;
            vstd::arithmetic::div_mod::lemma_fundamental_div_mod(k as int, 26);
            vstd::arithmetic::div_mod::lemma_fundamental_div_mod_converse(
                i as int,
                26,
                -q - 1,
                r as int,
            );
        }
        r as usize
    }
}

/// Whether `text` holds letters of the alphabet only.
pub fn is_alphabetic_only(text: &str) -> (r: bool)
    ensures
        r == all_letters(text@),
{
    let n = text.unicode_len();
    let mut i: usize = 0;
    while i < n
        invariant
            n == text@.len(),
            i <= n,
            all_letters(text@.subrange(0, i as int)),
        decreases n - i,
    {
        let c = text.get_char(i);
        if find_position(c).is_none() {
            assert(!is_letter(text@[i as int]));
            return false;
        }
        assert(text@.subrange(0, i + 1) == text@.subrange(0, i as int).push(c));
        i += 1;
    }
    assert(text@.subrange(0, n as int) == text@);
    true
}

/// The characters of `s` in order.
pub fn chars_of(s: &str) -> (r: Vec<char>)
    ensures
        r@ == s@,
{
    let n = s.unicode_len();
    let mut v: Vec<char> = Vec::new();
    let mut i: usize = 0;
    while i < n
        invariant
            n == s@.len(),
            i <= n,
            v@ == s@.subrange(0, i as int),
        decreases n - i,
    {
        v.push(s.get_char(i));
        i += 1;
    }
    assert(v@ == s@);
    v
}

/// Relies on `String::from_iter` over `&char`: the string holds the characters
/// of `v` in order.
#[verifier::external_body]
pub(crate) fn string_of(v: &Vec<char>) -> (r: String)
    ensures
        r@ == v@,
{
    String::from_iter(v.iter())
}

/// Removes every character that is not a letter of the alphabet.
pub fn scrub_text(text: &str) -> (r: String)
    ensures
        r@ == letters_of(text@),
{
    let chars = chars_of(text);
    let mut out: Vec<char> = Vec::new();
    let mut i: usize = 0;
    while i < chars.len()
        invariant
            chars@ == text@,
            i <= chars.len(),
            out@ == letters_of(chars@.subrange(0, i as int)),
        decreases chars.len() - i,
    {
        let c = chars[i];
        proof {
            let s = chars@.subrange(0, i + 1);
            assert(s.drop_last() == chars@.subrange(0, i as int));
            assert(s.last() == c);
            reveal(Seq::filter);
        }
        if find_position(c).is_some() {
            out.push(c);
        }
        i += 1;
    }
    assert(chars@.subrange(0, chars.len() as int) == chars@);
    string_of(&out)
}

/// Finds `x` in `1..26` with `a * x == 1 (mod 26)`.
pub fn multiplicative_inverse(a: isize) -> (r: Option<usize>)
    ensures
        r matches Some(x) ==> 1 <= x < 26 && (a * x) % 26 == 1,
        r matches Some(x) ==> inverse_mod26(a as int) == Some(x as nat),
        r is None ==> inverse_mod26(a as int) is None,
{
    let am = modulo(a);
    let mut x: usize = 1;
    while x < 26
        invariant
            1 <= x <= 26,
            am as int == a as int % 26,
            inverse_mod26(a as int) == inverse_from(a as int, x as nat),
        decreases 26 - x,
    {
        assert(am * x < 676) by (nonlinear_arith)
            requires
                am < 26,
                x < 26,
        ;
        let p = (am * x) % 26;
        assert(p as int == (a as int * x as int) % 26) by {
            vstd::arithmetic::div_mod::lemma_mul_mod_noop_left(a as int, x as int, 26);
        }
        if p == 1 {
            return Some(x);
        }
        x += 1;
    }
    None
}

/// Whether `c` is one of the digits `0`..`9`.
pub open spec fn is_digit(c: char) -> bool {
    '0' <= c && c <= '9'
}

/// The characters that an alphabet holds.
pub enum Alphabet {
    /// The 26 letters.
    Standard,
    /// The 26 letters followed by the ten digits.
    Alphanumeric,
}

/// The 26 letters.
pub const STANDARD: Alphabet = Alphabet::Standard;

/// The 26 letters followed by the ten digits.
pub const ALPHANUMERIC: Alphabet = Alphabet::Alphanumeric;

impl Alphabet {
    /// Whether `c` belongs to the alphabet, in either case.
    pub open spec fn holds(&self, c: char) -> bool {
        match self {
            Alphabet::Standard => is_letter(c),
            Alphabet::Alphanumeric => is_letter(c) || is_digit(c),
        }
    }

    /// The number of symbols.
    pub open spec fn size(&self) -> nat {
        match self {
            Alphabet::Standard => 26,
            Alphabet::Alphanumeric => 36,
        }
    }

    /// The symbol at place `i`, letters in the chosen case.
    pub open spec fn symbol(&self, i: nat, upper: bool) -> char {
        if i < 26 {
            letter_at(i, upper)
        } else {
            ((48 + (i - 26)) as u8) as char
        }
    }

    /// Whether every character of `text` belongs to the alphabet.
    pub fn is_valid(&self, text: &str) -> (r: bool)
        ensures
            r == forall|i: int| 0 <= i < text@.len() ==> self.holds(#[trigger] text@[i]),
    {
        let n = text.unicode_len();
        let mut i: usize = 0;
        while i < n
            invariant
                n == text@.len(),
                i <= n,
                forall|j: int| 0 <= j < i ==> self.holds(#[trigger] text@[j]),
            decreases n - i,
        {
            let c = text.get_char(i);
            let ok = match self {
                Alphabet::Standard => find_position(c).is_some(),
                Alphabet::Alphanumeric => find_position(c).is_some() || ('0' <= c && c <= '9'),
            };
            if !ok {
                return false;
            }
            i += 1;
        }
        true
    }

    /// The number of symbols.
    pub fn length(&self) -> (r: usize)
        ensures
            r == self.size(),
    {
        match self {
            Alphabet::Standard => 26,
            Alphabet::Alphanumeric => 36,
        }
    }

    /// The symbol at `index`, letters in the chosen case, or `None` past the end.
    pub fn get_letter(&self, index: usize, is_uppercase: bool) -> (r: Option<char>)
        ensures
            index < self.size() ==> r == Some(self.symbol(index as nat, is_uppercase)),
            index >= self.size() ==> r is None,
    {
        if index >= self.length() {
            return None;
        }
        if index < 26 {
            get_letter(index, is_uppercase)
        } else {
            let d = (index - 26) as u8;
            Some((48u8 + d) as char)
        }
    }
}

} // verus!
