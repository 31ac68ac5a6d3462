//! The scytale: the message is wound around a rod of `height` faces, written
//! along the rod and read around it.
use vstd::prelude::*;

use crate::alphabet::{chars_of, string_of};
use crate::cipher::Cipher;

verus! {

/// What `str::trim_end` leaves of `s`.
pub uninterp spec fn without_trailing_whitespace(s: Seq<char>) -> Seq<char>;

/// Relies on `str::trim_end`: `s` without its trailing whitespace, which is a
/// prefix of `s`.
#[verifier::external_body]
fn trim_end_of(s: &str) -> (r: String)
    ensures
        r@ == without_trailing_whitespace(s@),
        r@.len() <= s@.len(),
        r@ == s@.subrange(0, r@.len() as int),
{
    s.trim_end().to_string()
}

/// The number of turns needed to hold `n` characters on `h` faces.
pub open spec fn turns(n: nat, h: nat) -> nat {
    if n % h == 0 {
        n / h
    } else {
        n / h + 1
    }
}

/// Whether a scytale of height `h` leaves a text of length `n` as it is.
pub open spec fn leaves_unchanged(n: nat, h: nat) -> bool {
    h >= n || h == 1
}

/// The character at place `p` of `s`, or a space past its end.
pub open spec fn char_or_space(s: Seq<char>, p: int) -> char {
    if p < s.len() {
        s[p]
    } else {
        ' '
    }
}

/// The encryption of `m` on `h` faces: face by face, each face read along the rod.
pub open spec fn wound(m: Seq<char>, h: nat) -> Seq<char> {
    let w = turns(m.len(), h);
    if leaves_unchanged(m.len(), h) {
        m
    } else {
        Seq::new(h * w, |k: int| char_or_space(m, (k % w as int) * h + k / w as int))
    }
}

/// `c` written face by face and read turn by turn, before trailing spaces go.
pub open spec fn unwound(c: Seq<char>, h: nat) -> Seq<char> {
    let w = turns(c.len(), h);
    Seq::new(w * h, |k: int| char_or_space(c, (k % h as int) * w + k / h as int))
}

/// A scytale with `height` faces.
pub struct Scytale {
    height: usize,
}

proof fn lemma_turns(n: nat, h: nat)
    requires
        1 <= h,
    ensures
        n <= h * turns(n, h),
        h * turns(n, h) < n + h,
        turns(n, h) >= 1 || n == 0,
{
    vstd::arithmetic::div_mod::lemma_fundamental_div_mod(n as int, h as int);
    if n % h != 0 {
        assert(h * (n / h + 1) == h * (n / h) + h) by (nonlinear_arith);
    }
}

proof fn lemma_index_in_grid(a: int, b: int, rows: int, cols: int)
    requires
        0 <= a < rows,
        0 <= b < cols,
    ensures
        0 <= a * cols + b < rows * cols,
{
    assert(0 <= a * cols + b < rows * cols) by (nonlinear_arith)
        requires
            0 <= a < rows,
            0 <= b < cols,
    ;
}

/// `a * w + b` when it is below `n`, computed without overflow.
fn index_below(a: usize, w: usize, b: usize, n: usize) -> (r: Option<usize>)
    requires
        w >= 1,
        b < n,
    ensures
        r is Some <==> a * w + b < n,
        r matches Some(x) ==> x == a * w + b,
{
    let q = (n - b - 1) / w;
    proof {
        vstd::arithmetic::div_mod::lemma_fundamental_div_mod((n - b - 1) as int, w as int);
        vstd::arithmetic::div_mod::lemma_mod_pos_bound((n - b - 1) as int, w as int);
    }
    if a <= q {
        assert(a * w <= q * w) by (nonlinear_arith)
            requires
                a <= q,
        ;
        Some(a * w + b)
    } else {
        assert(a * w >= (q + 1) * w) by (nonlinear_arith)
            requires
                a >= q + 1,
        ;
        assert((q + 1) * w == q * w + w) by (nonlinear_arith);
        None
    }
}

/// The character at place `p` of `s`, or a space when `p` is `None`.
fn pick(s: &Vec<char>, p: Option<usize>) -> (c: char)
    requires
        p matches Some(x) ==> x < s@.len(),
    ensures
        p matches Some(x) ==> c == s@[x as int],
        p is None ==> c == ' ',
{
    match p {
        Some(x) => s[x],
        None => ' ',
    }
}

impl Scytale {
    /// The number of faces.
    pub closed spec fn height_of(&self) -> nat {
        self.height as nat
    }

    #[verifier::type_invariant]
    spec fn has_faces(&self) -> bool {
        self.height >= 1
    }
}

impl Cipher for Scytale {
    type Key = usize;

    open spec fn accepts(height: usize) -> bool {
        height >= 1
    }

    open spec fn made_from(&self, height: usize) -> bool {
        self.height_of() == height
    }

    open spec fn encrypted(&self, message: Seq<char>) -> Option<Seq<char>> {
        Some(wound(message, self.height_of()))
    }

    open spec fn decrypted(&self, message: Seq<char>) -> Option<Seq<char>> {
        if leaves_unchanged(message.len(), self.height_of()) {
            Some(message)
        } else {
            Some(without_trailing_whitespace(unwound(message, self.height_of())))
        }
    }

    /// Makes a scytale; the height must be at least one.
    fn new(key: usize) -> (r: Result<Scytale, &'static str>) {
        if key == 0 {
            Err("Invalid key, height cannot be zero.")
        } else {
            Ok(Scytale { height: key })
        }
    }

    /// Writes the message along the rod, padding the last turn with spaces, and
    /// reads it face by face.
    fn encrypt(&self, message: &str) -> (r: Result<String, &'static str>) {
        proof {
            use_type_invariant(self);
        }
        let m = chars_of(message);
        let n = m.len();
        let h = self.height;
        if h >= n || h == 1 {
            return Ok(string_of(&m));
        }
        proof {
            vstd::arithmetic::div_mod::lemma_div_decreases(n as int, h as int);
        }
        let w = if n % h == 0 {
            n / h
        } else {
            n / h + 1
        };
        proof {
            lemma_turns(n as nat, h as nat);
        }
        let ghost target = wound(message@, h as nat);
        let mut out: Vec<char> = Vec::new();
        let mut a: usize = 0;
        while a < h
            invariant
                m@ == message@,
                n == m@.len(),
                h < n,
                h > 1,
                w == turns(n as nat, h as nat),
                w >= 1,
                target == wound(message@, h as nat),
                a <= h,
                out@.len() == a * w,
                forall|k: int| 0 <= k < a * w ==> #[trigger] out@[k] == target[k],
            decreases h - a,
        {
            let mut b: usize = 0;
            while b < w
                invariant
                    m@ == message@,
                    n == m@.len(),
                    h < n,
                    h > 1,
                    w == turns(n as nat, h as nat),
                    w >= 1,
                        target == wound(message@, h as nat),
                    a < h,
                    b <= w,
                    out@.len() == a * w + b,
                    forall|k: int| 0 <= k < a * w + b ==> #[trigger] out@[k] == target[k],
                decreases w - b,
            {
                proof {
                    lemma_index_in_grid(b as int, a as int, w as int, h as int);
                    lemma_index_in_grid(a as int, b as int, h as int, w as int);
                    let k = a * w + b;
                    vstd::arithmetic::div_mod::lemma_fundamental_div_mod_converse(
                        k as int,
                        w as int,
                        a as int,
                        b as int,
                    );
                    assert(target[k as int] == char_or_space(m@, b * h + a));
                }
                let src = index_below(b, h, a, n);
                out.push(pick(&m, src));
                b += 1;
            }
            proof {
                assert((a + 1) * w == a * w + w) by (nonlinear_arith);
            }
            a += 1;
        }
        assert(out@ =~= target);
        Ok(string_of(&out))
    }

    /// Writes the ciphertext face by face, reads it along the rod, and drops the
    /// trailing whitespace.
    fn decrypt(&self, ciphertext: &str) -> (r: Result<String, &'static str>) {
        proof {
            use_type_invariant(self);
        }
        let c = chars_of(ciphertext);
        let n = c.len();
        let h = self.height;
        if h >= n || h == 1 {
            return Ok(string_of(&c));
        }
        proof {
            vstd::arithmetic::div_mod::lemma_div_decreases(n as int, h as int);
        }
        let w = if n % h == 0 {
            n / h
        } else {
            n / h + 1
        };
        proof {
            lemma_turns(n as nat, h as nat);
        }
        let ghost target = unwound(ciphertext@, h as nat);
        let mut out: Vec<char> = Vec::new();
        let mut b: usize = 0;
        while b < w
            invariant
                c@ == ciphertext@,
                n == c@.len(),
                h > 1,
                w == turns(n as nat, h as nat),
                w <= n,
                target == unwound(ciphertext@, h as nat),
                b <= w,
                out@.len() == b * h,
                forall|k: int| 0 <= k < b * h ==> #[trigger] out@[k] == target[k],
            decreases w - b,
        {
            let mut a: usize = 0;
            while a < h
                invariant
                    c@ == ciphertext@,
                    n == c@.len(),
                    h > 1,
                    w == turns(n as nat, h as nat),
                    w <= n,
                w <= n,
                        target == unwound(ciphertext@, h as nat),
                    b < w,
                    a <= h,
                    out@.len() == b * h + a,
                    forall|k: int| 0 <= k < b * h + a ==> #[trigger] out@[k] == target[k],
                decreases h - a,
            {
                proof {
                    lemma_index_in_grid(a as int, b as int, h as int, w as int);
                    lemma_index_in_grid(b as int, a as int, w as int, h as int);
                    let k = b * h + a;
                    vstd::arithmetic::div_mod::lemma_fundamental_div_mod_converse(
                        k as int,
                        h as int,
                        b as int,
                        a as int,
                    );
                    assert(w * h == h * w) by (nonlinear_arith);
                    assert(target[k as int] == char_or_space(c@, a * w + b));
                }
                let src = index_below(a, w, b, n);
                out.push(pick(&c, src));
                a += 1;
            }
            proof {
                assert((b + 1) * h == b * h + h) by (nonlinear_arith);
            }
            b += 1;
        }
        proof {
            assert(w * h == h * w) by (nonlinear_arith);
        }
        assert(out@ =~= target);
        let s = string_of(&out);
        Ok(trim_end_of(s.as_str()))
    }
}

} // verus!
