//! The Hill cipher: a polygraphic substitution that multiplies blocks of
//! letter positions by a square key matrix modulo 26.
use vstd::prelude::*;
use vstd::arithmetic::div_mod::{lemma_fundamental_div_mod_converse, lemma_mod_twice, lemma_sub_mod_noop};

use crate::alphabet::{
    inverse_from, all_letters, find_position, gcd, gcd_of, get_letter, index_of, inverse_mod26, is_letter,
    is_upper, lemma_index_bound, lemma_letter_round_trip, lemma_unit_has_inverse, letter_at,
    multiplicative_inverse, chars_of, string_of,
};
use crate::cipher::Cipher;
use crate::matrix::{
    cofactor, det, det_mod26, expansion, grid, is_square, lemma_mod_step, minor, minor_of, sign,
    Matrix,
};

verus! {

/// The letter appended to a message until its length is a multiple of the key's dimension.
pub const FILLER: char = 'a';

/// `m` with filler letters appended until its length is a multiple of `n`.
pub open spec fn padded(m: Seq<char>, n: nat) -> Seq<char> {
    if m.len() % n == 0 {
        m
    } else {
        m + Seq::new((n - m.len() % n) as nat, |i: int| FILLER)
    }
}

/// The sum of `row[j] * v[j]` over the first `k` places.
pub open spec fn dot(row: Seq<int>, v: Seq<int>, k: int) -> int
    decreases k,
{
    if k <= 0 {
        0
    } else {
        dot(row, v, k - 1) + row[k - 1] * v[k - 1]
    }
}

/// The alphabet positions of the letters of `s`.
pub open spec fn positions(s: Seq<char>) -> Seq<int> {
    s.map_values(|c: char| index_of(c) as int)
}

/// A chunk of letters multiplied by `key` modulo 26, each result letter in the
/// case of the letter at its place.
pub open spec fn chunk_image(key: Seq<Seq<int>>, s: Seq<char>) -> Seq<char> {
    Seq::new(
        s.len(),
        |i: int| letter_at((dot(key[i], positions(s), s.len() as int) % 26) as nat, is_upper(s[i])),
    )
}

/// `m`, padded, with each chunk of `key.len()` letters multiplied by `key`.
pub open spec fn transformed(key: Seq<Seq<int>>, m: Seq<char>) -> Seq<char> {
    let n = key.len() as int;
    let p = padded(m, key.len());
    Seq::new(p.len(), |k: int| chunk_image(key, p.subrange(k - k % n, k - k % n + n))[k % n])
}

/// A key that encrypts and can be undone: square, not empty, with a determinant
/// prime to 26.
pub open spec fn valid_key(g: Seq<Seq<int>>) -> bool {
    &&& is_square(g)
    &&& g.len() >= 1
    &&& gcd((det(g) % 26) as nat, 26) == 1
}

/// The inverse of `det(g)` modulo 26 (0 where there is none).
pub open spec fn det_inverse(g: Seq<Seq<int>>) -> int {
    match inverse_mod26(det(g) % 26) {
        Some(x) => x as int,
        None => 0,
    }
}

/// The key that undoes `g`: its adjugate times the inverse of its determinant,
/// modulo 26.
pub open spec fn inverse_key(g: Seq<Seq<int>>) -> Seq<Seq<int>> {
    Seq::new(
        g.len(),
        |i: int| Seq::new(g.len(), |j: int| ((cofactor(g, j, i) % 26) * det_inverse(g)) % 26),
    )
}

/// The `n` by `n` matrix of the alphabet positions of `s`, row by row.
pub open spec fn phrase_grid(s: Seq<char>, n: nat) -> Seq<Seq<int>> {
    Seq::new(n, |i: int| Seq::new(n, |j: int| index_of(s[i * n + j]) as int))
}

/// Whether `key` is accepted as a Hill key.
pub open spec fn admissible(key: Matrix) -> bool {
    key.num_rows() == key.num_cols() && valid_key(key.as_grid())
}

/// A Hill cipher.
pub struct Hill {
    key: Vec<Vec<isize>>,
}

impl Hill {
    #[verifier::type_invariant]
    spec fn holds_valid_key(&self) -> bool {
        valid_key(grid(self.key@))
    }

    /// Whether the key is one that `new` accepts; every `Hill` value keeps it.
    pub open spec fn wf(&self) -> bool {
        valid_key(self.key_grid())
    }

    /// The key matrix.
    pub closed spec fn key_grid(&self) -> Seq<Seq<int>> {
        grid(self.key@)
    }

    /// Makes a Hill cipher from a phrase of `chunk_size * chunk_size` letters,
    /// whose positions fill the key matrix row by row.
    pub fn from_phrase(phrase: &str, chunk_size: usize) -> (r: Result<Hill, &'static str>)
        ensures
            r is Ok <==> chunk_size >= 2 && phrase@.len() == chunk_size * chunk_size
                && all_letters(phrase@) && valid_key(phrase_grid(phrase@, chunk_size as nat)),
            r matches Ok(h) ==> h.key_grid() == phrase_grid(phrase@, chunk_size as nat),
    {
        if chunk_size < 2 {
            return Err("The chunk size must be greater than 1.");
        }
        let chars = chars_of(phrase);
        match chunk_size.checked_mul(chunk_size) {
            Some(sq) => {
                if sq != chars.len() {
                    return Err("The square of the chunk size must equal the length of the phrase.");
                }
            },
            None => {
                return Err("The square of the chunk size must equal the length of the phrase.");
            },
        }
        let mut data: Vec<isize> = Vec::new();
        let mut i: usize = 0;
        while i < chars.len()
            invariant
                chars@ == phrase@,
                i <= chars.len(),
                data@.len() == i,
                all_letters(chars@.subrange(0, i as int)),
                forall|k: int| 0 <= k < i ==> data@[k] as int == index_of(#[trigger] chars@[k]),
            decreases chars.len() - i,
        {
            match find_position(chars[i]) {
                Some(p) => {
                    data.push(p as isize);
                },
                None => {
                    assert(!all_letters(phrase@)) by {
                        assert(!is_letter(phrase@[i as int]));
                    }
                    return Err("Phrase cannot contain non-alphabetic symbols.");
                },
            }
            assert(chars@.subrange(0, i + 1) == chars@.subrange(0, i as int).push(chars@[i as int]));
            i += 1;
        }
        assert(chars@.subrange(0, chars.len() as int) == chars@);
        let ghost d = data@;
        let key = Matrix::new(chunk_size, chunk_size, data);
        assert(key.as_grid() =~= phrase_grid(phrase@, chunk_size as nat)) by {
            let kg = key.as_grid();
            let pg = phrase_grid(phrase@, chunk_size as nat);
            assert forall|a: int| 0 <= a < chunk_size implies #[trigger] kg[a] == pg[a] by {
                assert forall|b: int| 0 <= b < chunk_size implies #[trigger] kg[a][b] == pg[a][b] by {
                    assert(0 <= a * chunk_size + b < chunk_size * chunk_size) by (nonlinear_arith)
                        requires
                            0 <= a < chunk_size,
                            0 <= b < chunk_size,
                    ;
                    assert(key.entries()[a * chunk_size + b] == d[a * chunk_size + b] as int);
                }
                assert(kg[a] =~= pg[a]);
            }
        }
        Hill::new(key)
    }
}

/// Multiplies a chunk of letters by `key` modulo 26, keeping the case of each place.
fn transform_chunk(key: &Vec<Vec<isize>>, chunk: &Vec<char>) -> (r: Result<Vec<char>, &'static str>)
    requires
        is_square(grid(key@)),
        all_letters(chunk@),
    ensures
        r is Ok <==> chunk@.len() == key@.len(),
        r matches Ok(out) ==> out@ == chunk_image(grid(key@), chunk@),
{
    let n = key.len();
    if chunk.len() != n {
        return Err("Cannot perform transformation on unequal vector lengths");
    }
    let ghost g = grid(key@);
    let ghost v = positions(chunk@);
    let mut pos: Vec<usize> = Vec::new();
    let mut j: usize = 0;
    while j < n
        invariant
            n == chunk@.len(),
            all_letters(chunk@),
            v == positions(chunk@),
            j <= n,
            pos@.len() == j,
            forall|t: int| 0 <= t < j ==> pos@[t] as int == v[t] && pos@[t] < 26,
        decreases n - j,
    {
        proof {
            lemma_index_bound(chunk@[j as int]);
        }
        let ghost old_pos = pos@;
        match find_position(chunk[j]) {
            Some(p) => {
                pos.push(p);
                assert(v[j as int] == index_of(chunk@[j as int]) as int);
                assert(pos@[j as int] as int == v[j as int] && pos@[j as int] < 26);
                assert forall|t: int| 0 <= t < j + 1 implies pos@[t] as int == v[t] && pos@[t] < 26 by {
                    if t < j {
                        assert(pos@[t] == old_pos[t]);
                    }
                }
            },
            None => {
                assert(false);
                return Err("Attempted transformation of non-alphabetic symbol");
            },
        }
        j += 1;
    }
    let mut out: Vec<char> = Vec::new();
    let mut i: usize = 0;
    while i < n
        invariant
            n == chunk@.len(),
            n == key@.len(),
            g == grid(key@),
            is_square(g),
            all_letters(chunk@),
            v == positions(chunk@),
            pos@.len() == n,
            forall|t: int| 0 <= t < n ==> pos@[t] as int == v[t] && pos@[t] < 26,
            i <= n,
            out@ == chunk_image(g, chunk@).subrange(0, i as int),
        decreases n - i,
    {
        let row = &key[i];
        assert(row@.len() == n) by {
            assert(g[i as int].len() == n);
        }
        let mut acc: usize = 0;
        let mut j: usize = 0;
        while j < n
            invariant
                n == chunk@.len(),
                n == key@.len(),
                i < n,
                g == grid(key@),
                row@ == key@[i as int]@,
                row@.len() == n,
                pos@.len() == n,
                forall|t: int| 0 <= t < n ==> pos@[t] as int == v[t] && pos@[t] < 26,
                j <= n,
                acc < 26,
                acc as int == dot(g[i as int], v, j as int) % 26,
            decreases n - j,
        {
            let x = crate::alphabet::modulo(row[j]);
            let p = pos[j];
            proof {
                assert(g[i as int][j as int] == row@[j as int] as int);
                lemma_mod_twice(v[j as int], 26);
                lemma_mod_step(dot(g[i as int], v, j as int), g[i as int][j as int], v[j as int], 1);
                assert(1 * g[i as int][j as int] * v[j as int] == g[i as int][j as int] * v[j as int]);
                assert(x * p < 676) by (nonlinear_arith)
                    requires
                        x < 26,
                        p < 26,
                ;
            }
            acc = (acc + (x * p) % 26) % 26;
            j += 1;
        }
        let c = chunk[i];
        let up = 'A' <= c && c <= 'Z';
        proof {
            lemma_letter_round_trip(acc as nat, up);
        }
        match get_letter(acc, up) {
            Some(l) => out.push(l),
            None => {
                return Err("Calculated index is invalid.");
            },
        }
        assert(out@ =~= chunk_image(g, chunk@).subrange(0, i + 1));
        i += 1;
    }
    assert(out@ =~= chunk_image(g, chunk@));
    Ok(out)
}

/// Pads `message` and multiplies each of its chunks by `key`.
fn transform_message(key: &Vec<Vec<isize>>, message: &str) -> (r: Result<String, &'static str>)
    requires
        is_square(grid(key@)),
        key@.len() >= 1,
    ensures
        r is Ok <==> all_letters(message@),
        r matches Ok(s) ==> s@ == transformed(grid(key@), message@),
{
    let chars = chars_of(message);
    let mut k: usize = 0;
    while k < chars.len()
        invariant
            chars@ == message@,
            k <= chars.len(),
            all_letters(chars@.subrange(0, k as int)),
        decreases chars.len() - k,
    {
        if find_position(chars[k]).is_none() {
            assert(!is_letter(message@[k as int]));
            return Err("Invalid message. Please strip any whitespace or non-alphabetic symbols.");
        }
        assert(chars@.subrange(0, k + 1) == chars@.subrange(0, k as int).push(chars@[k as int]));
        k += 1;
    }
    assert(chars@.subrange(0, chars.len() as int) == chars@);
    let n = key.len();
    let ghost g = grid(key@);
    let ghost p = padded(message@, n as nat);
    let mut buffer = chars;
    if buffer.len() % n > 0 {
        let padding = n - buffer.len() % n;
        let mut t: usize = 0;
        while t < padding
            invariant
                t <= padding,
                padding == n - message@.len() % (n as nat),
                buffer@ == message@ + Seq::new(t as nat, |i: int| FILLER),
            decreases padding - t,
        {
            buffer.push(FILLER);
            assert(buffer@ =~= message@ + Seq::new((t + 1) as nat, |i: int| FILLER));
            t += 1;
        }
    }
    assert(buffer@ == p);
    assert(all_letters(p)) by {
        assert forall|i: int| 0 <= i < p.len() implies is_letter(#[trigger] p[i]) by {
            if i >= message@.len() {
                assert(p[i] == FILLER);
            }
        }
    }
    proof {
        let ml = message@.len() as int;
        let ni = n as int;
        vstd::arithmetic::div_mod::lemma_fundamental_div_mod(ml, ni);
        if ml % ni != 0 {
            assert(p.len() == (ml / ni + 1) * ni) by (nonlinear_arith)
                requires
                    p.len() == ml + (ni - ml % ni),
                    ml == ni * (ml / ni) + ml % ni,
            ;
            vstd::arithmetic::div_mod::lemma_mod_multiples_basic(ml / ni + 1, ni);
        }
        assert(g.len() == n);
    }
    let mut out: Vec<char> = Vec::new();
    let mut i: usize = 0;
    let ghost mut q: int = 0;
    while i < buffer.len()
        invariant
            buffer@ == p,
            p == padded(message@, n as nat),
            transformed(g, message@).len() == p.len(),
            all_letters(p),
            g == grid(key@),
            is_square(g),
            n == key@.len(),
            n >= 1,
            p.len() % (n as nat) == 0,
            i <= buffer.len(),
            i == q * n,
            out@ == transformed(g, message@).subrange(0, i as int),
        decreases buffer.len() - i,
    {
        assert(i + n <= buffer.len()) by {
            vstd::arithmetic::div_mod::lemma_fundamental_div_mod(p.len() as int, n as int);
            let pq = p.len() as int / n as int;
            assert(p.len() == pq * n);
            assert(q < pq) by (nonlinear_arith)
                requires
                    q * n < pq * n,
                    n >= 1,
            ;
            assert(q * n + n <= pq * n) by (nonlinear_arith)
                requires
                    q + 1 <= pq,
                    n >= 1,
            ;
        }
        let mut chunk: Vec<char> = Vec::new();
        let mut t: usize = 0;
        while t < n
            invariant
                buffer@ == p,
                i + n <= buffer.len(),
                t <= n,
                chunk@ == p.subrange(i as int, i + t),
            decreases n - t,
        {
            chunk.push(buffer[i + t]);
            assert(chunk@ =~= p.subrange(i as int, i + t + 1));
            t += 1;
        }
        assert(all_letters(chunk@));
        match transform_chunk(key, &chunk) {
            Ok(s) => {
                let ghost before = out@;
                out.append(&mut s.clone());
                proof {
                    assert(chunk@ == p.subrange(i as int, i + n));
                    assert(g.len() == n);
                    assert forall|k: int| i <= k < i + n implies #[trigger] transformed(g, message@)[k]
                        == chunk_image(g, chunk@)[k - i] by {
                        lemma_fundamental_div_mod_converse(k, n as int, q, k - i);
                        let ni = g.len() as int;
                        assert(ni == n);
                        assert(k % ni == k - i);
                        assert(k - k % ni == i);
                        assert(padded(message@, g.len()) == p);
                        assert(0 <= k < p.len());
                        assert(p.subrange(k - k % ni, k - k % ni + ni) == chunk@);
                        assert(transformed(g, message@)[k] == chunk_image(
                            g,
                            p.subrange(k - k % ni, k - k % ni + ni),
                        )[k % ni]);
                    }
                    assert(out@ =~= transformed(g, message@).subrange(0, i + n));
                }
            },
            Err(e) => {
                return Err(e);
            },
        }
        i += n;
        proof {
            q = q + 1;
            assert(i == q * n) by (nonlinear_arith)
                requires
                    i == (q - 1) * n + n,
            ;
        }
    }
    assert(out@ =~= transformed(g, message@));
    Ok(string_of(&out))
}

/// The key that undoes `key`.
fn calc_inverse_key(key: &Vec<Vec<isize>>) -> (r: Vec<Vec<isize>>)
    requires
        valid_key(grid(key@)),
    ensures
        grid(r@) == inverse_key(grid(key@)),
{
    let ghost g = grid(key@);
    let n = key.len();
    let d = det_mod26(key);
    proof {
        lemma_unit_has_inverse(d as int);
    }
    let dinv = match multiplicative_inverse(d as isize) {
        Some(x) => x,
        None => {
            assert(false);
            0
        },
    };
    assert(dinv as int == det_inverse(g));
    let mut out: Vec<Vec<isize>> = Vec::new();
    let mut i: usize = 0;
    while i < n
        invariant
            n == key@.len(),
            g == grid(key@),
            valid_key(g),
            dinv as int == det_inverse(g),
            dinv < 26,
            i <= n,
            out@.len() == i,
            forall|k: int| 0 <= k < i ==> (#[trigger] grid(out@)[k]) == inverse_key(g)[k],
        decreases n - i,
    {
        let mut row: Vec<isize> = Vec::new();
        let mut j: usize = 0;
        while j < n
            invariant
                n == key@.len(),
                g == grid(key@),
                valid_key(g),
                dinv as int == det_inverse(g),
                dinv < 26,
                i < n,
                j <= n,
                row@.len() == j,
                forall|t: int|
                    0 <= t < j ==> row@[t] as int == ((cofactor(g, t, i as int) % 26) * det_inverse(g)) % 26,
            decreases n - j,
        {
            let sub = minor_of(key, j, i);
            let c = det_mod26(&sub);
            let cof = if i % 2 == j % 2 {
                c
            } else {
                (26 - c) % 26
            };
            proof {
                let dm = det(minor(g, j as int, i as int));
                assert(cofactor(g, j as int, i as int) == sign(j + i) * dm);
                assert((i % 2 == j % 2) == ((j + i) as int % 2 == 0));
                if i % 2 != j % 2 {
                    lemma_sub_mod_noop(0, dm, 26);
                    vstd::arithmetic::div_mod::lemma_mod_add_multiples_vanish(-(dm % 26), 26);
                    assert(cofactor(g, j as int, i as int) == -dm);
                }
                assert(cof as int == cofactor(g, j as int, i as int) % 26);
                assert(cof * dinv < 676) by (nonlinear_arith)
                    requires
                        cof < 26,
                        dinv < 26,
                ;
            }
            row.push(((cof * dinv) % 26) as isize);
            j += 1;
        }
        let ghost prev = grid(out@);
        let ghost ri = row@.map_values(|x: isize| x as int);
        proof {
            assert(ri =~= inverse_key(g)[i as int]);
        }
        out.push(row);
        proof {
            assert(grid(out@) =~= prev.push(ri));
        }
        i += 1;
    }
    assert(grid(out@) =~= inverse_key(g));
    out
}

impl Cipher for Hill {
    type Key = Matrix;

    open spec fn accepts(key: Matrix) -> bool {
        admissible(key)
    }

    open spec fn made_from(&self, key: Matrix) -> bool {
        self.key_grid() == key.as_grid()
    }

    open spec fn encrypted(&self, message: Seq<char>) -> Option<Seq<char>> {
        if all_letters(message) {
            Some(transformed(self.key_grid(), message))
        } else {
            None
        }
    }

    open spec fn decrypted(&self, message: Seq<char>) -> Option<Seq<char>> {
        if all_letters(message) {
            Some(transformed(inverse_key(self.key_grid()), message))
        } else {
            None
        }
    }

    /// Makes a Hill cipher from a square key matrix whose determinant is prime to 26.
    fn new(key: Matrix) -> (r: Result<Hill, &'static str>) {
        if key.cols() != key.rows() {
            return Err("Key must be a square matrix.");
        }
        if key.rows() == 0 {
            return Err("Key must not be empty.");
        }
        let rows = key.to_rows();
        assert(is_square(grid(rows@)));
        let d = det_mod26(&rows);
        if gcd_of(d, 26) != 1 {
            return Err("The inverse determinant of the key cannot be calculated.");
        }
        Ok(Hill { key: rows })
    }

    /// Encrypts a message of letters only, padding it with filler letters to a
    /// multiple of the key's dimension.
    fn encrypt(&self, message: &str) -> (r: Result<String, &'static str>) {
        proof {
            use_type_invariant(self);
        }
        transform_message(&self.key, message)
    }

    /// Decrypts a message of letters only; filler letters added by encryption
    /// stay in the result.
    fn decrypt(&self, ciphertext: &str) -> (r: Result<String, &'static str>) {
        proof {
            use_type_invariant(self);
        }
        let inverse = calc_inverse_key(&self.key);
        proof {
            let g = grid(self.key@);
            assert(is_square(grid(inverse@))) by {
                assert(grid(inverse@) == inverse_key(g));
            }
            assert(inverse@.len() == grid(inverse@).len());
        }
        transform_message(&inverse, ciphertext)
    }
}

} // verus!

verus! {

/// Padding gives a multiple of `n` that starts with the message.
proof fn lemma_padded(m: Seq<char>, n: nat)
    requires
        n >= 1,
    ensures
        padded(m, n).len() % n == 0,
        padded(m, n).len() >= m.len(),
        padded(m, n).subrange(0, m.len() as int) == m,
{
    let ml = m.len() as int;
    let ni = n as int;
    let p = padded(m, n);
    vstd::arithmetic::div_mod::lemma_fundamental_div_mod(ml, ni);
    if ml % ni != 0 {
        assert(p.len() == (ml / ni + 1) * ni) by (nonlinear_arith)
            requires
                p.len() == ml + (ni - ml % ni),
                ml == ni * (ml / ni) + ml % ni,
        ;
        vstd::arithmetic::div_mod::lemma_mod_multiples_basic(ml / ni + 1, ni);
    }
    assert(p.subrange(0, ml) =~= m);
}

/// A chunk that starts at a multiple of `n` below a multiple of `n` ends inside it.
proof fn lemma_chunk_inside(i: int, n: int, len: int)
    requires
        n >= 1,
        0 <= i < len,
        len % n == 0,
    ensures
        i - i % n + n <= len,
        0 <= i % n < n,
        0 <= i - i % n,
{
    vstd::arithmetic::div_mod::lemma_fundamental_div_mod(i, n);
    vstd::arithmetic::div_mod::lemma_div_pos_is_pos(i, n);
    assert(n * (i / n) >= 0) by (nonlinear_arith)
        requires
            n >= 1,
            i / n >= 0,
    ;
    vstd::arithmetic::div_mod::lemma_fundamental_div_mod(len, n);
    let q = i / n;
    let lq = len / n;
    assert(q < lq) by (nonlinear_arith)
        requires
            n * q <= i,
            i < len,
            len == n * lq,
            n >= 1,
    ;
    assert(n * q + n <= n * lq) by (nonlinear_arith)
        requires
            q + 1 <= lq,
            n >= 1,
    ;
}

/// `transformed` keeps the case of every letter of the message.
proof fn lemma_transformed_case(g: Seq<Seq<int>>, m: Seq<char>, i: int)
    requires
        g.len() >= 1,
        0 <= i < m.len(),
    ensures
        transformed(g, m).len() >= m.len(),
        is_upper(transformed(g, m)[i]) == is_upper(m[i]),
{
    let n = g.len() as int;
    let p = padded(m, g.len());
    let s = i - i % n;
    lemma_padded(m, g.len());
    assert(p.len() as int % n == 0);
    lemma_chunk_inside(i, n, p.len() as int);
    assert(s + n <= p.len());
    assert(p[i] == p.subrange(0, m.len() as int)[i]);
    let c = p.subrange(s, s + n);
    assert(c.len() == n);
    assert(c[i % n] == p[i]);
    let x = dot(g[i % n], positions(c), c.len() as int) % 26;
    assert(transformed(g, m)[i] == chunk_image(g, c)[i % n]);
    assert(chunk_image(g, c)[i % n] == letter_at(x as nat, is_upper(c[i % n])));
    lemma_letter_round_trip(x as nat, is_upper(c[i % n]));
}

/// Encryption and decryption keep the case of every letter of the message.
pub proof fn lemma_case_preserved(h: Hill, m: Seq<char>, i: int)
    requires
        h.wf(),
        all_letters(m),
        0 <= i < m.len(),
    ensures
        h.encrypted(m) matches Some(c) && i < c.len() && is_upper(c[i]) == is_upper(m[i]),
        h.decrypted(m) matches Some(d) && i < d.len() && is_upper(d[i]) == is_upper(m[i]),
{
    lemma_transformed_case(h.key_grid(), m, i);
    lemma_transformed_case(inverse_key(h.key_grid()), m, i);
}

/// A message with a character outside the alphabet is neither encrypted nor decrypted.
pub proof fn lemma_rejects_non_letters(h: Hill, m: Seq<char>, i: int)
    requires
        0 <= i < m.len(),
        !is_letter(m[i]),
    ensures
        h.encrypted(m) is None,
        h.decrypted(m) is None,
{
}

/// A non-empty key matrix is accepted exactly when it is square, not singular,
/// and its determinant is prime to 26.
pub proof fn lemma_key_validation(key: Matrix)
    requires
        key.num_rows() >= 1 || key.num_cols() >= 1,
    ensures
        Hill::accepts(key) <==> {
            &&& key.num_rows() == key.num_cols()
            &&& det(key.as_grid()) != 0
            &&& gcd((det(key.as_grid()) % 26) as nat, 26) == 1
        },
{
    let g = key.as_grid();
    if key.num_rows() == key.num_cols() {
        assert(is_square(g));
    }
    if det(g) == 0 {
        assert(gcd(0, 26) == gcd(26, 0));
    }
}

} // verus!

verus! {

/// Column `l` of `g`.
pub open spec fn column(g: Seq<Seq<int>>, l: int) -> Seq<int> {
    Seq::new(g.len(), |j: int| g[j][l])
}

/// Whether `h` undoes `g` modulo 26: `h` times `g` is the identity modulo 26.
pub open spec fn undoes(h: Seq<Seq<int>>, g: Seq<Seq<int>>) -> bool {
    &&& h.len() == g.len()
    &&& forall|i: int, l: int|
        0 <= i < g.len() && 0 <= l < g.len() ==> #[trigger] (dot(h[i], column(g, l), g.len() as int)
            % 26) == if i == l {
            1int
        } else {
            0int
        }
}

/// Sums that agree term by term modulo 26 agree modulo 26.
proof fn lemma_dot_congruent(a: Seq<int>, v: Seq<int>, b: Seq<int>, w: Seq<int>, k: int)
    requires
        forall|j: int| 0 <= j < k ==> #[trigger] (a[j] % 26) == b[j] % 26,
        forall|j: int| 0 <= j < k ==> #[trigger] (v[j] % 26) == w[j] % 26,
    ensures
        dot(a, v, k) % 26 == dot(b, w, k) % 26,
    decreases k,
{
    if k > 0 {
        lemma_dot_congruent(a, v, b, w, k - 1);
        let j = k - 1;
        vstd::arithmetic::div_mod::lemma_mul_mod_noop(a[j], v[j], 26);
        vstd::arithmetic::div_mod::lemma_mul_mod_noop(b[j], w[j], 26);
        assert((a[j] * v[j]) % 26 == (b[j] * w[j]) % 26);
        vstd::arithmetic::div_mod::lemma_add_mod_noop(dot(a, v, k - 1), a[j] * v[j], 26);
        vstd::arithmetic::div_mod::lemma_add_mod_noop(dot(b, w, k - 1), b[j] * w[j], 26);
    }
}

/// `dot` is linear in its first argument.
proof fn lemma_dot_linear(a: Seq<int>, b: Seq<int>, c: int, p: Seq<int>, k: int)
    requires
        0 <= k <= a.len(),
        a.len() == b.len(),
    ensures
        dot(Seq::new(a.len(), |l: int| a[l] + c * b[l]), p, k) == dot(a, p, k) + c * dot(b, p, k),
    decreases k,
{
    if k > 0 {
        lemma_dot_linear(a, b, c, p, k - 1);
        let j = k - 1;
        let (x, y, z, d1, d2) = (a[j], b[j], p[j], dot(a, p, k - 1), dot(b, p, k - 1));
        assert((x + c * y) * z == x * z + c * (y * z)) by (nonlinear_arith);
        assert(c * (d2 + y * z) == c * d2 + c * (y * z)) by (nonlinear_arith);
    }
}

/// The vector of length `n` with 1 at place `i` and 0 elsewhere.
pub open spec fn unit(n: nat, i: int) -> Seq<int> {
    Seq::new(n, |l: int| if l == i { 1int } else { 0int })
}

/// The sum over the first `k` places of a unit vector at `i` times `p` is `p[i]`.
proof fn lemma_dot_unit(i: int, p: Seq<int>, n: nat, k: int)
    requires
        0 <= i < n,
        0 <= k <= n,
    ensures
        dot(unit(n, i), p, k) == if i < k {
            p[i]
        } else {
            0
        },
    decreases k,
{
    if k > 0 {
        lemma_dot_unit(i, p, n, k - 1);
    }
}

/// The partial column sums of `h` times `g` over the first `jn` rows.
pub open spec fn partial_product(hrow: Seq<int>, g: Seq<Seq<int>>, jn: int) -> Seq<int> {
    Seq::new(g.len(), |l: int| dot(hrow, column(g, l), jn))
}

/// Multiplying by `g` and then by a row of `h` is multiplying by that row of `h * g`.
proof fn lemma_dot_assoc(hrow: Seq<int>, g: Seq<Seq<int>>, p: Seq<int>, jn: int)
    requires
        is_square(g),
        0 <= jn <= g.len(),
    ensures
        dot(hrow, Seq::new(g.len(), |j: int| dot(g[j], p, g.len() as int)), jn) == dot(
            partial_product(hrow, g, jn),
            p,
            g.len() as int,
        ),
    decreases jn,
{
    let n = g.len() as int;
    let y = Seq::new(g.len(), |j: int| dot(g[j], p, n));
    if jn == 0 {
        assert(dot(partial_product(hrow, g, 0), p, n) == 0) by {
            lemma_dot_zero(partial_product(hrow, g, 0), p, n);
        }
    } else {
        let j = jn - 1;
        lemma_dot_assoc(hrow, g, p, j);
        let a = partial_product(hrow, g, j);
        let b = g[j];
        lemma_dot_linear(a, b, hrow[j], p, n);
        assert(partial_product(hrow, g, jn) =~= Seq::new(a.len(), |l: int| a[l] + hrow[j] * b[l]));
        assert(hrow[j] * y[j] == hrow[j] * dot(g[j], p, n));
    }
}

/// A sum of zero terms times anything is zero.
proof fn lemma_dot_zero(a: Seq<int>, p: Seq<int>, k: int)
    requires
        forall|j: int| 0 <= j < k ==> #[trigger] a[j] == 0,
    ensures
        dot(a, p, k) == 0,
    decreases k,
{
    if k > 0 {
        lemma_dot_zero(a, p, k - 1);
    }
}

/// A chunk multiplied by `g` and then by a matrix that undoes `g` comes back.
proof fn lemma_chunk_round_trip(h: Seq<Seq<int>>, g: Seq<Seq<int>>, s: Seq<char>)
    requires
        is_square(g),
        undoes(h, g),
        s.len() == g.len(),
        all_letters(s),
    ensures
        chunk_image(h, chunk_image(g, s)) == s,
{
    let n = g.len() as int;
    let p = positions(s);
    let c = chunk_image(g, s);
    let y = Seq::new(g.len(), |j: int| dot(g[j], p, n));
    assert forall|j: int| 0 <= j < n implies #[trigger] (positions(c)[j] % 26) == y[j] % 26 by {
        let x = (dot(g[j], p, n) % 26) as nat;
        lemma_letter_round_trip(x, is_upper(s[j]));
        vstd::arithmetic::div_mod::lemma_mod_twice(dot(g[j], p, n), 26);
    }
    assert forall|i: int| 0 <= i < n implies #[trigger] chunk_image(h, c)[i] == s[i] by {
        let e = unit(g.len(), i);
        let pp = partial_product(h[i], g, n);
        lemma_dot_congruent(h[i], positions(c), h[i], y, n);
        lemma_dot_assoc(h[i], g, p, n);
        assert forall|l: int| 0 <= l < n implies #[trigger] (pp[l] % 26) == e[l] % 26 by {
            assert(pp[l] == dot(h[i], column(g, l), n));
        }
        assert forall|l: int| 0 <= l < n implies #[trigger] (p[l] % 26) == p[l] % 26 by {}
        lemma_dot_congruent(pp, p, e, p, n);
        lemma_dot_unit(i, p, g.len(), n);
        lemma_index_bound(s[i]);
        let x = (dot(g[i], p, n) % 26) as nat;
        lemma_letter_round_trip(x, is_upper(s[i]));
        assert(is_upper(c[i]) == is_upper(s[i]));
        let q = dot(h[i], positions(c), n) % 26;
        assert(q == dot(h[i], y, n) % 26);
        assert(dot(h[i], y, n) == dot(pp, p, n));
        assert(dot(e, p, n) == p[i]);
        assert(p[i] == index_of(s[i]) as int);
        vstd::arithmetic::div_mod::lemma_small_mod(index_of(s[i]), 26);
        assert(q == p[i]);
        assert(c.len() == n);
        assert(chunk_image(h, c)[i] == letter_at(q as nat, is_upper(c[i])));
    }
    assert(chunk_image(h, c) =~= s);
}

/// The chunk of `transformed(g, m)` that starts at a multiple of the key's
/// dimension is the image of the same chunk of the padded message.
proof fn lemma_transformed_chunk(g: Seq<Seq<int>>, m: Seq<char>, s: int)
    requires
        g.len() >= 1,
        0 <= s,
        s % (g.len() as int) == 0,
        s + g.len() <= padded(m, g.len()).len(),
    ensures
        transformed(g, m).subrange(s, s + g.len()) == chunk_image(
            g,
            padded(m, g.len()).subrange(s, s + g.len()),
        ),
{
    let n = g.len() as int;
    let p = padded(m, g.len());
    vstd::arithmetic::div_mod::lemma_fundamental_div_mod(s, n);
    assert forall|t: int| 0 <= t < n implies #[trigger] transformed(g, m).subrange(s, s + n)[t]
        == chunk_image(g, p.subrange(s, s + n))[t] by {
        lemma_fundamental_div_mod_converse(s + t, n, s / n, t);
        assert((s + t) % n == t);
        assert((s + t) - (s + t) % n == s);
    }
    assert(transformed(g, m).subrange(s, s + n) =~= chunk_image(g, p.subrange(s, s + n)));
}

/// Encrypting with `g` and then decrypting with a matrix that undoes `g` gives
/// back the padded message.
pub proof fn lemma_transformed_round_trip(h: Seq<Seq<int>>, g: Seq<Seq<int>>, m: Seq<char>)
    requires
        is_square(g),
        g.len() >= 1,
        undoes(h, g),
        all_letters(m),
    ensures
        transformed(h, transformed(g, m)) == padded(m, g.len()),
{
    let n = g.len() as int;
    let p = padded(m, g.len());
    let c = transformed(g, m);
    lemma_padded(m, g.len());
    assert(padded(c, h.len()) == c);
    assert(all_letters(p)) by {
        assert forall|i: int| 0 <= i < p.len() implies is_letter(#[trigger] p[i]) by {
            if i < m.len() {
                assert(p[i] == p.subrange(0, m.len() as int)[i]);
            }
        }
    }
    assert forall|k: int| 0 <= k < p.len() implies #[trigger] transformed(h, c)[k] == p[k] by {
        lemma_chunk_inside(k, n, p.len() as int);
        let t = k % n;
        let s = k - t;
        vstd::arithmetic::div_mod::lemma_fundamental_div_mod(k, n);
        vstd::arithmetic::div_mod::lemma_mod_multiples_basic(k / n, n);
        assert(s == (k / n) * n);
        lemma_transformed_chunk(g, m, s);
        lemma_chunk_round_trip(h, g, p.subrange(s, s + n));
        assert(transformed(h, c)[k] == chunk_image(h, c.subrange(s, s + n))[t]);
    }
    assert(transformed(h, c) =~= p);
}

/// Row `i` of the adjugate of `g`: the cofactors of column `i` of `g`.
pub open spec fn adjugate_row(g: Seq<Seq<int>>, i: int) -> Seq<int> {
    Seq::new(g.len(), |j: int| cofactor(g, j, i))
}

/// The adjugate of `g` times `g` is `det(g)` times the identity.
pub open spec fn adjugate_identity(g: Seq<Seq<int>>) -> bool {
    forall|i: int, l: int|
        0 <= i < g.len() && 0 <= l < g.len() ==> #[trigger] dot(adjugate_row(g, i), column(g, l), g.len() as int)
            == if i == l {
            det(g)
        } else {
            0
        }
}

/// `dot` scales with its first argument.
proof fn lemma_dot_scale(a: Seq<int>, c: int, p: Seq<int>, k: int)
    requires
        0 <= k <= a.len(),
    ensures
        dot(Seq::new(a.len(), |l: int| c * a[l]), p, k) == c * dot(a, p, k),
    decreases k,
{
    if k > 0 {
        lemma_dot_scale(a, c, p, k - 1);
        let (x, z, d) = (a[k - 1], p[k - 1], dot(a, p, k - 1));
        assert(c * x * z == c * (x * z)) by (nonlinear_arith);
        assert(c * (d + x * z) == c * d + c * (x * z)) by (nonlinear_arith);
    }
}

/// Where the adjugate identity holds, the inverse key undoes the key.
pub proof fn lemma_inverse_key_undoes(g: Seq<Seq<int>>)
    requires
        valid_key(g),
        adjugate_identity(g),
    ensures
        undoes(inverse_key(g), g),
{
    let n = g.len() as int;
    let h = inverse_key(g);
    let d = det_inverse(g);
    lemma_unit_has_inverse(det(g) % 26);
    assert((det(g) % 26 * d) % 26 == 1) by {
        lemma_inverse_found(det(g) % 26, 1);
    }
    assert forall|i: int, l: int| 0 <= i < n && 0 <= l < n implies #[trigger] (dot(
        h[i],
        column(g, l),
        n,
    ) % 26) == if i == l {
        1int
    } else {
        0int
    } by {
        let a = adjugate_row(g, i);
        let b = Seq::new(a.len(), |j: int| d * a[j]);
        let col = column(g, l);
        assert forall|j: int| 0 <= j < n implies #[trigger] (h[i][j] % 26) == b[j] % 26 by {
            vstd::arithmetic::div_mod::lemma_mod_twice(cofactor(g, j, i) % 26 * d, 26);
            vstd::arithmetic::div_mod::lemma_mul_mod_noop_left(cofactor(g, j, i), d, 26);
            assert(cofactor(g, j, i) * d == d * cofactor(g, j, i)) by (nonlinear_arith);
        }
        assert forall|j: int| 0 <= j < n implies #[trigger] (col[j] % 26) == col[j] % 26 by {}
        lemma_dot_congruent(h[i], col, b, col, n);
        lemma_dot_scale(a, d, col, n);
        if i == l {
            assert(dot(b, col, n) == d * det(g));
            vstd::arithmetic::div_mod::lemma_mul_mod_noop_left(det(g), d, 26);
            assert(d * det(g) == det(g) * d) by (nonlinear_arith);
        } else {
            assert(dot(b, col, n) == d * 0);
        }
    }
}

/// What `inverse_from` finds is an inverse.
proof fn lemma_inverse_found(a: int, from: nat)
    requires
        inverse_from(a, from) is Some,
    ensures
        (a * (inverse_from(a, from)->0 as int)) % 26 == 1,
    decreases 26 - from,
{
    if from < 26 && (a * from) % 26 != 1 {
        lemma_inverse_found(a, from + 1);
    }
}

/// The determinant of a 1 by 1 matrix is its entry.
proof fn lemma_det_one(m: Seq<Seq<int>>)
    requires
        m.len() == 1,
    ensures
        det(m) == m[0][0],
{
    assert(minor(m, 0, 0).len() == 0);
    assert(det(minor(m, 0, 0)) == 1);
    assert(expansion(m, 0) == 0);
    assert(sign(0) == 1);
    assert(expansion(m, 1) == expansion(m, 0) + sign(0) * m[0][0] * det(minor(m, 0, 0)));
    assert(det(m) == expansion(m, 1));
}

/// The determinant of a 2 by 2 matrix.
proof fn lemma_det_two(m: Seq<Seq<int>>)
    requires
        m.len() == 2,
        is_square(m),
    ensures
        det(m) == m[0][0] * m[1][1] - m[0][1] * m[1][0],
{
    lemma_det_one(minor(m, 0, 0));
    lemma_det_one(minor(m, 0, 1));
    assert(m[1].len() == 2);
    assert(minor(m, 0, 0)[0][0] == m[1][1]);
    assert(minor(m, 0, 1)[0][0] == m[1][0]);
    assert(sign(0) == 1);
    assert(sign(1) == -1);
    assert(expansion(m, 0) == 0);
    assert(expansion(m, 1) == expansion(m, 0) + sign(0) * m[0][0] * det(minor(m, 0, 0)));
    assert(expansion(m, 2) == expansion(m, 1) + sign(1) * m[0][1] * det(minor(m, 0, 1)));
    assert(det(m) == expansion(m, 2));
    let (a, b, c, d) = (m[0][0], m[0][1], m[1][0], m[1][1]);
    assert(1 * a * d + (-1) * b * c == a * d - b * c) by (nonlinear_arith);
}

/// The adjugate identity for matrices of dimension 1 and 2.
pub proof fn lemma_adjugate_identity_small(g: Seq<Seq<int>>)
    requires
        is_square(g),
        1 <= g.len() <= 2,
    ensures
        adjugate_identity(g),
{
    let n = g.len() as int;
    if n == 1 {
        lemma_det_one(g);
        assert(minor(g, 0, 0).len() == 0);
        assert(det(minor(g, 0, 0)) == 1);
        assert(sign(0) == 1);
        assert(cofactor(g, 0, 0) == 1);
        assert forall|i: int, l: int| 0 <= i < n && 0 <= l < n implies #[trigger] dot(
            adjugate_row(g, i),
            column(g, l),
            n,
        ) == if i == l {
            det(g)
        } else {
            0
        } by {
            assert(dot(adjugate_row(g, i), column(g, l), 1) == dot(adjugate_row(g, i), column(g, l), 0)
                + adjugate_row(g, i)[0] * column(g, l)[0]);
        }
    } else {
        lemma_det_two(g);
        assert forall|j: int, i: int| 0 <= j < 2 && 0 <= i < 2 implies #[trigger] cofactor(g, j, i)
            == sign(i + j) * g[1 - j][1 - i] by {
            lemma_det_one(minor(g, j, i));
            assert(g[1 - j].len() == 2);
            assert(minor(g, j, i)[0][0] == g[1 - j][1 - i]);
        }
        assert(sign(0) == 1 && sign(1) == -1 && sign(2) == 1);
        assert(cofactor(g, 0, 0) == sign(0) * g[1][1]);
        assert(cofactor(g, 1, 0) == sign(1) * g[0][1]);
        assert(cofactor(g, 0, 1) == sign(1) * g[1][0]);
        assert(cofactor(g, 1, 1) == sign(2) * g[0][0]);
        let (g00, g01, g10, g11) = (g[0][0], g[0][1], g[1][0], g[1][1]);
        assert(cofactor(g, 0, 0) == g11 && cofactor(g, 1, 0) == -g01);
        assert(cofactor(g, 0, 1) == -g10 && cofactor(g, 1, 1) == g00);
        assert forall|i: int, l: int| 0 <= i < n && 0 <= l < n implies #[trigger] dot(
            adjugate_row(g, i),
            column(g, l),
            n,
        ) == if i == l {
            det(g)
        } else {
            0
        } by {
            let a = adjugate_row(g, i);
            let c = column(g, l);
            assert(dot(a, c, 1) == dot(a, c, 0) + a[0] * c[0]);
            assert(dot(a, c, 2) == dot(a, c, 1) + a[1] * c[1]);
            assert(a[0] == cofactor(g, 0, i) && a[1] == cofactor(g, 1, i));
            assert(c[0] == g[0][l] && c[1] == g[1][l]);
            if i == 0 && l == 0 {
                assert(g11 * g00 + (-g01) * g10 == g00 * g11 - g01 * g10) by (nonlinear_arith);
            } else if i == 0 && l == 1 {
                assert(g11 * g01 + (-g01) * g11 == 0) by (nonlinear_arith);
            } else if i == 1 && l == 0 {
                assert((-g10) * g00 + g00 * g10 == 0) by (nonlinear_arith);
            } else {
                assert((-g10) * g01 + g00 * g11 == g00 * g11 - g01 * g10) by (nonlinear_arith);
            }
        }
    }
}

/// Every character of a transformed message is a letter.
proof fn lemma_transformed_letters(g: Seq<Seq<int>>, m: Seq<char>)
    requires
        g.len() >= 1,
    ensures
        all_letters(transformed(g, m)),
{
    let n = g.len() as int;
    let p = padded(m, g.len());
    lemma_padded(m, g.len());
    assert forall|k: int| 0 <= k < p.len() implies is_letter(#[trigger] transformed(g, m)[k]) by {
        lemma_chunk_inside(k, n, p.len() as int);
        let s = k - k % n;
        let c = p.subrange(s, s + n);
        let x = (dot(g[k % n], positions(c), n) % 26) as nat;
        lemma_letter_round_trip(x, is_upper(c[k % n]));
    }
}

/// Decrypting the encryption of a message of letters gives back the message
/// followed by its filler letters, for every key whose adjugate times the key
/// is its determinant times the identity; a message whose length is a
/// multiple of the key's dimension comes back exactly.
pub proof fn lemma_round_trip(h: Hill, m: Seq<char>)
    requires
        h.wf(),
        all_letters(m),
        adjugate_identity(h.key_grid()),
    ensures
        h.encrypted(m) matches Some(c) && h.decrypted(c) == Some(padded(m, h.key_grid().len())),
        m.len() % h.key_grid().len() == 0 ==> (h.encrypted(m) matches Some(c) && h.decrypted(c)
            == Some(m)),
{
    let g = h.key_grid();
    lemma_inverse_key_undoes(g);
    lemma_transformed_letters(g, m);
    lemma_transformed_round_trip(inverse_key(g), g, m);
}

/// The round trip for keys of dimension 1, 2 and 3: decryption returns the
/// message followed by its filler letters, and an aligned message exactly.
pub proof fn lemma_round_trip_small_keys(h: Hill, m: Seq<char>)
    requires
        h.wf(),
        h.key_grid().len() <= 3,
        all_letters(m),
    ensures
        h.encrypted(m) matches Some(c) && h.decrypted(c) == Some(padded(m, h.key_grid().len())),
        m.len() % h.key_grid().len() == 0 ==> (h.encrypted(m) matches Some(c) && h.decrypted(c)
            == Some(m)),
{
    if h.key_grid().len() <= 2 {
        lemma_adjugate_identity_small(h.key_grid());
    } else {
        lemma_adjugate_identity_three(h.key_grid());
    }
    lemma_round_trip(h, m);
}

/// A cofactor of a 3 by 3 matrix, written out.
proof fn lemma_cofactor_three(g: Seq<Seq<int>>, j: int, i: int)
    requires
        g.len() == 3,
        is_square(g),
        0 <= j < 3,
        0 <= i < 3,
    ensures
        ({
            let r0 = if j == 0 { 1int } else { 0int };
            let r1 = if j == 2 { 1int } else { 2int };
            let c0 = if i == 0 { 1int } else { 0int };
            let c1 = if i == 2 { 1int } else { 2int };
            cofactor(g, j, i) == sign(i + j) * (g[r0][c0] * g[r1][c1] - g[r0][c1] * g[r1][c0])
        }),
{
    let m = minor(g, j, i);
    assert(is_square(m)) by {
        assert forall|r: int| 0 <= r < m.len() implies (#[trigger] m[r]).len() == m.len() by {
            let src = if r < j { r } else { r + 1 };
            assert(g[src].len() == 3);
        }
    }
    lemma_det_two(m);
    let r0 = if j == 0 { 1int } else { 0int };
    let r1 = if j == 2 { 1int } else { 2int };
    let c0 = if i == 0 { 1int } else { 0int };
    let c1 = if i == 2 { 1int } else { 2int };
    assert(g[r0].len() == 3 && g[r1].len() == 3);
    assert(m[0][0] == g[r0][c0]);
    assert(m[0][1] == g[r0][c1]);
    assert(m[1][0] == g[r1][c0]);
    assert(m[1][1] == g[r1][c1]);
}

/// The adjugate identity for 3 by 3 matrices.
pub proof fn lemma_adjugate_identity_three(g: Seq<Seq<int>>)
    requires
        is_square(g),
        g.len() == 3,
    ensures
        adjugate_identity(g),
{
    assert(g[0].len() == 3 && g[1].len() == 3 && g[2].len() == 3);
    let (a, b, c) = (g[0][0], g[0][1], g[0][2]);
    let (d, e, f) = (g[1][0], g[1][1], g[1][2]);
    let (x, y, z) = (g[2][0], g[2][1], g[2][2]);
    assert(sign(0) == 1 && sign(1) == -1 && sign(2) == 1 && sign(3) == -1 && sign(4) == 1);
    lemma_cofactor_three(g, 0, 0);
    lemma_cofactor_three(g, 0, 1);
    lemma_cofactor_three(g, 0, 2);
    lemma_cofactor_three(g, 1, 0);
    lemma_cofactor_three(g, 1, 1);
    lemma_cofactor_three(g, 1, 2);
    lemma_cofactor_three(g, 2, 0);
    lemma_cofactor_three(g, 2, 1);
    lemma_cofactor_three(g, 2, 2);
    let (k00, k01, k02) = (cofactor(g, 0, 0), cofactor(g, 0, 1), cofactor(g, 0, 2));
    let (k10, k11, k12) = (cofactor(g, 1, 0), cofactor(g, 1, 1), cofactor(g, 1, 2));
    let (k20, k21, k22) = (cofactor(g, 2, 0), cofactor(g, 2, 1), cofactor(g, 2, 2));
    assert(k00 == e * z - f * y);
    assert(k01 == -(d * z - f * x));
    assert(k02 == d * y - e * x);
    assert(k10 == -(b * z - c * y));
    assert(k11 == a * z - c * x);
    assert(k12 == -(a * y - b * x));
    assert(k20 == sign(2) * (b * f - c * e));
    assert(k20 == b * f - c * e);
    assert(k21 == sign(3) * (a * f - c * d));
    assert(k21 == -(a * f - c * d));
    assert(k22 == sign(4) * (a * e - b * d));
    assert(k22 == a * e - b * d);
    let (m1, m2, m3) = (a * e * z, a * f * y, b * d * z);
    let (m4, m5, m6) = (b * f * x, c * d * y, c * e * x);
    assert(k00 * a == m1 - m2 && a * k00 == m1 - m2) by (nonlinear_arith)
        requires
            k00 == e * z - f * y,
            m1 == a * e * z,
            m2 == a * f * y,
    ;
    assert(k10 * d == m5 - m3 && d * k10 == m5 - m3) by (nonlinear_arith)
        requires
            k10 == c * y - b * z,
            m5 == c * d * y,
            m3 == b * d * z,
    ;
    assert(k20 * x == m4 - m6 && x * k20 == m4 - m6) by (nonlinear_arith)
        requires
            k20 == b * f - c * e,
            m4 == b * f * x,
            m6 == c * e * x,
    ;
    assert(k01 * b == m4 - m3 && b * k01 == m4 - m3) by (nonlinear_arith)
        requires
            k01 == f * x - d * z,
            m4 == b * f * x,
            m3 == b * d * z,
    ;
    assert(k02 * c == m5 - m6 && c * k02 == m5 - m6) by (nonlinear_arith)
        requires
            k02 == d * y - e * x,
            m5 == c * d * y,
            m6 == c * e * x,
    ;
    assert(k11 * e == m1 - m6 && e * k11 == m1 - m6) by (nonlinear_arith)
        requires
            k11 == a * z - c * x,
            m1 == a * e * z,
            m6 == c * e * x,
    ;
    assert(k21 * y == m5 - m2 && y * k21 == m5 - m2) by (nonlinear_arith)
        requires
            k21 == c * d - a * f,
            m5 == c * d * y,
            m2 == a * f * y,
    ;
    assert(k12 * f == m4 - m2 && f * k12 == m4 - m2) by (nonlinear_arith)
        requires
            k12 == b * x - a * y,
            m4 == b * f * x,
            m2 == a * f * y,
    ;
    assert(k22 * z == m1 - m3 && z * k22 == m1 - m3) by (nonlinear_arith)
        requires
            k22 == a * e - b * d,
            m1 == a * e * z,
            m3 == b * d * z,
    ;
    assert(expansion(g, 0) == 0);
    assert(expansion(g, 1) == expansion(g, 0) + sign(0) * g[0][0] * det(minor(g, 0, 0)));
    assert(expansion(g, 2) == expansion(g, 1) + sign(1) * g[0][1] * det(minor(g, 0, 1)));
    assert(expansion(g, 3) == expansion(g, 2) + sign(2) * g[0][2] * det(minor(g, 0, 2)));
    assert(det(g) == expansion(g, 3));
    assert(det(g) == a * k00 + b * k01 + c * k02) by {
        assert(k00 == det(minor(g, 0, 0)));
        assert(k01 == -det(minor(g, 0, 1)));
        assert(k02 == det(minor(g, 0, 2)));
        assert(sign(1) * b * det(minor(g, 0, 1)) == b * k01) by (nonlinear_arith)
            requires
                sign(1) == -1,
                k01 == -det(minor(g, 0, 1)),
        ;
    }
    assert forall|i: int, l: int| 0 <= i < 3 && 0 <= l < 3 implies #[trigger] dot(
        adjugate_row(g, i),
        column(g, l),
        3,
    ) == if i == l {
        det(g)
    } else {
        0
    } by {
        let r = adjugate_row(g, i);
        let col = column(g, l);
        assert(dot(r, col, 1) == dot(r, col, 0) + r[0] * col[0]);
        assert(dot(r, col, 2) == dot(r, col, 1) + r[1] * col[1]);
        assert(dot(r, col, 3) == dot(r, col, 2) + r[2] * col[2]);
        assert(r[0] == cofactor(g, 0, i) && r[1] == cofactor(g, 1, i) && r[2] == cofactor(g, 2, i));
        assert(col[0] == g[0][l] && col[1] == g[1][l] && col[2] == g[2][l]);
        if i == 0 {
            if l == 0 {
                assert(k00 * a + k10 * d + k20 * x == a * k00 + b * k01 + c * k02);
            } else if l == 1 {
                assert(k00 * b + k10 * e + k20 * y == 0) by (nonlinear_arith)
                    requires
                        k00 == e * z - f * y, k10 == -(b * z - c * y), k20 == b * f - c * e,
                ;
            } else {
                assert(k00 * c + k10 * f + k20 * z == 0) by (nonlinear_arith)
                    requires
                        k00 == e * z - f * y, k10 == -(b * z - c * y), k20 == b * f - c * e,
                ;
            }
        } else if i == 1 {
            if l == 0 {
                assert(k01 * a + k11 * d + k21 * x == 0) by (nonlinear_arith)
                    requires
                        k01 == -(d * z - f * x), k11 == a * z - c * x, k21 == -(a * f - c * d),
                ;
            } else if l == 1 {
                assert(k01 * b + k11 * e + k21 * y == a * k00 + b * k01 + c * k02);
            } else {
                assert(k01 * c + k11 * f + k21 * z == 0) by (nonlinear_arith)
                    requires
                        k01 == -(d * z - f * x), k11 == a * z - c * x, k21 == -(a * f - c * d),
                ;
            }
        } else {
            if l == 0 {
                assert(k02 * a + k12 * d + k22 * x == 0) by (nonlinear_arith)
                    requires
                        k02 == d * y - e * x, k12 == -(a * y - b * x), k22 == a * e - b * d,
                ;
            } else if l == 1 {
                assert(k02 * b + k12 * e + k22 * y == 0) by (nonlinear_arith)
                    requires
                        k02 == d * y - e * x, k12 == -(a * y - b * x), k22 == a * e - b * d,
                ;
            } else {
                assert(k02 * c + k12 * f + k22 * z == a * k00 + b * k01 + c * k02);
            }
        }
    }
}

} // verus!
