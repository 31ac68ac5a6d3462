//! Keys built from key phrases: keyed alphabets, columnar keys and Playfair
//! tables.
use vstd::prelude::*;

use crate::alphabet::{
    all_letters, chars_of, find_position, get_letter, index_of, is_letter, is_upper,
    lemma_index_bound, letter_at, string_of, Alphabet, ALPHANUMERIC, STANDARD,
};

verus! {

/// `c` in lower case when it is an uppercase letter.
pub open spec fn lower_ascii(c: char) -> char {
    if is_upper(c) {
        letter_at(index_of(c), false)
    } else {
        c
    }
}

/// `c` in the chosen case when it is a letter.
pub open spec fn in_case(c: char, upper: bool) -> char {
    if is_letter(c) {
        letter_at(index_of(c), upper)
    } else {
        c
    }
}

/// Whether `s` holds `c`, case ignored.
pub open spec fn holds_ignoring_case(s: Seq<char>, c: char) -> bool {
    exists|i: int| 0 <= i < s.len() && #[trigger] lower_ascii(s[i]) == lower_ascii(c)
}

/// `s` with `c` in the chosen case added, unless `s` holds it already.
pub open spec fn add_new(s: Seq<char>, c: char, upper: bool) -> Seq<char> {
    if holds_ignoring_case(s, c) {
        s
    } else {
        s.push(in_case(c, upper))
    }
}

/// The first `j` characters of `key` without repeats, in the chosen case.
pub open spec fn from_key(key: Seq<char>, upper: bool, j: nat) -> Seq<char>
    decreases j,
{
    if j == 0 {
        Seq::empty()
    } else {
        add_new(from_key(key, upper, (j - 1) as nat), key[j - 1], upper)
    }
}

/// `s` followed by the first `j` symbols of `alpha` that it does not hold yet.
pub open spec fn with_alphabet(alpha: Alphabet, upper: bool, s: Seq<char>, j: nat) -> Seq<char>
    decreases j,
{
    if j == 0 {
        s
    } else {
        add_new(with_alphabet(alpha, upper, s, (j - 1) as nat), alpha.symbol((j - 1) as nat, upper), upper)
    }
}

/// The keyed alphabet of `key`: its symbols without repeats, then the rest of `alpha`.
pub open spec fn keyed(key: Seq<char>, alpha: Alphabet, upper: bool) -> Seq<char> {
    with_alphabet(alpha, upper, from_key(key, upper, key.len()), alpha.size())
}

/// Whether two places of `s` hold the same character.
pub open spec fn has_repeats(s: Seq<char>) -> bool {
    exists|i: int, j: int| 0 <= i < j < s.len() && #[trigger] s[i] == #[trigger] s[j]
}

/// `c` in lower case when it is an uppercase letter.
fn ascii_lower(c: char) -> (r: char)
    ensures
        r == lower_ascii(c),
{
    if 'A' <= c && c <= 'Z' {
        proof {
            lemma_index_bound(c);
        }
        match find_position(c) {
            Some(p) => match get_letter(p, false) {
                Some(l) => l,
                None => c,
            },
            None => c,
        }
    } else {
        c
    }
}

/// `c` in the chosen case when it is a letter.
fn set_case(c: char, upper: bool) -> (r: char)
    ensures
        r == in_case(c, upper),
{
    match find_position(c) {
        Some(p) => {
            proof {
                lemma_index_bound(c);
            }
            match get_letter(p, upper) {
                Some(l) => l,
                None => c,
            }
        },
        None => c,
    }
}

/// Adds `c` in the chosen case to `s`, unless `s` holds it already.
fn push_new(s: &mut Vec<char>, c: char, upper: bool)
    ensures
        final(s)@ == add_new(old(s)@, c, upper),
{
    let lc = ascii_lower(c);
    let mut i: usize = 0;
    while i < s.len()
        invariant
            lc == lower_ascii(c),
            i <= s@.len(),
            forall|t: int| 0 <= t < i ==> #[trigger] lower_ascii(s@[t]) != lower_ascii(c),
        decreases s@.len() - i,
    {
        if ascii_lower(s[i]) == lc {
            return;
        }
        i += 1;
    }
    s.push(set_case(c, upper));
}

/// The symbols of `key` without repeats, case ignored, followed by the rest of
/// `alpha_type`, all in the chosen case.
pub fn keyed_alphabet(key: &str, alpha_type: Alphabet, to_uppercase: bool) -> (r: Result<String, &'static str>)
    ensures
        r is Ok <==> forall|i: int| 0 <= i < key@.len() ==> alpha_type.holds(#[trigger] key@[i]),
        r matches Ok(s) ==> s@ == keyed(key@, alpha_type, to_uppercase),
{
    if !alpha_type.is_valid(key) {
        return Err("Invalid key. Key cannot contain non-alphabetic symbols.");
    }
    let k = chars_of(key);
    let mut out: Vec<char> = Vec::new();
    let mut j: usize = 0;
    while j < k.len()
        invariant
            k@ == key@,
            j <= k@.len(),
            out@ == from_key(key@, to_uppercase, j as nat),
        decreases k@.len() - j,
    {
        push_new(&mut out, k[j], to_uppercase);
        j += 1;
    }
    let ghost base = out@;
    let size = alpha_type.length();
    let mut t: usize = 0;
    while t < size
        invariant
            size == alpha_type.size(),
            t <= size,
            base == from_key(key@, to_uppercase, key@.len()),
            out@ == with_alphabet(alpha_type, to_uppercase, base, t as nat),
        decreases size - t,
    {
        match alpha_type.get_letter(t, to_uppercase) {
            Some(c) => push_new(&mut out, c, to_uppercase),
            None => {
                assert(false);
            },
        }
        t += 1;
    }
    Ok(string_of(&out))
}

/// One column per character of `key`, each empty; the key must be non-empty,
/// alphanumeric and without repeated characters.
pub fn columnar_key(key: &str) -> (r: Result<Vec<(char, Vec<char>)>, &'static str>)
    ensures
        r is Ok <==> key@.len() > 0 && !has_repeats(key@) && forall|i: int|
            0 <= i < key@.len() ==> ALPHANUMERIC.holds(#[trigger] key@[i]),
        r matches Ok(v) ==> v@.len() == key@.len() && forall|i: int|
            0 <= i < v@.len() ==> (#[trigger] v@[i]).0 == key@[i] && v@[i].1@.len() == 0,
{
    let k = chars_of(key);
    if k.len() == 0 {
        return Err("The key cannot be zero length.");
    }
    let mut i: usize = 0;
    while i < k.len()
        invariant
            k@ == key@,
            i <= k@.len(),
            forall|a: int, b: int| 0 <= a < b < k@.len() && a < i ==> k@[a] != k@[b],
        decreases k@.len() - i,
    {
        let mut j: usize = i + 1;
        while j < k.len()
            invariant
                k@ == key@,
                i < j <= k@.len(),
                forall|a: int, b: int| 0 <= a < b < k@.len() && a < i ==> k@[a] != k@[b],
                forall|b: int| i < b < j ==> k@[i as int] != k@[b],
            decreases k@.len() - j,
        {
            if k[i] == k[j] {
                return Err("The key cannot contain duplicate alphanumeric characters.");
            }
            j += 1;
        }
        i += 1;
    }
    if !ALPHANUMERIC.is_valid(key) {
        return Err("The key cannot contain non-alphanumeric symbols.");
    }
    let mut c_key: Vec<(char, Vec<char>)> = Vec::new();
    let mut t: usize = 0;
    while t < k.len()
        invariant
            k@ == key@,
            t <= k@.len(),
            c_key@.len() == t,
            forall|a: int| 0 <= a < t ==> (#[trigger] c_key@[a]).0 == key@[a] && c_key@[a].1@.len() == 0,
        decreases k@.len() - t,
    {
        c_key.push((k[t], Vec::new()));
        t += 1;
    }
    Ok(c_key)
}

/// What `char::is_whitespace` says of `c`.
pub uninterp spec fn is_white(c: char) -> bool;

/// Relies on `char::is_whitespace`: whether `c` has Unicode's White_Space property.
#[verifier::external_body]
fn is_whitespace_char(c: char) -> (r: bool)
    ensures
        r == is_white(c),
{
    c.is_whitespace()
}

/// The 25 letters of a Playfair table: the alphabet in upper case without `J`.
pub open spec fn playfair_letters() -> Seq<char> {
    Seq::new(25, |k: int| letter_at(if k < 9 { k as nat } else { (k + 1) as nat }, true))
}

/// A letter in upper case, with `J` read as `I`.
pub open spec fn conform(c: char) -> char {
    if letter_at(index_of(c), true) == 'J' {
        'I'
    } else {
        letter_at(index_of(c), true)
    }
}

/// `s` with `c` added unless it holds `c` already.
pub open spec fn push_absent(s: Seq<char>, c: char) -> Seq<char> {
    if s.contains(c) {
        s
    } else {
        s.push(c)
    }
}

/// The first `j` characters of `s`, each kept at its first place only.
pub open spec fn first_places(s: Seq<char>, j: nat) -> Seq<char>
    decreases j,
{
    if j == 0 {
        Seq::empty()
    } else {
        push_absent(first_places(s, (j - 1) as nat), s[j - 1])
    }
}

/// `s` followed by the first `j` Playfair letters that it lacks.
pub open spec fn fill_table(s: Seq<char>, j: nat) -> Seq<char>
    decreases j,
{
    if j == 0 {
        s
    } else {
        push_absent(fill_table(s, (j - 1) as nat), playfair_letters()[j - 1])
    }
}

/// The key without whitespace.
pub open spec fn key_letters(key: Seq<char>) -> Seq<char> {
    key.filter(|c: char| !is_white(c))
}

/// The Playfair table of `key`, row by row: its letters conformed and without
/// repeats, then the Playfair letters it lacks.
pub open spec fn playfair_order(key: Seq<char>) -> Seq<char> {
    let k = key_letters(key).map_values(|c: char| conform(c));
    fill_table(first_places(k, k.len()), 25)
}

/// A Playfair table: five rows and five columns of letters.
pub struct PlayfairTable {
    pub rows: Vec<String>,
    pub cols: Vec<String>,
}

impl PlayfairTable {
    /// Builds the table of `key`: a non-empty key of at most 25 characters,
    /// letters and whitespace only.
    pub fn new(key: &str) -> (r: Result<PlayfairTable, &'static str>)
        ensures
            r is Ok <==> 0 < key@.len() <= 25 && all_letters(key_letters(key@)),
            r matches Ok(t) ==> t.rows@.len() == 5 && t.cols@.len() == 5
                && forall|i: int| 0 <= i < 5 ==> {
                    &&& (#[trigger] t.rows@[i])@ == playfair_order(key@).subrange(5 * i, 5 * i + 5)
                    &&& t.cols@[i]@ == Seq::new(5, |r: int| playfair_order(key@)[5 * r + i])
                },
    {
        let k = chars_of(key);
        if k.len() == 0 {
            return Err("Key must not be empty");
        }
        if k.len() > 25 {
            return Err("Key length must not exceed 25 characters");
        }
        let mut letters: Vec<char> = Vec::new();
        let mut i: usize = 0;
        proof {
            reveal(Seq::filter);
            assert(key@.subrange(0, 0) =~= Seq::<char>::empty());
        }
        while i < k.len()
            invariant
                k@ == key@,
                i <= k@.len(),
                letters@ == key_letters(key@.subrange(0, i as int)),
            decreases k@.len() - i,
        {
            proof {
                reveal(Seq::filter);
                assert(key@.subrange(0, i + 1).drop_last() == key@.subrange(0, i as int));
            }
            if !is_whitespace_char(k[i]) {
                letters.push(k[i]);
            }
            i += 1;
        }
        assert(key@.subrange(0, k@.len() as int) == key@);
        let mut t: usize = 0;
        while t < letters.len()
            invariant
                letters@ == key_letters(key@),
                t <= letters@.len(),
                all_letters(letters@.subrange(0, t as int)),
            decreases letters@.len() - t,
        {
            if find_position(letters[t]).is_none() {
                assert(!is_letter(letters@[t as int]));
                return Err("Key must only consist of alphabetic characters");
            }
            assert(letters@.subrange(0, t + 1) == letters@.subrange(0, t as int).push(letters@[t as int]));
            t += 1;
        }
        assert(letters@.subrange(0, letters@.len() as int) == letters@);
        let ghost conformed = letters@.map_values(|c: char| conform(c));
        let mut table: Vec<char> = Vec::new();
        let mut j: usize = 0;
        while j < letters.len()
            invariant
                letters@ == key_letters(key@),
                all_letters(letters@),
                conformed == letters@.map_values(|c: char| conform(c)),
                j <= letters@.len(),
                table@ == first_places(conformed, j as nat),
            decreases letters@.len() - j,
        {
            let c = letters[j];
            proof {
                lemma_index_bound(c);
            }
            let u = set_case(c, true);
            let u = if u == 'J' {
                'I'
            } else {
                u
            };
            assert(u == conform(c));
            if !table_holds(&table, u) {
                table.push(u);
            }
            j += 1;
        }
        let alphabet = playfair_alphabet();
        let ghost base = table@;
        let mut a: usize = 0;
        while a < 25
            invariant
                alphabet@ == playfair_letters(),
                base == first_places(conformed, conformed.len()),
                conformed == key_letters(key@).map_values(|c: char| conform(c)),
                a <= 25,
                table@ == fill_table(base, a as nat),
            decreases 25 - a,
        {
            if !table_holds(&table, alphabet[a]) {
                table.push(alphabet[a]);
            }
            a += 1;
        }
        assert(table@ == playfair_order(key@));
        proof {
            lemma_playfair_order_len(key@);
        }
        let mut rows: Vec<String> = Vec::new();
        let mut cols: Vec<String> = Vec::new();
        let mut r: usize = 0;
        while r < 5
            invariant
                table@.len() == 25,
                r <= 5,
                rows@.len() == r,
                cols@.len() == r,
                forall|i: int| 0 <= i < r ==> {
                    &&& (#[trigger] rows@[i])@ == table@.subrange(5 * i, 5 * i + 5)
                    &&& cols@[i]@ == Seq::new(5, |q: int| table@[5 * q + i])
                },
            decreases 5 - r,
        {
            let mut row: Vec<char> = Vec::new();
            let mut col: Vec<char> = Vec::new();
            let mut q: usize = 0;
            while q < 5
                invariant
                    table@.len() == 25,
                    r < 5,
                    q <= 5,
                    row@ == table@.subrange(5 * r, 5 * r + q),
                    col@ == Seq::new(q as nat, |x: int| table@[5 * x + r]),
                decreases 5 - q,
            {
                row.push(table[5 * r + q]);
                col.push(table[5 * q + r]);
                assert(row@ =~= table@.subrange(5 * r, 5 * r + q + 1));
                assert(col@ =~= Seq::new((q + 1) as nat, |x: int| table@[5 * x + r]));
                q += 1;
            }
            let ghost old_rows = rows@;
            let ghost old_cols = cols@;
            rows.push(string_of(&row));
            cols.push(string_of(&col));
            proof {
                assert forall|i: int| 0 <= i < r + 1 implies {
                    &&& (#[trigger] rows@[i])@ == table@.subrange(5 * i, 5 * i + 5)
                    &&& cols@[i]@ == Seq::new(5, |q: int| table@[5 * q + i])
                } by {
                    if i < r {
                        assert(rows@[i] == old_rows[i]);
                        assert(cols@[i] == old_cols[i]);
                    } else {
                        assert(cols@[i]@ =~= Seq::new(5, |q: int| table@[5 * q + i]));
                    }
                }
            }
            r += 1;
        }
        Ok(PlayfairTable { rows, cols })
    }
}

/// Whether `s` holds `c`.
fn table_holds(s: &Vec<char>, c: char) -> (r: bool)
    ensures
        r == s@.contains(c),
{
    let mut i: usize = 0;
    while i < s.len()
        invariant
            i <= s@.len(),
            forall|t: int| 0 <= t < i ==> s@[t] != c,
        decreases s@.len() - i,
    {
        if s[i] == c {
            return true;
        }
        i += 1;
    }
    false
}

/// Whether two places of `s` hold the same character, case ignored.
pub open spec fn has_repeats_ignoring_case(s: Seq<char>) -> bool {
    exists|i: int, j: int|
        0 <= i < j < s.len() && #[trigger] lower_ascii(s[i]) == #[trigger] lower_ascii(s[j])
}

/// The entries that the symbol `v` under row id `rid` and column id `cid`
/// gives: one in upper case for a digit, one in each case for a letter.
pub open spec fn cell_entries(v: char, rid: char, cid: char) -> Seq<(char, char, char)> {
    if '0' <= v && v <= '9' {
        seq![(in_case(rid, true), in_case(cid, true), v)]
    } else {
        seq![
            (in_case(rid, false), in_case(cid, false), in_case(v, false)),
            (in_case(rid, true), in_case(cid, true), in_case(v, true)),
        ]
    }
}

/// The entries of the first `j` cells of the square, row by row.
pub open spec fn square_entries(key: Seq<char>, cols: Seq<char>, rows: Seq<char>, j: nat) -> Seq<
    (char, char, char),
>
    decreases j,
{
    if j == 0 {
        Seq::empty()
    } else {
        let p = (j - 1) as int;
        square_entries(key, cols, rows, (j - 1) as nat) + cell_entries(key[p], rows[p / 6], cols[p % 6])
    }
}

/// Whether a key and its row and column ids make a Polybius square.
pub open spec fn square_accepts(key: Seq<char>, cols: Seq<char>, rows: Seq<char>) -> bool {
    &&& key.len() == 36
    &&& !has_repeats(key)
    &&& forall|i: int| 0 <= i < key.len() ==> ALPHANUMERIC.holds(#[trigger] key[i])
    &&& forall|i: int| 0 <= i < 6 ==> STANDARD.holds(#[trigger] cols[i])
    &&& forall|i: int| 0 <= i < 6 ==> STANDARD.holds(#[trigger] rows[i])
    &&& !has_repeats_ignoring_case(cols)
    &&& !has_repeats_ignoring_case(rows)
}

/// A Polybius square: a row id and a column id name each symbol.
pub struct PolybiusSquare {
    entries: Vec<(char, char, char)>,
}

impl PolybiusSquare {
    /// The (row id, column id, symbol) entries.
    pub closed spec fn entries_of(&self) -> Seq<(char, char, char)> {
        self.entries@
    }

    /// The entries, handed over.
    pub fn into_entries(self) -> (r: Vec<(char, char, char)>)
        ensures
            r@ == self.entries_of(),
    {
        self.entries
    }

    /// The symbol named by the two ids of `k`, the row id first.
    pub fn get(&self, k: &str) -> (r: Option<&char>)
        ensures
            r is Some <==> k@.len() == 2 && exists|i: int|
                0 <= i < self.entries_of().len() && (#[trigger] self.entries_of()[i]).0 == k@[0]
                    && self.entries_of()[i].1 == k@[1],
            r matches Some(v) ==> exists|i: int|
                0 <= i < self.entries_of().len() && #[trigger] self.entries_of()[i] == (
                    k@[0],
                    k@[1],
                    *v,
                ),
    {
        let c = chars_of(k);
        if c.len() != 2 {
            return None;
        }
        let mut i: usize = 0;
        while i < self.entries.len()
            invariant
                c@ == k@,
                c@.len() == 2,
                i <= self.entries@.len(),
                forall|t: int|
                    0 <= t < i ==> !((#[trigger] self.entries@[t]).0 == k@[0] && self.entries@[t].1 == k@[1]),
            decreases self.entries@.len() - i,
        {
            let e = &self.entries[i];
            if e.0 == c[0] && e.1 == c[1] {
                assert(self.entries_of()[i as int] == (k@[0], k@[1], e.2));
                return Some(&e.2);
            }
            i += 1;
        }
        None
    }
}

/// Whether `ids` holds two ids that differ only in case.
fn repeats_ignoring_case(ids: &[char; 6]) -> (r: bool)
    ensures
        r == has_repeats_ignoring_case(ids@),
{
    let mut i: usize = 0;
    while i < 6
        invariant
            i <= 6,
            ids@.len() == 6,
            forall|a: int, b: int| 0 <= a < b < 6 && a < i ==> lower_ascii(ids@[a]) != lower_ascii(ids@[b]),
        decreases 6 - i,
    {
        let mut j: usize = i + 1;
        while j < 6
            invariant
                ids@.len() == 6,
                i < j <= 6,
                forall|a: int, b: int| 0 <= a < b < 6 && a < i ==> lower_ascii(ids@[a]) != lower_ascii(ids@[b]),
                forall|b: int| i < b < j ==> lower_ascii(ids@[i as int]) != lower_ascii(ids@[b]),
            decreases 6 - j,
        {
            if ascii_lower(ids[i]) == ascii_lower(ids[j]) {
                return true;
            }
            j += 1;
        }
        i += 1;
    }
    false
}

/// Whether every id is a letter.
fn ids_are_letters(ids: &[char; 6]) -> (r: bool)
    ensures
        r == forall|i: int| 0 <= i < 6 ==> STANDARD.holds(#[trigger] ids@[i]),
{
    let mut i: usize = 0;
    while i < 6
        invariant
            i <= 6,
            ids@.len() == 6,
            forall|a: int| 0 <= a < i ==> STANDARD.holds(#[trigger] ids@[a]),
        decreases 6 - i,
    {
        if find_position(ids[i]).is_none() {
            return false;
        }
        i += 1;
    }
    true
}

/// Lays the 36 symbols of `key` out row by row, naming each by its row id and
/// column id in both cases (digits in upper case only).
pub fn polybius_square(key: &str, column_ids: [char; 6], row_ids: [char; 6]) -> (r: Result<
    PolybiusSquare,
    &'static str,
>)
    ensures
        r is Ok <==> square_accepts(key@, column_ids@, row_ids@),
        r matches Ok(sq) ==> sq.entries_of() == square_entries(key@, column_ids@, row_ids@, 36),
{
    let k = chars_of(key);
    if k.len() != 36 {
        return Err("The key must contain each character of the alphanumeric alphabet a-z 0-9.");
    }
    let mut i: usize = 0;
    while i < 36
        invariant
            k@ == key@,
            k@.len() == 36,
            i <= 36,
            forall|a: int, b: int| 0 <= a < b < 36 && a < i ==> k@[a] != k@[b],
        decreases 36 - i,
    {
        let mut j: usize = i + 1;
        while j < 36
            invariant
                k@ == key@,
                k@.len() == 36,
                i < j <= 36,
                forall|a: int, b: int| 0 <= a < b < 36 && a < i ==> k@[a] != k@[b],
                forall|b: int| i < b < j ==> k@[i as int] != k@[b],
            decreases 36 - j,
        {
            if k[i] == k[j] {
                return Err("The key cannot contain duplicate alphanumeric characters.");
            }
            j += 1;
        }
        i += 1;
    }
    if !ALPHANUMERIC.is_valid(key) {
        return Err("The key cannot contain non-alphanumeric symbols.");
    }
    if !ids_are_letters(&column_ids) || !ids_are_letters(&row_ids) {
        return Err("The column and row ids cannot contain non-alphabetic symbols.");
    }
    if repeats_ignoring_case(&column_ids) || repeats_ignoring_case(&row_ids) {
        return Err("The column or row ids cannot contain repeated characters.");
    }
    let mut entries: Vec<(char, char, char)> = Vec::new();
    let mut p: usize = 0;
    while p < 36
        invariant
            k@ == key@,
            k@.len() == 36,
            column_ids@.len() == 6,
            row_ids@.len() == 6,
            p <= 36,
            entries@ == square_entries(key@, column_ids@, row_ids@, p as nat),
        decreases 36 - p,
    {
        let v = k[p];
        let rid = row_ids[p / 6];
        let cid = column_ids[p % 6];
        if '0' <= v && v <= '9' {
            entries.push((set_case(rid, true), set_case(cid, true), v));
        } else {
            entries.push((set_case(rid, false), set_case(cid, false), set_case(v, false)));
            entries.push((set_case(rid, true), set_case(cid, true), set_case(v, true)));
        }
        assert(entries@ =~= square_entries(key@, column_ids@, row_ids@, (p + 1) as nat));
        p += 1;
    }
    Ok(PolybiusSquare { entries })
}

/// The 25 letters of a Playfair table, in order.
fn playfair_alphabet() -> (r: Vec<char>)
    ensures
        r@ == playfair_letters(),
{
    let mut out: Vec<char> = Vec::new();
    let mut i: usize = 0;
    while i < 26
        invariant
            i <= 26,
            out@.len() == if i <= 9 { i as int } else { i - 1 },
            forall|k: int| 0 <= k < out@.len() ==> #[trigger] out@[k] == playfair_letters()[k],
        decreases 26 - i,
    {
        if i != 9 {
            match get_letter(i, true) {
                Some(l) => out.push(l),
                None => {
                    assert(false);
                },
            }
        }
        i += 1;
    }
    assert(out@ =~= playfair_letters());
    out
}

/// The place of an uppercase letter other than `J` among the Playfair letters.
proof fn lemma_in_playfair_letters(i: nat)
    requires
        i < 26,
        i != 9,
    ensures
        playfair_letters().contains(letter_at(i, true)),
{
    let k = if i < 9 { i as int } else { i - 1 };
    assert(playfair_letters()[k] == letter_at(i, true));
}

/// Every conformed letter is a Playfair letter.
proof fn lemma_conform_in_playfair_letters(c: char)
    requires
        is_letter(c),
    ensures
        playfair_letters().contains(conform(c)),
{
    lemma_index_bound(c);
    crate::alphabet::lemma_letter_round_trip(index_of(c), true);
    if index_of(c) == 9 {
        lemma_in_playfair_letters(8);
        assert(letter_at(8, true) == 'I');
    } else {
        lemma_in_playfair_letters(index_of(c));
        assert(letter_at(index_of(c), true) != 'J');
    }
}

/// Keeping first places gives no repeats and only characters of `s`.
proof fn lemma_first_places(s: Seq<char>, j: nat)
    requires
        j <= s.len(),
    ensures
        first_places(s, j).no_duplicates(),
        forall|x: char| #[trigger] first_places(s, j).contains(x) ==> s.contains(x),
    decreases j,
{
    if j > 0 {
        lemma_first_places(s, (j - 1) as nat);
        let prev = first_places(s, (j - 1) as nat);
        let c = s[j - 1];
        if !prev.contains(c) {
            assert forall|x: char| #[trigger] prev.push(c).contains(x) implies s.contains(x) by {
                if x != c {
                    let t = choose|t: int| 0 <= t < prev.push(c).len() && prev.push(c)[t] == x;
                    assert(t < prev.len());
                    assert(prev[t] == x);
                    assert(prev.contains(x));
                } else {
                    assert(s[j - 1] == c);
                }
            }
        }
    }
}

/// Filling keeps no repeats and only Playfair letters, and adds the first `j`
/// Playfair letters.
proof fn lemma_fill_table(s: Seq<char>, j: nat)
    requires
        j <= 25,
        s.no_duplicates(),
        forall|x: char| #[trigger] s.contains(x) ==> playfair_letters().contains(x),
    ensures
        fill_table(s, j).no_duplicates(),
        forall|x: char| #[trigger] fill_table(s, j).contains(x) ==> playfair_letters().contains(x),
        forall|k: int| 0 <= k < j ==> fill_table(s, j).contains(#[trigger] playfair_letters()[k]),
    decreases j,
{
    if j > 0 {
        lemma_fill_table(s, (j - 1) as nat);
        let prev = fill_table(s, (j - 1) as nat);
        let c = playfair_letters()[j - 1];
        assert(playfair_letters().contains(c));
        assert forall|x: char| #[trigger] fill_table(s, j).contains(x) implies playfair_letters().contains(x) by {
            if x != c {
                let f = fill_table(s, j);
                let t = choose|t: int| 0 <= t < f.len() && f[t] == x;
                if !prev.contains(c) {
                    assert(t < prev.len());
                    assert(prev[t] == x);
                }
                assert(prev.contains(x));
            }
        }
        assert forall|k: int| 0 <= k < j implies fill_table(s, j).contains(#[trigger] playfair_letters()[k]) by {
            if k < j - 1 {
                let x = playfair_letters()[k];
                let t = choose|t: int| 0 <= t < prev.len() && prev[t] == x;
                if !prev.contains(c) {
                    assert(prev.push(c)[t] == x);
                }
            } else {
                if !prev.contains(c) {
                    assert(prev.push(c)[prev.len() as int] == c);
                }
            }
        }
    }
}

/// A Playfair table holds each of the 25 letters once.
proof fn lemma_playfair_order_len(key: Seq<char>)
    requires
        all_letters(key_letters(key)),
    ensures
        playfair_order(key).len() == 25,
{
    let k = key_letters(key).map_values(|c: char| conform(c));
    let base = first_places(k, k.len());
    lemma_first_places(k, k.len());
    assert forall|x: char| #[trigger] base.contains(x) implies playfair_letters().contains(x) by {
        let t = choose|t: int| 0 <= t < k.len() && k[t] == x;
        lemma_conform_in_playfair_letters(key_letters(key)[t]);
    }
    lemma_fill_table(base, 25);
    let table = fill_table(base, 25);
    let p = playfair_letters();
    assert(p.no_duplicates()) by {
        assert forall|a: int, b: int| 0 <= a < 25 && 0 <= b < 25 && a != b implies p[a] != p[b] by {
            let ia: nat = if a < 9 { a as nat } else { (a + 1) as nat };
            let ib: nat = if b < 9 { b as nat } else { (b + 1) as nat };
            crate::alphabet::lemma_letter_round_trip(ia, true);
            crate::alphabet::lemma_letter_round_trip(ib, true);
        }
    }
    assert(table.to_set() =~= p.to_set()) by {
        assert forall|x: char| table.to_set().contains(x) <==> p.to_set().contains(x) by {
            if p.contains(x) {
                let t = choose|t: int| 0 <= t < p.len() && p[t] == x;
                assert(table.contains(p[t]));
            }
        }
    }
    table.unique_seq_to_set();
    p.unique_seq_to_set();
}

} // verus!
