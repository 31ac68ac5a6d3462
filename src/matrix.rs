//! Square integer matrices and their determinants and adjugates, with the
//! arithmetic done modulo 26.
use vstd::prelude::*;
use vstd::arithmetic::div_mod::{lemma_add_mod_noop, lemma_mul_mod_noop, lemma_sub_mod_noop};

use crate::alphabet::modulo;

verus! {

/// A matrix of integers, stored row by row.
pub struct Matrix {
    rows: usize,
    cols: usize,
    data: Vec<isize>,
}

impl Matrix {
    #[verifier::type_invariant]
    spec fn fills(&self) -> bool {
        self.data@.len() == self.rows * self.cols
    }
}

/// The rows of `m` as sequences of integers.
pub open spec fn grid(m: Seq<Vec<isize>>) -> Seq<Seq<int>> {
    m.map_values(|r: Vec<isize>| r@.map_values(|x: isize| x as int))
}

/// Whether `g` has as many entries in each row as it has rows.
pub open spec fn is_square(g: Seq<Seq<int>>) -> bool {
    forall|i: int| 0 <= i < g.len() ==> (#[trigger] g[i]).len() == g.len()
}

/// `g` without row `r` and column `c`.
pub open spec fn minor(g: Seq<Seq<int>>, r: int, c: int) -> Seq<Seq<int>> {
    Seq::new(
        (g.len() - 1) as nat,
        |i: int|
            {
                let row = if i < r {
                    g[i]
                } else {
                    g[i + 1]
                };
                Seq::new((row.len() - 1) as nat, |j: int| if j < c { row[j] } else { row[j + 1] })
            },
    )
}

/// `1` for an even `k`, `-1` for an odd one.
pub open spec fn sign(k: int) -> int {
    if k % 2 == 0 {
        1
    } else {
        -1
    }
}

/// The determinant, by expansion along the first row.
pub open spec fn det(g: Seq<Seq<int>>) -> int
    decreases g.len(), g.len() + 1,
{
    if g.len() == 0 {
        1
    } else {
        expansion(g, g.len() as int)
    }
}

/// The first `k` terms of the expansion of the determinant along the first row.
pub open spec fn expansion(g: Seq<Seq<int>>, k: int) -> int
    decreases g.len(), k,
{
    if k <= 0 || g.len() == 0 {
        0
    } else {
        expansion(g, k - 1) + sign(k - 1) * g[0][k - 1] * det(minor(g, 0, k - 1))
    }
}

/// The cofactor of the entry at row `i` and column `j`.
pub open spec fn cofactor(g: Seq<Seq<int>>, i: int, j: int) -> int {
    sign(i + j) * det(minor(g, i, j))
}

impl Matrix {
    /// Number of rows.
    pub closed spec fn num_rows(&self) -> nat {
        self.rows as nat
    }

    /// Number of columns.
    pub closed spec fn num_cols(&self) -> nat {
        self.cols as nat
    }

    /// The entries, row by row.
    pub closed spec fn entries(&self) -> Seq<int> {
        self.data@.map_values(|x: isize| x as int)
    }

    /// The rows as sequences of integers.
    pub open spec fn as_grid(&self) -> Seq<Seq<int>> {
        Seq::new(
            self.num_rows(),
            |i: int| Seq::new(self.num_cols(), |j: int| self.entries()[i * self.num_cols() + j]),
        )
    }

    /// A `rows` by `cols` matrix holding `data` row by row.
    pub fn new(rows: usize, cols: usize, data: Vec<isize>) -> (m: Matrix)
        requires
            data@.len() == rows * cols,
        ensures
            m.num_rows() == rows,
            m.num_cols() == cols,
            m.entries() == data@.map_values(|x: isize| x as int),
    {
        Matrix { rows, cols, data }
    }

    /// Number of rows.
    pub fn rows(&self) -> (r: usize)
        ensures
            r == self.num_rows(),
    {
        self.rows
    }

    /// Number of columns.
    pub fn cols(&self) -> (r: usize)
        ensures
            r == self.num_cols(),
    {
        self.cols
    }

    /// The matrix as a vector of rows.
    pub fn to_rows(&self) -> (r: Vec<Vec<isize>>)
        ensures
            grid(r@) == self.as_grid(),
    {
        proof {
            use_type_invariant(self);
        }
        let len = self.data.len();
        let mut out: Vec<Vec<isize>> = Vec::new();
        let mut i: usize = 0;
        while i < self.rows
            invariant
                len == self.rows * self.cols,
                self.data@.len() == len,
                i <= self.rows,
                out@.len() == i,
                forall|k: int|
                    0 <= k < i ==> (#[trigger] grid(out@)[k]) == self.as_grid()[k],
            decreases self.rows - i,
        {
            let mut row: Vec<isize> = Vec::new();
            let mut j: usize = 0;
            proof {
                vstd::arithmetic::mul::lemma_mul_is_distributive_add_other_way(
                    self.cols as int,
                    i as int,
                    1,
                );
                vstd::arithmetic::mul::lemma_mul_inequality(i as int + 1, self.rows as int, self.cols as int);
            }
            while j < self.cols
                invariant
                        len == self.rows * self.cols,
                    self.data@.len() == len,
                    i < self.rows,
                    j <= self.cols,
                    (i + 1) * self.cols <= self.rows * self.cols,
                    (i + 1) * self.cols == i * self.cols + self.cols,
                    row@.len() == j,
                    forall|t: int| 0 <= t < j ==> row@[t] == self.data@[i * self.cols + t],
                decreases self.cols - j,
            {
                row.push(self.data[i * self.cols + j]);
                j += 1;
            }
            let ghost prev = grid(out@);
            let ghost ri = row@.map_values(|x: isize| x as int);
            proof {
                assert(ri =~= self.as_grid()[i as int]);
            }
            out.push(row);
            proof {
                assert(grid(out@) =~= prev.push(ri));
            }
            i += 1;
        }
        proof {
            assert(grid(out@) =~= self.as_grid());
        }
        out
    }
}

/// `a * b` reduced into `0..26`, for `a` and `b` in `0..26`.
proof fn lemma_small_product(a: int, b: int)
    requires
        0 <= a < 26,
        0 <= b < 26,
    ensures
        0 <= a * b < 676,
{
    assert(0 <= a * b < 676) by (nonlinear_arith)
        requires
            0 <= a < 26,
            0 <= b < 26,
    ;
}

/// One step of a sum taken modulo 26.
pub(crate) proof fn lemma_mod_step(acc: int, x: int, d: int, s: int)
    requires
        s == 1 || s == -1,
    ensures
        (acc + s * x * d) % 26 == if s == 1 {
            (acc % 26 + ((x % 26) * (d % 26)) % 26) % 26
        } else {
            (acc % 26 + 26 - ((x % 26) * (d % 26)) % 26) % 26
        },
{
    lemma_mul_mod_noop(x, d, 26);
    let t = (x % 26) * (d % 26);
    assert((x * d) % 26 == t % 26);
    if s == 1 {
        assert(s * x * d == x * d) by (nonlinear_arith)
            requires
                s == 1,
        ;
        lemma_add_mod_noop(acc, x * d, 26);
        lemma_add_mod_noop(acc % 26, t, 26);
        vstd::arithmetic::div_mod::lemma_mod_twice(acc, 26);
        vstd::arithmetic::div_mod::lemma_mod_twice(t, 26);
        lemma_add_mod_noop(acc % 26, t % 26, 26);
    } else {
        assert(s * x * d == -(x * d)) by (nonlinear_arith)
            requires
                s == -1,
        ;
        lemma_sub_mod_noop(acc, x * d, 26);
        vstd::arithmetic::div_mod::lemma_mod_twice(acc, 26);
        vstd::arithmetic::div_mod::lemma_mod_twice(t, 26);
        lemma_sub_mod_noop(acc % 26, t % 26, 26);
        vstd::arithmetic::div_mod::lemma_mod_add_multiples_vanish(acc % 26 - t % 26, 26);
    }
}

/// The matrix `g` without row `r` and column `c`.
pub(crate) fn minor_of(g: &Vec<Vec<isize>>, r: usize, c: usize) -> (out: Vec<Vec<isize>>)
    requires
        is_square(grid(g@)),
        r < g@.len(),
        c < g@.len(),
    ensures
        grid(out@) == minor(grid(g@), r as int, c as int),
        is_square(grid(out@)),
{
    let ghost gg = grid(g@);
    let n = g.len();
    let mut out: Vec<Vec<isize>> = Vec::new();
    let mut i: usize = 0;
    while i < n
        invariant
            n == g@.len(),
            gg == grid(g@),
            is_square(gg),
            r < n,
            c < n,
            i <= n,
            out@.len() == if i <= r { i as int } else { i - 1 },
            forall|k: int|
                0 <= k < out@.len() ==> (#[trigger] grid(out@)[k]) == minor(gg, r as int, c as int)[k],
        decreases n - i,
    {
        if i != r {
            let src = &g[i];
            assert(gg[i as int].len() == n);
            let mut row: Vec<isize> = Vec::new();
            let mut j: usize = 0;
            while j < n
                invariant
                    n == g@.len(),
                    src@.len() == n,
                    c < n,
                    j <= n,
                    row@.len() == if j <= c { j as int } else { j - 1 },
                    forall|t: int|
                        0 <= t < row@.len() ==> row@[t] == if t < c { src@[t] } else { src@[t + 1] },
                decreases n - j,
            {
                if j != c {
                    row.push(src[j]);
                }
                j += 1;
            }
            let ghost prev = grid(out@);
            let ghost ri = row@.map_values(|x: isize| x as int);
            proof {
                let k = out@.len() as int;
                assert(ri =~= minor(gg, r as int, c as int)[k]);
            }
            out.push(row);
            proof {
                assert(grid(out@) =~= prev.push(ri));
            }
        }
        i += 1;
    }
    proof {
        assert(grid(out@) =~= minor(gg, r as int, c as int));
    }
    out
}

/// The determinant of `g`, reduced into `0..26`.
pub fn det_mod26(g: &Vec<Vec<isize>>) -> (d: usize)
    requires
        is_square(grid(g@)),
    ensures
        d as int == det(grid(g@)) % 26,
        d < 26,
    decreases g@.len(),
{
    let ghost gg = grid(g@);
    let n = g.len();
    if n == 0 {
        return 1;
    }
    let mut acc: usize = 0;
    let mut j: usize = 0;
    while j < n
        invariant
            n == g@.len(),
            n > 0,
            gg == grid(g@),
            is_square(gg),
            j <= n,
            acc < 26,
            acc as int == expansion(gg, j as int) % 26,
        decreases n - j,
    {
        let sub = minor_of(g, 0, j);
        assert(sub@.len() == n - 1) by {
            assert(grid(sub@).len() == sub@.len());
        }
        let d = det_mod26(&sub);
        assert(g@[0]@.len() == n) by {
            assert(gg[0].len() == n);
        }
        let x = modulo(g[0][j]);
        proof {
            lemma_small_product(x as int, d as int);
        }
        let t = (x * d) % 26;
        proof {
            assert(gg[0][j as int] == g@[0]@[j as int] as int);
            vstd::arithmetic::div_mod::lemma_mod_twice(det(minor(gg, 0, j as int)), 26);
            lemma_mod_step(
                expansion(gg, j as int),
                gg[0][j as int],
                det(minor(gg, 0, j as int)),
                sign(j as int),
            );
        }
        if j % 2 == 0 {
            acc = (acc + t) % 26;
        } else {
            acc = (acc + 26 - t) % 26;
        }
        j += 1;
    }
    acc
}

} // verus!
