//! The layout model: a flat buffer of binary64 bit patterns together with
//! a row count, a column count and a layout tag, plus the operators that
//! are written generically with respect to the layout.
//!
//! The logical matrix behind a value is `mat()`, a sequence of rows; both
//! layouts encode the same logical matrix, and every operator's contract
//! is stated against `mat()`.

use vstd::prelude::*;
use vstd::arithmetic::div_mod::{lemma_fundamental_div_mod_converse, lemma_mod_multiples_vanish, lemma_small_mod};
use crate::fp::{fadd, fsub, fmul, spec_neg, spec_nearly_eq, add_bits, sub_bits, mul_bits, neg_bits, nearly_eq, ZERO_BITS, ONE_BITS};

verus! {

/// The memory layout of a matrix: row binding or column binding.
#[derive(Debug, PartialEq, Eq, Clone, Copy, Structural)]
pub enum Shape {
    Row,
    Col,
}

/// The opposite layout tag.
pub open spec fn flip(s: Shape) -> Shape {
    match s {
        Shape::Row => Shape::Col,
        Shape::Col => Shape::Row,
    }
}

/// An R-like dense matrix of binary64 values, each carried as its `u64`
/// bit pattern.  The buffer holds `row * col` scalars, laid out by `shape`.
#[derive(Debug, Clone)]
pub struct Matrix {
    pub data: Vec<u64>,
    pub row: usize,
    pub col: usize,
    pub shape: Shape,
}

impl Matrix {
    /// The storage invariant: the flat buffer holds exactly one scalar per
    /// logical position.
    pub open spec fn wf(&self) -> bool {
        self.data.len() == self.row * self.col
    }

    /// Where logical position `(i, j)` lives in the flat buffer.
    pub open spec fn index_of(&self, i: int, j: int) -> int {
        match self.shape {
            Shape::Row => i * self.col + j,
            Shape::Col => i + j * self.row,
        }
    }

    /// The scalar at logical position `(i, j)`.
    pub open spec fn entry(&self, i: int, j: int) -> u64 {
        self.data@[self.index_of(i, j)]
    }

    /// The logical matrix: a sequence of `row` rows of `col` scalars each,
    /// independent of the layout.
    pub open spec fn mat(&self) -> Seq<Seq<u64>> {
        Seq::new(self.row as nat, |i: int| Seq::new(self.col as nat, |j: int| self.entry(i, j)))
    }
}

/// A flat offset `i * c + j` with `i < r`, `j < c` stays below `r * c`.
pub proof fn lemma_flat_bound(i: int, j: int, r: int, c: int)
    by (nonlinear_arith)
    requires
        0 <= i < r,
        0 <= j < c,
    ensures
        0 <= i * c + j < r * c,
        0 <= i + j * r < r * c,
{
}

/// The buffer offset of an in-range logical position is in range.
pub proof fn lemma_index_in_range(m: Matrix, i: int, j: int)
    requires
        m.wf(),
        0 <= i < m.row,
        0 <= j < m.col,
    ensures
        0 <= m.index_of(i, j) < m.data.len(),
{
    lemma_flat_bound(i, j, m.row as int, m.col as int);
    lemma_flat_bound(j, i, m.col as int, m.row as int);
}

/// Recover the logical coordinates from a row-major flat offset.
pub proof fn lemma_flat_unflatten(i: int, j: int, c: int)
    requires
        0 <= i,
        0 <= j < c,
    ensures
        (i * c + j) / c == i,
        (i * c + j) % c == j,
{
    lemma_flat_bound(i, j, i + 1, c);
    lemma_fundamental_div_mod_converse(i * c + j, c, i, j);
}

impl Matrix {
    /// Matrix constructor from a flat buffer, two dimensions and a layout.
    pub fn new(data: Vec<u64>, row: usize, col: usize, shape: Shape) -> (r: Matrix)
        requires
            data@.len() == row * col,
        ensures
            r == (Matrix { data, row, col, shape }),
            r.wf(),
    {
        Matrix { data, row, col, shape }
    }

    /// The scalar at logical position `(i, j)`, whatever the layout.
    pub fn get(&self, i: usize, j: usize) -> (r: u64)
        requires
            self.wf(),
            i < self.row,
            j < self.col,
        ensures
            r == self.mat()[i as int][j as int],
    {
        proof {
            lemma_index_in_range(*self, i as int, j as int);
        }
        match self.shape {
            Shape::Row => self.data[i * self.col + j],
            Shape::Col => self.data[i + j * self.row],
        }
    }
}

impl Matrix {
    /// Build a matrix of the given dimensions and layout, each scalar
    /// produced by `f` from its logical position; the buffer is filled in
    /// the storage order that `shape` dictates.
    pub fn from_fn<F: Fn(usize, usize) -> u64>(row: usize, col: usize, shape: Shape, f: F) -> (r: Matrix)
        requires
            forall|i: usize, j: usize| i < row && j < col ==> call_requires(f, (i, j)),
        ensures
            r.wf(),
            r.row == row,
            r.col == col,
            r.shape == shape,
            forall|i: int, j: int|
                0 <= i < row && 0 <= j < col ==> call_ensures(
                    f,
                    ((i as usize), (j as usize)),
                    #[trigger] r.mat()[i][j],
                ),
    {
        let mut v: Vec<u64> = Vec::new();
        match shape {
            Shape::Row => {
                let mut i: usize = 0;
                while i < row
                    invariant
                        i <= row,
                        v@.len() == i * col,
                        forall|i2: usize, j2: usize| i2 < row && j2 < col ==> call_requires(f, (i2, j2)),
                        forall|t: int|
                            0 <= t < v@.len() ==> call_ensures(
                                f,
                                (((t / (col as int)) as usize), ((t % (col as int)) as usize)),
                                #[trigger] v@[t],
                            ),
                    decreases row - i,
                {
                    let mut j: usize = 0;
                    while j < col
                        invariant
                            i < row,
                            j <= col,
                            v@.len() == i * col + j,
                            forall|i2: usize, j2: usize| i2 < row && j2 < col ==> call_requires(f, (i2, j2)),
                            forall|t: int|
                                0 <= t < v@.len() ==> call_ensures(
                                    f,
                                    (((t / (col as int)) as usize), ((t % (col as int)) as usize)),
                                    #[trigger] v@[t],
                                ),
                        decreases col - j,
                    {
                        v.push(f(i, j));
                        proof {
                            lemma_flat_unflatten(i as int, j as int, col as int);
                        }
                        j += 1;
                    }
                    proof {
                        assert((i + 1) * col == i * col + col) by (nonlinear_arith);
                    }
                    i += 1;
                }
                let r = Matrix { data: v, row, col, shape: Shape::Row };
                proof {
                    assert forall|i: int, j: int| 0 <= i < row && 0 <= j < col implies call_ensures(
                        f,
                        ((i as usize), (j as usize)),
                        #[trigger] r.mat()[i][j],
                    ) by {
                        lemma_index_in_range(r, i, j);
                        lemma_flat_unflatten(i, j, col as int);
                    }
                }
                r
            },
            Shape::Col => {
                let mut j: usize = 0;
                while j < col
                    invariant
                        j <= col,
                        v@.len() == j * row,
                        forall|i2: usize, j2: usize| i2 < row && j2 < col ==> call_requires(f, (i2, j2)),
                        forall|t: int|
                            0 <= t < v@.len() ==> call_ensures(
                                f,
                                (((t % (row as int)) as usize), ((t / (row as int)) as usize)),
                                #[trigger] v@[t],
                            ),
                    decreases col - j,
                {
                    let mut i: usize = 0;
                    while i < row
                        invariant
                            j < col,
                            i <= row,
                            v@.len() == j * row + i,
                            forall|i2: usize, j2: usize| i2 < row && j2 < col ==> call_requires(f, (i2, j2)),
                            forall|t: int|
                                0 <= t < v@.len() ==> call_ensures(
                                    f,
                                    (((t % (row as int)) as usize), ((t / (row as int)) as usize)),
                                    #[trigger] v@[t],
                                ),
                        decreases row - i,
                    {
                        v.push(f(i, j));
                        proof {
                            lemma_flat_unflatten(j as int, i as int, row as int);
                        }
                        i += 1;
                    }
                    proof {
                        assert((j + 1) * row == j * row + row) by (nonlinear_arith);
                    }
                    j += 1;
                }
                proof {
                    assert(col * row == row * col) by (nonlinear_arith);
                }
                let r = Matrix { data: v, row, col, shape: Shape::Col };
                proof {
                    assert forall|i: int, j: int| 0 <= i < row && 0 <= j < col implies call_ensures(
                        f,
                        ((i as usize), (j as usize)),
                        #[trigger] r.mat()[i][j],
                    ) by {
                        lemma_index_in_range(r, i, j);
                        lemma_flat_unflatten(j, i, row as int);
                    }
                }
                r
            },
        }
    }
}

/// The `j`-th column of a logical matrix, as a sequence.
pub open spec fn col_seq(m: Seq<Seq<u64>>, j: int) -> Seq<u64> {
    Seq::new(m.len(), |i: int| m[i][j])
}

/// The diagonal of a logical matrix, as a sequence.
pub open spec fn diag_seq(m: Seq<Seq<u64>>) -> Seq<u64> {
    Seq::new(m.len(), |i: int| m[i][i])
}

/// The index that position `i` reads from when `a` and `b` are exchanged.
pub open spec fn swap_idx(i: int, a: int, b: int) -> int {
    if i == a {
        b
    } else if i == b {
        a
    } else {
        i
    }
}

/// A logical matrix with rows `a` and `b` exchanged.
pub open spec fn swap_rows(m: Seq<Seq<u64>>, a: int, b: int) -> Seq<Seq<u64>> {
    Seq::new(m.len(), |i: int| m[swap_idx(i, a, b)])
}

/// A logical matrix with columns `a` and `b` exchanged.
pub open spec fn swap_cols(m: Seq<Seq<u64>>, a: int, b: int) -> Seq<Seq<u64>> {
    Seq::new(m.len(), |i: int| Seq::new(m[i].len(), |j: int| m[i][swap_idx(j, a, b)]))
}

/// A flat offset `i + j*r` reaches `r*c - 1` only at the last logical
/// position `(r-1, c-1)`.
proof fn lemma_corner(i: int, j: int, r: int, c: int)
    by (nonlinear_arith)
    requires
        0 <= i < r,
        0 <= j < c,
        i + j * r == r * c - 1,
    ensures
        i == r - 1,
        j == c - 1,
{
}

/// The modular remap of the layout converter: multiplying a flat offset
/// `t = i + j*r` by `c` and reducing modulo `r*c - 1` yields `i*c + j`,
/// the offset of the same logical position under the other layout.
proof fn lemma_mod_remap(i: int, j: int, r: int, c: int)
    requires
        0 <= i < r,
        0 <= j < c,
        i + j * r < r * c - 1,
    ensures
        0 <= i * c + j < r * c - 1,
        ((i + j * r) * c) % (r * c - 1) == i * c + j,
{
    let l = r * c - 1;
    let e = i * c + j;
    assert((i + j * r) * c == e + j * l) by (nonlinear_arith)
        requires
            e == i * c + j,
            l == r * c - 1,
    ;
    assert(e <= l) by (nonlinear_arith)
        requires
            e == i * c + j,
            l == r * c - 1,
            0 <= i < r,
            0 <= j < c,
    ;
    if e == l {
        lemma_corner(j, i, c, r);
        assert(i + j * r == r * c - 1) by (nonlinear_arith)
            requires
                i == r - 1,
                j == c - 1,
        ;
        assert(false);
    }
    lemma_mod_multiples_vanish(j, e, l);
    lemma_small_mod(e as nat, l as nat);
}

impl Matrix {
    /// The transpose: the same buffer reread with the dimensions exchanged
    /// and the layout flipped.
    pub fn transpose(&self) -> (r: Matrix)
        requires
            self.wf(),
        ensures
            r.wf(),
            r.row == self.col,
            r.col == self.row,
            r.shape == flip(self.shape),
            forall|i: int, j: int|
                0 <= i < self.col && 0 <= j < self.row ==> #[trigger] r.mat()[i][j]
                    == self.mat()[j][i],
    {
        let rows = self.col;
        let cols = self.row;
        let target = match self.shape {
            Shape::Row => Shape::Col,
            Shape::Col => Shape::Row,
        };
        let m: &Matrix = self;
        let g = move |i: usize, j: usize| -> (v: u64)
            requires
                m.wf(),
                i < m.col,
                j < m.row,
            ensures
                v == m.mat()[j as int][i as int],
            { m.get(j, i) };
        Matrix::from_fn(rows, cols, target, g)
    }

    /// The layout converter: a new matrix with the identical logical
    /// values, the same dimensions and the opposite layout, produced by
    /// the single modular-multiplication reindexing pass.
    pub fn change_shape(&self) -> (r: Matrix)
        requires
            self.wf(),
            1 <= self.row * self.col,
        ensures
            r.wf(),
            r.row == self.row,
            r.col == self.col,
            r.shape == flip(self.shape),
            r.mat() == self.mat(),
    {
        let n = self.data.len();
        let l = n - 1;
        let k = match self.shape {
            Shape::Row => self.col,
            Shape::Col => self.row,
        };
        let mut v: Vec<u64> = Vec::new();
        let mut i: usize = 0;
        while i < l
            invariant
                i <= l,
                l == n - 1,
                n == self.data@.len(),
                n >= 1,
                v@.len() == i,
                k == (match self.shape {
                    Shape::Row => self.col,
                    Shape::Col => self.row,
                }),
                forall|t: int| 0 <= t < i ==> #[trigger] v@[t] == self.data@[(t * k) % (l as int)],
            decreases l - i,
        {
            proof {
                assert((i as int) * (k as int) <= u128::MAX) by (nonlinear_arith)
                    requires
                        0 <= i as int <= u64::MAX,
                        0 <= k as int <= u64::MAX,
                ;
            }
            let s = (((i as u128) * (k as u128)) % (l as u128)) as usize;
            proof {
                assert((i as int * k as int) % (l as int) < l as int) by (nonlinear_arith)
                    requires
                        l as int >= 1,
                        i as int >= 0,
                        k as int >= 0,
                ;
            }
            v.push(self.data[s]);
            i += 1;
        }
        v.push(self.data[l]);
        let target = match self.shape {
            Shape::Row => Shape::Col,
            Shape::Col => Shape::Row,
        };
        let r = Matrix { data: v, row: self.row, col: self.col, shape: target };
        proof {
            lemma_change_shape_values(*self, r);
        }
        r
    }
}

/// The reindexed buffer built by `change_shape` spells out the same
/// logical matrix under the flipped layout.
proof fn lemma_change_shape_values(m: Matrix, r: Matrix)
    requires
        m.wf(),
        1 <= m.row * m.col,
        r.row == m.row,
        r.col == m.col,
        r.shape == flip(m.shape),
        r.data@.len() == m.data@.len(),
        r.data@[m.row * m.col - 1] == m.data@[m.row * m.col - 1],
        forall|t: int|
            0 <= t < m.row * m.col - 1 ==> #[trigger] r.data@[t] == m.data@[(t * (match m.shape {
                Shape::Row => m.col as int,
                Shape::Col => m.row as int,
            })) % (m.row * m.col - 1)],
    ensures
        r.mat() == m.mat(),
{
    let rr = m.row as int;
    let cc = m.col as int;
    let l = rr * cc - 1;
    assert forall|i: int, j: int| 0 <= i < rr && 0 <= j < cc implies #[trigger] r.mat()[i][j]
        == m.mat()[i][j] by {
        lemma_index_in_range(m, i, j);
        lemma_index_in_range(r, i, j);
        match m.shape {
            Shape::Row => {
                // target is column-major: position (i, j) sits at offset i + j*rr
                let t = i + j * rr;
                if t < l {
                    lemma_mod_remap(i, j, rr, cc);
                } else {
                    lemma_corner(i, j, rr, cc);
                    assert(i * cc + j == l) by (nonlinear_arith)
                        requires
                            i == rr - 1,
                            j == cc - 1,
                            l == rr * cc - 1,
                    ;
                }
            },
            Shape::Col => {
                // target is row-major: position (i, j) sits at offset i*cc + j
                let t = i * cc + j;
                if t < l {
                    lemma_mod_remap(j, i, cc, rr);
                } else {
                    lemma_corner(j, i, cc, rr);
                    assert(i + j * rr == l) by (nonlinear_arith)
                        requires
                            i == rr - 1,
                            j == cc - 1,
                            l == rr * cc - 1,
                    ;
                }
            },
        }
    }
    assert(r.mat() =~~= m.mat());
}

/// R-like matrix constructor, as a free function.
pub fn matrix(v: Vec<u64>, x: usize, y: usize, shape: Shape) -> (r: Matrix)
    requires
        v@.len() == x * y,
    ensures
        r == (Matrix { data: v, row: x, col: y, shape }),
        r.wf(),
{
    Matrix { data: v, row: x, col: y, shape }
}

impl Matrix {
    /// Extract row `index` as a flat vector of scalars.
    pub fn row(&self, index: usize) -> (r: Vec<u64>)
        requires
            self.wf(),
            index < self.row,
        ensures
            r@ == self.mat()[index as int],
    {
        let mut v: Vec<u64> = Vec::new();
        let mut j: usize = 0;
        while j < self.col
            invariant
                self.wf(),
                index < self.row,
                j <= self.col,
                v@.len() == j,
                forall|t: int| 0 <= t < j ==> #[trigger] v@[t] == self.mat()[index as int][t],
            decreases self.col - j,
        {
            v.push(self.get(index, j));
            j += 1;
        }
        proof {
            assert(v@ =~= self.mat()[index as int]);
        }
        v
    }

    /// Extract column `index` as a flat vector of scalars.
    pub fn col(&self, index: usize) -> (r: Vec<u64>)
        requires
            self.wf(),
            index < self.col,
        ensures
            r@ == col_seq(self.mat(), index as int),
    {
        let mut v: Vec<u64> = Vec::new();
        let mut i: usize = 0;
        while i < self.row
            invariant
                self.wf(),
                index < self.col,
                i <= self.row,
                v@.len() == i,
                forall|t: int| 0 <= t < i ==> #[trigger] v@[t] == self.mat()[t][index as int],
            decreases self.row - i,
        {
            v.push(self.get(i, index));
            i += 1;
        }
        proof {
            assert(v@ =~= col_seq(self.mat(), index as int));
        }
        v
    }

    /// Extract the diagonal of a square matrix.
    pub fn diag(&self) -> (r: Vec<u64>)
        requires
            self.wf(),
            self.row == self.col,
        ensures
            r@ == diag_seq(self.mat()),
    {
        let mut v: Vec<u64> = Vec::new();
        let mut i: usize = 0;
        while i < self.row
            invariant
                self.wf(),
                self.row == self.col,
                i <= self.row,
                v@.len() == i,
                forall|t: int| 0 <= t < i ==> #[trigger] v@[t] == self.mat()[t][t],
            decreases self.row - i,
        {
            v.push(self.get(i, i));
            i += 1;
        }
        proof {
            assert(v@ =~= diag_seq(self.mat()));
        }
        v
    }

    /// A new matrix with the two indexed rows (or columns) exchanged; the
    /// result is laid out by the `shape` argument.
    pub fn swap(&self, idx1: usize, idx2: usize, shape: Shape) -> (r: Matrix)
        requires
            self.wf(),
            (match shape {
                Shape::Row => idx1 < self.row && idx2 < self.row,
                Shape::Col => idx1 < self.col && idx2 < self.col,
            }),
        ensures
            r.wf(),
            r.row == self.row,
            r.col == self.col,
            r.shape == shape,
            (match shape {
                Shape::Row => r.mat() == swap_rows(self.mat(), idx1 as int, idx2 as int),
                Shape::Col => r.mat() == swap_cols(self.mat(), idx1 as int, idx2 as int),
            }),
    {
        let m: &Matrix = self;
        match shape {
            Shape::Row => {
                let g = |i: usize, j: usize| -> (v: u64)
                    requires
                        m.wf(),
                        i < m.row,
                        j < m.col,
                        idx1 < m.row,
                        idx2 < m.row,
                    ensures
                        v == m.mat()[swap_idx(i as int, idx1 as int, idx2 as int)][j as int],
                    {
                        if i == idx1 {
                            m.get(idx2, j)
                        } else if i == idx2 {
                            m.get(idx1, j)
                        } else {
                            m.get(i, j)
                        }
                    };
                let r = Matrix::from_fn(self.row, self.col, Shape::Row, g);
                proof {
                    assert(r.mat() =~~= swap_rows(self.mat(), idx1 as int, idx2 as int));
                }
                r
            },
            Shape::Col => {
                let g = |i: usize, j: usize| -> (v: u64)
                    requires
                        m.wf(),
                        i < m.row,
                        j < m.col,
                        idx1 < m.col,
                        idx2 < m.col,
                    ensures
                        v == m.mat()[i as int][swap_idx(j as int, idx1 as int, idx2 as int)],
                    {
                        if j == idx1 {
                            m.get(i, idx2)
                        } else if j == idx2 {
                            m.get(i, idx1)
                        } else {
                            m.get(i, j)
                        }
                    };
                let r = Matrix::from_fn(self.row, self.col, Shape::Col, g);
                proof {
                    assert(r.mat() =~~= swap_cols(self.mat(), idx1 as int, idx2 as int));
                }
                r
            },
        }
    }
}

impl Matrix {
    /// An explicit copy: the same buffer, dimensions and layout.
    pub fn dup(&self) -> (r: Matrix)
        requires
            self.wf(),
        ensures
            r.wf(),
            r.row == self.row,
            r.col == self.col,
            r.shape == self.shape,
            r.data@ == self.data@,
            r.mat() == self.mat(),
    {
        let mut v: Vec<u64> = Vec::new();
        let n = self.data.len();
        let mut k: usize = 0;
        while k < n
            invariant
                n == self.data@.len(),
                k <= n,
                v@.len() == k,
                forall|t: int| 0 <= t < k ==> #[trigger] v@[t] == self.data@[t],
            decreases n - k,
        {
            v.push(self.data[k]);
            k += 1;
        }
        proof {
            assert(v@ =~= self.data@);
        }
        let r = Matrix { data: v, row: self.row, col: self.col, shape: self.shape };
        proof {
            assert(r.mat() =~~= self.mat());
        }
        r
    }
}

/// The running inner product of the first `n` pairs of scalars, summed
/// left to right from a zero accumulator, exactly as the cell loop of
/// matrix multiplication computes it.
pub open spec fn spec_dot(a: Seq<u64>, b: Seq<u64>, n: int) -> u64
    decreases n,
{
    if n <= 0 {
        ZERO_BITS
    } else {
        fadd(spec_dot(a, b, n - 1), fmul(a[n - 1], b[n - 1]))
    }
}

/// One cell of a matrix product: row `i` of `a` against column `j` of `b`.
fn dot_cell(a: &Matrix, b: &Matrix, i: usize, j: usize) -> (r: u64)
    requires
        a.wf(),
        b.wf(),
        a.col == b.row,
        i < a.row,
        j < b.col,
    ensures
        r == spec_dot(a.mat()[i as int], col_seq(b.mat(), j as int), a.col as int),
{
    let mut s: u64 = ZERO_BITS;
    let mut t: usize = 0;
    while t < a.col
        invariant
            a.wf(),
            b.wf(),
            a.col == b.row,
            i < a.row,
            j < b.col,
            t <= a.col,
            s == spec_dot(a.mat()[i as int], col_seq(b.mat(), j as int), t as int),
        decreases a.col - t,
    {
        s = add_bits(s, mul_bits(a.get(i, t), b.get(t, j)));
        t += 1;
    }
    s
}

impl Matrix {
    /// Apply a scalar function to every element, preserving the shape and
    /// the layout; the buffer is mapped in place order.
    pub fn fmap<F: Fn(u64) -> u64>(&self, f: F) -> (r: Matrix)
        requires
            self.wf(),
            forall|x: u64| call_requires(f, (x,)),
        ensures
            r.wf(),
            r.row == self.row,
            r.col == self.col,
            r.shape == self.shape,
            forall|t: int|
                0 <= t < self.data@.len() ==> call_ensures(f, (self.data@[t],), #[trigger] r.data@[t]),
            forall|i: int, j: int|
                0 <= i < self.row && 0 <= j < self.col ==> call_ensures(
                    f,
                    (self.mat()[i][j],),
                    #[trigger] r.mat()[i][j],
                ),
    {
        let mut v: Vec<u64> = Vec::new();
        let n = self.data.len();
        let mut k: usize = 0;
        while k < n
            invariant
                n == self.data@.len(),
                k <= n,
                v@.len() == k,
                forall|x: u64| call_requires(f, (x,)),
                forall|t: int| 0 <= t < k ==> call_ensures(f, (self.data@[t],), #[trigger] v@[t]),
            decreases n - k,
        {
            v.push(f(self.data[k]));
            k += 1;
        }
        let r = Matrix { data: v, row: self.row, col: self.col, shape: self.shape };
        proof {
            assert forall|i: int, j: int| 0 <= i < self.row && 0 <= j < self.col implies call_ensures(
                f,
                (self.mat()[i][j],),
                #[trigger] r.mat()[i][j],
            ) by {
                lemma_index_in_range(*self, i, j);
            }
        }
        r
    }

    /// Combine two equally sized matrices element by element; a second
    /// operand of the other layout is converted first, and the result
    /// keeps the layout of `self`.
    pub fn zip_with<F: Fn(u64, u64) -> u64>(&self, f: F, other: &Matrix) -> (r: Matrix)
        requires
            self.wf(),
            other.wf(),
            other.row == self.row,
            other.col == self.col,
            forall|x: u64, y: u64| call_requires(f, (x, y)),
        ensures
            r.wf(),
            r.row == self.row,
            r.col == self.col,
            r.shape == self.shape,
            forall|i: int, j: int|
                0 <= i < self.row && 0 <= j < self.col ==> call_ensures(
                    f,
                    (self.mat()[i][j], other.mat()[i][j]),
                    #[trigger] r.mat()[i][j],
                ),
    {
        if self.row == 0 || self.col == 0 {
            let r = Matrix { data: Vec::new(), row: self.row, col: self.col, shape: self.shape };
            proof {
                assert(r.row * r.col == 0) by (nonlinear_arith)
                    requires
                        r.row == 0 || r.col == 0,
                ;
            }
            return r;
        }
        let conv: Matrix;
        let o: &Matrix = if self.shape != other.shape {
            proof {
                assert(1 <= other.row * other.col) by (nonlinear_arith)
                    requires
                        other.row >= 1,
                        other.col >= 1,
                ;
            }
            conv = other.change_shape();
            &conv
        } else {
            other
        };
        let mut v: Vec<u64> = Vec::new();
        let n = self.data.len();
        let mut k: usize = 0;
        while k < n
            invariant
                n == self.data@.len(),
                o.wf(),
                o.data@.len() == n,
                k <= n,
                v@.len() == k,
                forall|x: u64, y: u64| call_requires(f, (x, y)),
                forall|t: int|
                    0 <= t < k ==> call_ensures(f, (self.data@[t], o.data@[t]), #[trigger] v@[t]),
            decreases n - k,
        {
            v.push(f(self.data[k], o.data[k]));
            k += 1;
        }
        let r = Matrix { data: v, row: self.row, col: self.col, shape: self.shape };
        proof {
            assert forall|i: int, j: int| 0 <= i < self.row && 0 <= j < self.col implies call_ensures(
                f,
                (self.mat()[i][j], other.mat()[i][j]),
                #[trigger] r.mat()[i][j],
            ) by {
                lemma_index_in_range(*self, i, j);
                assert(o.mat()[i][j] == other.mat()[i][j]);
                assert(o.mat()[i][j] == o.data@[self.index_of(i, j)]);
            }
        }
        r
    }

    /// Left fold of a binary scalar function over the buffer in storage
    /// order, from the given start value; the chain of intermediate
    /// accumulators is reported in the contract.
    pub fn reduce<F: Fn(u64, u64) -> u64>(&self, init: u64, f: F) -> (r: u64)
        requires
            forall|x: u64, y: u64| call_requires(f, (x, y)),
        ensures
            (exists|acc: Seq<u64>|
                {
                    &&& acc.len() == self.data@.len() + 1
                    &&& acc[0] == init
                    &&& acc[self.data@.len() as int] == r
                    &&& forall|t: int|
                        0 <= t < self.data@.len() ==> call_ensures(
                            f,
                            (#[trigger] acc[t], self.data@[t]),
                            acc[t + 1],
                        )
                }),
    {
        let mut s = init;
        let ghost mut acc: Seq<u64> = seq![init];
        let n = self.data.len();
        let mut k: usize = 0;
        while k < n
            invariant
                n == self.data@.len(),
                k <= n,
                acc.len() == k + 1,
                acc[0] == init,
                acc[k as int] == s,
                forall|x: u64, y: u64| call_requires(f, (x, y)),
                forall|t: int|
                    0 <= t < k ==> call_ensures(f, (#[trigger] acc[t], self.data@[t]), acc[t + 1]),
            decreases n - k,
        {
            s = f(s, self.data[k]);
            proof {
                acc = acc.push(s);
            }
            k += 1;
        }
        s
    }

    /// Negate every element; the sign bit of each scalar flips.
    pub fn neg(&self) -> (r: Matrix)
        requires
            self.wf(),
        ensures
            r.wf(),
            r.row == self.row,
            r.col == self.col,
            r.shape == self.shape,
            forall|i: int, j: int|
                0 <= i < self.row && 0 <= j < self.col ==> #[trigger] r.mat()[i][j] == spec_neg(
                    self.mat()[i][j],
                ),
    {
        let g = |x: u64| -> (v: u64)
            ensures
                v == spec_neg(x),
            { neg_bits(x) };
        self.fmap(g)
    }

    /// Element-wise sum.  With equal layouts the result keeps that layout;
    /// otherwise `self` is converted first and the result keeps the layout
    /// of `other`.
    pub fn add(&self, other: &Matrix) -> (r: Matrix)
        requires
            self.wf(),
            other.wf(),
            other.row == self.row,
            other.col == self.col,
        ensures
            r.wf(),
            r.row == self.row,
            r.col == self.col,
            r.shape == (if self.shape == other.shape {
                self.shape
            } else {
                other.shape
            }),
            forall|i: int, j: int|
                0 <= i < self.row && 0 <= j < self.col ==> #[trigger] r.mat()[i][j] == fadd(
                    self.mat()[i][j],
                    other.mat()[i][j],
                ),
    {
        let g = |x: u64, y: u64| -> (v: u64)
            ensures
                v == fadd(x, y),
            { add_bits(x, y) };
        if self.shape == other.shape {
            self.zip_with(g, other)
        } else if self.row == 0 || self.col == 0 {
            let r = Matrix { data: Vec::new(), row: self.row, col: self.col, shape: other.shape };
            proof {
                assert(r.row * r.col == 0) by (nonlinear_arith)
                    requires
                        r.row == 0 || r.col == 0,
                ;
            }
            r
        } else {
            proof {
                assert(1 <= self.row * self.col) by (nonlinear_arith)
                    requires
                        self.row >= 1,
                        self.col >= 1,
                ;
            }
            let conv = self.change_shape();
            conv.zip_with(g, other)
        }
    }

    /// Element-wise difference, with the same layout rule as `add`.
    pub fn sub(&self, other: &Matrix) -> (r: Matrix)
        requires
            self.wf(),
            other.wf(),
            other.row == self.row,
            other.col == self.col,
        ensures
            r.wf(),
            r.row == self.row,
            r.col == self.col,
            r.shape == (if self.shape == other.shape {
                self.shape
            } else {
                other.shape
            }),
            forall|i: int, j: int|
                0 <= i < self.row && 0 <= j < self.col ==> #[trigger] r.mat()[i][j] == fsub(
                    self.mat()[i][j],
                    other.mat()[i][j],
                ),
    {
        let g = |x: u64, y: u64| -> (v: u64)
            ensures
                v == fsub(x, y),
            { sub_bits(x, y) };
        if self.shape == other.shape {
            self.zip_with(g, other)
        } else if self.row == 0 || self.col == 0 {
            let r = Matrix { data: Vec::new(), row: self.row, col: self.col, shape: other.shape };
            proof {
                assert(r.row * r.col == 0) by (nonlinear_arith)
                    requires
                        r.row == 0 || r.col == 0,
                ;
            }
            r
        } else {
            proof {
                assert(1 <= self.row * self.col) by (nonlinear_arith)
                    requires
                        self.row >= 1,
                        self.col >= 1,
                ;
            }
            let conv = self.change_shape();
            conv.zip_with(g, other)
        }
    }

    /// Element-wise (Hadamard) product; the result keeps the layout of
    /// `self`.
    pub fn mul(&self, other: &Matrix) -> (r: Matrix)
        requires
            self.wf(),
            other.wf(),
            other.row == self.row,
            other.col == self.col,
        ensures
            r.wf(),
            r.row == self.row,
            r.col == self.col,
            r.shape == self.shape,
            forall|i: int, j: int|
                0 <= i < self.row && 0 <= j < self.col ==> #[trigger] r.mat()[i][j] == fmul(
                    self.mat()[i][j],
                    other.mat()[i][j],
                ),
    {
        let g = |x: u64, y: u64| -> (v: u64)
            ensures
                v == fmul(x, y),
            { mul_bits(x, y) };
        self.zip_with(g, other)
    }

    /// Add one scalar to every element.
    pub fn add_scalar(&self, other: u64) -> (r: Matrix)
        requires
            self.wf(),
        ensures
            r.wf(),
            r.row == self.row,
            r.col == self.col,
            r.shape == self.shape,
            forall|i: int, j: int|
                0 <= i < self.row && 0 <= j < self.col ==> #[trigger] r.mat()[i][j] == fadd(
                    self.mat()[i][j],
                    other,
                ),
    {
        let g = |x: u64| -> (v: u64)
            ensures
                v == fadd(x, other),
            { add_bits(x, other) };
        self.fmap(g)
    }

    /// Subtract one scalar from every element.
    pub fn sub_scalar(&self, other: u64) -> (r: Matrix)
        requires
            self.wf(),
        ensures
            r.wf(),
            r.row == self.row,
            r.col == self.col,
            r.shape == self.shape,
            forall|i: int, j: int|
                0 <= i < self.row && 0 <= j < self.col ==> #[trigger] r.mat()[i][j] == fsub(
                    self.mat()[i][j],
                    other,
                ),
    {
        let g = |x: u64| -> (v: u64)
            ensures
                v == fsub(x, other),
            { sub_bits(x, other) };
        self.fmap(g)
    }

    /// Multiply every element by one scalar.
    pub fn mul_scalar(&self, other: u64) -> (r: Matrix)
        requires
            self.wf(),
        ensures
            r.wf(),
            r.row == self.row,
            r.col == self.col,
            r.shape == self.shape,
            forall|i: int, j: int|
                0 <= i < self.row && 0 <= j < self.col ==> #[trigger] r.mat()[i][j] == fmul(
                    self.mat()[i][j],
                    other,
                ),
    {
        let g = |x: u64| -> (v: u64)
            ensures
                v == fmul(x, other),
            { mul_bits(x, other) };
        self.fmap(g)
    }

    /// Matrix multiplication: each result cell is the running inner
    /// product of a row of `self` with a column of `other`, accumulated
    /// left to right; the result is row-major.
    pub fn rem(&self, other: &Matrix) -> (r: Matrix)
        requires
            self.wf(),
            other.wf(),
            self.col == other.row,
        ensures
            r.wf(),
            r.row == self.row,
            r.col == other.col,
            r.shape == Shape::Row,
            forall|i: int, j: int|
                0 <= i < self.row && 0 <= j < other.col ==> #[trigger] r.mat()[i][j] == spec_dot(
                    self.mat()[i],
                    col_seq(other.mat(), j),
                    self.col as int,
                ),
    {
        let a: &Matrix = self;
        let b: &Matrix = other;
        let g = |i: usize, j: usize| -> (v: u64)
            requires
                a.wf(),
                b.wf(),
                a.col == b.row,
                i < a.row,
                j < b.col,
            ensures
                v == spec_dot(a.mat()[i as int], col_seq(b.mat(), j as int), a.col as int),
            { dot_cell(a, b, i, j) };
        Matrix::from_fn(self.row, other.col, Shape::Row, g)
    }
}

/// The `n` by `n` identity matrix, row-major: ones on the diagonal,
/// zeros elsewhere.
pub fn diag(n: usize) -> (r: Matrix)
    ensures
        r.wf(),
        r.row == n,
        r.col == n,
        r.shape == Shape::Row,
        forall|i: int, j: int|
            0 <= i < n && 0 <= j < n ==> #[trigger] r.mat()[i][j] == (if i == j {
                ONE_BITS
            } else {
                ZERO_BITS
            }),
{
    let g = |i: usize, j: usize| -> (v: u64)
        ensures
            v == (if i == j {
                ONE_BITS
            } else {
                ZERO_BITS
            }),
        {
            if i == j {
                ONE_BITS
            } else {
                ZERO_BITS
            }
        };
    Matrix::from_fn(n, n, Shape::Row, g)
}

/// Near equality of two matrices: equal dimensions, both well formed,
/// and every pair of corresponding logical entries nearly equal; the
/// layouts need not agree.
pub open spec fn spec_matrix_eq(a: Matrix, b: Matrix) -> bool {
    &&& a.row == b.row
    &&& a.col == b.col
    &&& a.wf()
    &&& b.wf()
    &&& forall|i: int, j: int|
        0 <= i < a.row && 0 <= j < a.col ==> spec_nearly_eq(#[trigger] a.mat()[i][j], b.mat()[i][j])
}

impl PartialEq for Matrix {
    /// Matrices compare by near equality of their logical entries, under
    /// equal dimensions; the layout tags need not agree.
    fn eq(&self, other: &Matrix) -> (r: bool) {
        let dl = self.data.len();
        let ol = other.data.len();
        if self.row != other.row || self.col != other.col {
            return false;
        }
        match self.row.checked_mul(self.col) {
            None => false,
            Some(nn) => {
                if dl != nn || ol != nn {
                    false
                } else {
                    let mut i: usize = 0;
                    while i < self.row
                        invariant
                            self.wf(),
                            other.wf(),
                            other.row == self.row,
                            other.col == self.col,
                            i <= self.row,
                            forall|i2: int, j2: int|
                                0 <= i2 < i && 0 <= j2 < self.col ==> spec_nearly_eq(
                                    #[trigger] self.mat()[i2][j2],
                                    other.mat()[i2][j2],
                                ),
                        decreases self.row - i,
                    {
                        let mut j: usize = 0;
                        while j < self.col
                            invariant
                                self.wf(),
                                other.wf(),
                                other.row == self.row,
                                other.col == self.col,
                                i < self.row,
                                j <= self.col,
                                forall|i2: int, j2: int|
                                    0 <= i2 < i && 0 <= j2 < self.col ==> spec_nearly_eq(
                                        #[trigger] self.mat()[i2][j2],
                                        other.mat()[i2][j2],
                                    ),
                                forall|j2: int|
                                    0 <= j2 < j ==> spec_nearly_eq(
                                        #[trigger] self.mat()[i as int][j2],
                                        other.mat()[i as int][j2],
                                    ),
                            decreases self.col - j,
                        {
                            if !nearly_eq(self.get(i, j), other.get(i, j)) {
                                return false;
                            }
                            j += 1;
                        }
                        i += 1;
                    }
                    true
                }
            },
        }
    }
}

impl vstd::std_specs::cmp::PartialEqSpecImpl for Matrix {
    open spec fn obeys_eq_spec() -> bool {
        true
    }

    open spec fn eq_spec(&self, other: &Matrix) -> bool {
        spec_matrix_eq(*self, *other)
    }
}

/// Two well-formed matrices of the same dimensions and layout that spell
/// the same logical matrix hold the same buffer.
pub proof fn lemma_mat_determines_data(a: Matrix, b: Matrix)
    requires
        a.wf(),
        b.wf(),
        a.row == b.row,
        a.col == b.col,
        a.shape == b.shape,
        a.mat() == b.mat(),
    ensures
        a.data@ == b.data@,
{
    let rr = a.row as int;
    let cc = a.col as int;
    assert forall|t: int| 0 <= t < a.data@.len() implies a.data@[t] == b.data@[t] by {
        vstd::arithmetic::div_mod::lemma_fundamental_div_mod(t, cc);
        vstd::arithmetic::div_mod::lemma_fundamental_div_mod(t, rr);
        match a.shape {
            Shape::Row => {
                vstd::arithmetic::div_mod::lemma_mod_bound(t, cc);
                vstd::arithmetic::div_mod::lemma_multiply_divide_lt(t, cc, rr);
                let i = t / cc;
                let j = t % cc;
                assert(i * cc == cc * i) by (nonlinear_arith);
                assert(a.mat()[i][j] == a.data@[t]);
                assert(b.mat()[i][j] == b.data@[t]);
            },
            Shape::Col => {
                vstd::arithmetic::div_mod::lemma_mod_bound(t, rr);
                vstd::arithmetic::div_mod::lemma_multiply_divide_lt(t, rr, cc);
                let i = t % rr;
                let j = t / rr;
                assert(j * rr == rr * j) by (nonlinear_arith);
                assert(a.mat()[i][j] == a.data@[t]);
                assert(b.mat()[i][j] == b.data@[t]);
            },
        }
    }
    assert(a.data@ =~= b.data@);
}

/// Law: converting the layout twice restores the original matrix exactly,
/// buffer, dimensions and layout tag alike.  `m1` is any matrix that
/// `change_shape` may return for `m0`, and `m2` any it may return for `m1`.
pub proof fn lemma_change_shape_round_trip(m0: Matrix, m1: Matrix, m2: Matrix)
    requires
        m0.wf(),
        1 <= m0.row * m0.col,
        m1.wf(),
        m1.row == m0.row,
        m1.col == m0.col,
        m1.shape == flip(m0.shape),
        m1.mat() == m0.mat(),
        m2.wf(),
        m2.row == m1.row,
        m2.col == m1.col,
        m2.shape == flip(m1.shape),
        m2.mat() == m1.mat(),
    ensures
        m2.shape == m0.shape,
        m2.row == m0.row,
        m2.col == m0.col,
        m2.data@ == m0.data@,
{
    lemma_mat_determines_data(m2, m0);
}

} // verus!
