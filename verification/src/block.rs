//! The block partitioner and combiner: a matrix splits into four quadrant
//! sub-matrices at half the smaller dimension, and four quadrants
//! reassemble into one matrix; the recursive triangular inverter is built
//! on this pair.

use vstd::prelude::*;
use crate::matrix::{Matrix, Shape, lemma_mat_determines_data};

verus! {

/// The split point of the block partition: half the smaller dimension.
pub open spec fn half_min(r: int, c: int) -> int {
    if r <= c {
        r / 2
    } else {
        c / 2
    }
}

/// The rectangular window of `m` that starts at `(r0, c0)` and spans
/// `nr` rows and `nc` columns.
pub open spec fn submat(m: Seq<Seq<u64>>, r0: int, c0: int, nr: nat, nc: nat) -> Seq<Seq<u64>> {
    Seq::new(nr, |i: int| Seq::new(nc, |j: int| m[r0 + i][c0 + j]))
}

/// Four quadrants pasted back together: `a` is top-left and `l` by `l`,
/// `b` top-right, `c` bottom-left, `d` bottom-right, in an `rr` by `cc`
/// whole.
pub open spec fn combine_mat(
    a: Seq<Seq<u64>>,
    b: Seq<Seq<u64>>,
    c: Seq<Seq<u64>>,
    d: Seq<Seq<u64>>,
    l: int,
    rr: nat,
    cc: nat,
) -> Seq<Seq<u64>> {
    Seq::new(
        rr,
        |i: int|
            Seq::new(
                cc,
                |j: int|
                    if i < l && j < l {
                        a[i][j]
                    } else if i < l {
                        b[i][j - l]
                    } else if j < l {
                        c[i - l][j]
                    } else {
                        d[i - l][j - l]
                    },
            ),
    )
}

impl Matrix {
    /// Split into four quadrants at `l = min(row, col) / 2`: top-left
    /// `l` by `l`, top-right, bottom-left and bottom-right, each keeping
    /// the layout of the source.
    pub fn block(&self) -> (r: (Matrix, Matrix, Matrix, Matrix))
        requires
            self.wf(),
        ensures
            ({
                let l = half_min(self.row as int, self.col as int);
                &&& r.0.wf() && r.1.wf() && r.2.wf() && r.3.wf()
                &&& r.0.shape == self.shape && r.1.shape == self.shape && r.2.shape == self.shape
                    && r.3.shape == self.shape
                &&& r.0.row == l && r.0.col == l
                &&& r.1.row == l && r.1.col == self.col - l
                &&& r.2.row == self.row - l && r.2.col == l
                &&& r.3.row == self.row - l && r.3.col == self.col - l
                &&& r.0.mat() == submat(self.mat(), 0, 0, l as nat, l as nat)
                &&& r.1.mat() == submat(self.mat(), 0, l, l as nat, (self.col - l) as nat)
                &&& r.2.mat() == submat(self.mat(), l, 0, (self.row - l) as nat, l as nat)
                &&& r.3.mat() == submat(
                    self.mat(),
                    l,
                    l,
                    (self.row - l) as nat,
                    (self.col - l) as nat,
                )
            }),
    {
        let l = if self.row <= self.col {
            self.row / 2
        } else {
            self.col / 2
        };
        let m: &Matrix = self;
        let g1 = |i: usize, j: usize| -> (v: u64)
            requires
                m.wf(),
                l <= m.row,
                l <= m.col,
                i < l,
                j < l,
            ensures
                v == m.mat()[i as int][j as int],
            { m.get(i, j) };
        let g2 = |i: usize, j: usize| -> (v: u64)
            requires
                m.wf(),
                l <= m.col,
                i < l,
                i < m.row,
                j < m.col - l,
            ensures
                v == m.mat()[i as int][l + j as int],
            { m.get(i, l + j) };
        let g3 = |i: usize, j: usize| -> (v: u64)
            requires
                m.wf(),
                l <= m.row,
                i < m.row - l,
                j < l,
                j < m.col,
            ensures
                v == m.mat()[l + i as int][j as int],
            { m.get(l + i, j) };
        let g4 = |i: usize, j: usize| -> (v: u64)
            requires
                m.wf(),
                l <= m.row,
                l <= m.col,
                i < m.row - l,
                j < m.col - l,
            ensures
                v == m.mat()[l + i as int][l + j as int],
            { m.get(l + i, l + j) };
        let m1 = Matrix::from_fn(l, l, self.shape, g1);
        let m2 = Matrix::from_fn(l, self.col - l, self.shape, g2);
        let m3 = Matrix::from_fn(self.row - l, l, self.shape, g3);
        let m4 = Matrix::from_fn(self.row - l, self.col - l, self.shape, g4);
        proof {
            let li = l as int;
            assert(m1.mat() =~~= submat(self.mat(), 0, 0, li as nat, li as nat));
            assert(m2.mat() =~~= submat(self.mat(), 0, li, li as nat, (self.col - li) as nat));
            assert(m3.mat() =~~= submat(self.mat(), li, 0, (self.row - li) as nat, li as nat));
            assert(m4.mat() =~~= submat(
                self.mat(),
                li,
                li,
                (self.row - li) as nat,
                (self.col - li) as nat,
            ));
        }
        (m1, m2, m3, m4)
    }
}

/// Reassemble four quadrants into one matrix: `m1` is the square top-left
/// block, `m2` top-right, `m3` bottom-left, `m4` bottom-right; the whole
/// keeps the layout of `m1`.
pub fn combine(m1: Matrix, m2: Matrix, m3: Matrix, m4: Matrix) -> (r: Matrix)
    requires
        m1.wf(),
        m2.wf(),
        m3.wf(),
        m4.wf(),
        m1.row == m1.col,
        m2.row == m1.row,
        m3.col == m1.col,
        m4.row == m3.row,
        m4.col == m2.col,
        m2.shape == m1.shape,
        m3.shape == m1.shape,
        m4.shape == m1.shape,
        m1.row + m3.row <= usize::MAX,
        m1.col + m2.col <= usize::MAX,
    ensures
        r.wf(),
        r.row == m1.row + m3.row,
        r.col == m1.col + m2.col,
        r.shape == m1.shape,
        r.mat() == combine_mat(
            m1.mat(),
            m2.mat(),
            m3.mat(),
            m4.mat(),
            m1.col as int,
            (m1.row + m3.row) as nat,
            (m1.col + m2.col) as nat,
        ),
{
    let l = m1.col;
    let rr = m1.row + m3.row;
    let cc = m1.col + m2.col;
    let a: &Matrix = &m1;
    let b: &Matrix = &m2;
    let c: &Matrix = &m3;
    let d: &Matrix = &m4;
    let g = |i: usize, j: usize| -> (v: u64)
        requires
            a.wf(),
            b.wf(),
            c.wf(),
            d.wf(),
            a.row == l,
            a.col == l,
            b.row == l,
            c.col == l,
            d.row == c.row,
            d.col == b.col,
            i < l + c.row,
            j < l + b.col,
        ensures
            v == (if i < l && j < l {
                a.mat()[i as int][j as int]
            } else if i < l {
                b.mat()[i as int][j as int - l]
            } else if j < l {
                c.mat()[i as int - l][j as int]
            } else {
                d.mat()[i as int - l][j as int - l]
            }),
        {
            if i < l && j < l {
                a.get(i, j)
            } else if i < l {
                b.get(i, j - l)
            } else if j < l {
                c.get(i - l, j)
            } else {
                d.get(i - l, j - l)
            }
        };
    let r = Matrix::from_fn(rr, cc, m1.shape, g);
    proof {
        assert(r.mat() =~~= combine_mat(
            m1.mat(),
            m2.mat(),
            m3.mat(),
            m4.mat(),
            m1.col as int,
            rr as nat,
            cc as nat,
        ));
    }
    r
}

/// Law: combining the four quadrants of the block partition restores the
/// original matrix exactly, buffer, dimensions and layout tag alike.
/// `q1` through `q4` are any quadruple that `block` may return for `m`,
/// and `r` any matrix that `combine` may return for them.
pub proof fn lemma_block_combine_round_trip(
    m: Matrix,
    q1: Matrix,
    q2: Matrix,
    q3: Matrix,
    q4: Matrix,
    r: Matrix,
)
    requires
        m.wf(),
        ({
            let l = half_min(m.row as int, m.col as int);
            &&& q1.wf() && q2.wf() && q3.wf() && q4.wf()
            &&& q1.shape == m.shape && q2.shape == m.shape && q3.shape == m.shape && q4.shape
                == m.shape
            &&& q1.row == l && q1.col == l
            &&& q2.row == l && q2.col == m.col - l
            &&& q3.row == m.row - l && q3.col == l
            &&& q4.row == m.row - l && q4.col == m.col - l
            &&& q1.mat() == submat(m.mat(), 0, 0, l as nat, l as nat)
            &&& q2.mat() == submat(m.mat(), 0, l, l as nat, (m.col - l) as nat)
            &&& q3.mat() == submat(m.mat(), l, 0, (m.row - l) as nat, l as nat)
            &&& q4.mat() == submat(m.mat(), l, l, (m.row - l) as nat, (m.col - l) as nat)
        }),
        r.wf(),
        r.row == q1.row + q3.row,
        r.col == q1.col + q2.col,
        r.shape == q1.shape,
        r.mat() == combine_mat(
            q1.mat(),
            q2.mat(),
            q3.mat(),
            q4.mat(),
            q1.col as int,
            (q1.row + q3.row) as nat,
            (q1.col + q2.col) as nat,
        ),
    ensures
        r.row == m.row,
        r.col == m.col,
        r.shape == m.shape,
        r.mat() == m.mat(),
        r.data@ == m.data@,
{
    assert(r.mat() =~~= m.mat());
    lemma_mat_determines_data(r, m);
}

} // verus!
