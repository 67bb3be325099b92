//! The linear-algebra subsystem: complete-pivoting LU factorization,
//! determinant, recursive triangular inversion and the general inverse.
//!
//! The pivoted matrix is the source matrix with the recorded row swaps and
//! column swaps applied in order; the factors are pinned by the standard
//! forward-substitution recurrence, written over the named IEEE-754
//! operations exactly as the elimination loops compute it.

use vstd::prelude::*;
use crate::fp::{fadd, fsub, fmul, fdiv, spec_neg, spec_abs, spec_nearly_eq, add_bits, sub_bits, mul_bits, div_bits, neg_bits, abs_bits, nearly_eq, ZERO_BITS, ONE_BITS, NEG_ONE_BITS};
use crate::matrix::{Matrix, Shape, swap_idx, swap_rows, swap_cols, col_seq, diag_seq, spec_dot, lemma_index_in_range, lemma_flat_bound, lemma_flat_unflatten};
use crate::block::{submat, combine_mat, combine};

verus! {

/// An ordered log of swaps, each `(index_a, index_b)` pair recorded in
/// application order.
pub type Perms = Vec<(usize, usize)>;

/// The outcome of a complete-pivoting LU factorization: row swaps `p`,
/// column swaps `q`, the unit lower triangular factor `l` and the upper
/// triangular factor `u`, both row-major.
#[derive(Debug, Clone)]
pub struct PQLU {
    pub p: Perms,
    pub q: Perms,
    pub l: Matrix,
    pub u: Matrix,
}

/// Apply a log of row swaps to a logical matrix, in recorded order.
pub open spec fn apply_row_swaps(m: Seq<Seq<u64>>, ps: Seq<(usize, usize)>) -> Seq<Seq<u64>>
    decreases ps.len(),
{
    if ps.len() == 0 {
        m
    } else {
        swap_rows(
            apply_row_swaps(m, ps.drop_last()),
            ps.last().0 as int,
            ps.last().1 as int,
        )
    }
}

/// Apply a log of column swaps to a logical matrix, in recorded order.
pub open spec fn apply_col_swaps(m: Seq<Seq<u64>>, ps: Seq<(usize, usize)>) -> Seq<Seq<u64>>
    decreases ps.len(),
{
    if ps.len() == 0 {
        m
    } else {
        swap_cols(
            apply_col_swaps(m, ps.drop_last()),
            ps.last().0 as int,
            ps.last().1 as int,
        )
    }
}

/// A well-formed swap log for size `n`: every pair moves a pivot position
/// to a strictly later one, both in range, and the pivot positions appear
/// in strictly increasing order.
pub open spec fn perms_ok(ps: Seq<(usize, usize)>, n: int) -> bool {
    &&& forall|t: int|
        0 <= t < ps.len() ==> ((#[trigger] ps[t]).0 as int) < (ps[t].1 as int) && (
        ps[t].1 as int) < n
    &&& forall|t1: int, t2: int|
        0 <= t1 < t2 < ps.len() ==> ((#[trigger] ps[t1]).0 as int) < ((#[trigger] ps[t2]).0 as int)
}

/// The source matrix with the recorded row swaps and column swaps applied.
pub open spec fn pivoted(m: Seq<Seq<u64>>, p: Seq<(usize, usize)>, q: Seq<(usize, usize)>) -> Seq<
    Seq<u64>,
> {
    apply_col_swaps(apply_row_swaps(m, p), q)
}

/// Complete pivoting, stated of the pivoted matrix: at every elimination
/// step the pivot dominates the whole active sub-matrix in magnitude
/// (sign-cleared bit patterns in unsigned order).
pub open spec fn pivot_maximal(a: Seq<Seq<u64>>, n: int) -> bool {
    forall|k: int, i: int, j: int|
        #![trigger a[i][j], a[k][k]]
        0 <= k < n - 1 && k <= i < n && k <= j < n ==> spec_abs(a[i][j]) <= spec_abs(a[k][k])
}

/// A valid complete-pivoting decomposition of `m`: both swap logs are
/// well formed and the pivoted matrix satisfies the pivot property.
pub open spec fn lu_valid(
    m: Seq<Seq<u64>>,
    n: int,
    p: Seq<(usize, usize)>,
    q: Seq<(usize, usize)>,
) -> bool {
    &&& perms_ok(p, n)
    &&& perms_ok(q, n)
    &&& pivot_maximal(pivoted(m, p, q), n)
}

/// The running sum `Σ_{t<j} L[i][t] * U[t][k]` of the elimination
/// recurrence, accumulated left to right from a zero start.
pub open spec fn usum(a: Seq<Seq<u64>>, i: int, k: int, j: int) -> u64
    decreases i, 0int, j,
{
    if j <= 0 || i < j {
        ZERO_BITS
    } else {
        fadd(usum(a, i, k, j - 1), fmul(lentry(a, i, j - 1), uentry(a, j - 1, k)))
    }
}

/// The upper factor's entry `U[i][k]` for `k >= i`:
/// `A'[i][k] - Σ_{t<i} L[i][t] * U[t][k]`.
pub open spec fn uentry(a: Seq<Seq<u64>>, i: int, k: int) -> u64
    decreases i, 1int, 0int,
{
    fsub(a[i][k], usum(a, i, k, i))
}

/// The running sum `Σ_{t<j} L[k][t] * U[t][i]` of the elimination
/// recurrence for the lower factor.
pub open spec fn lsum(a: Seq<Seq<u64>>, k: int, i: int, j: int) -> u64
    decreases i, 2int, j,
{
    if j <= 0 || i < j {
        ZERO_BITS
    } else {
        fadd(lsum(a, k, i, j - 1), fmul(lentry(a, k, j - 1), uentry(a, j - 1, i)))
    }
}

/// The lower factor's entry `L[k][i]` for `k > i`:
/// `(A'[k][i] - Σ_{t<i} L[k][t] * U[t][i]) / U[i][i]`.
pub open spec fn lentry(a: Seq<Seq<u64>>, k: int, i: int) -> u64
    decreases i, 3int, 0int,
{
    fdiv(fsub(a[k][i], lsum(a, k, i, i)), uentry(a, i, i))
}

/// The full upper triangular factor of the pivoted matrix `a`.
pub open spec fn lu_u_mat(a: Seq<Seq<u64>>, n: nat) -> Seq<Seq<u64>> {
    Seq::new(
        n,
        |i: int| Seq::new(n, |k: int| if k >= i { uentry(a, i, k) } else { ZERO_BITS }),
    )
}

/// The full unit lower triangular factor of the pivoted matrix `a`.
pub open spec fn lu_l_mat(a: Seq<Seq<u64>>, n: nat) -> Seq<Seq<u64>> {
    Seq::new(
        n,
        |k: int| Seq::new(
            n,
            |i: int| if i == k {
                ONE_BITS
            } else if i < k {
                lentry(a, k, i)
            } else {
                ZERO_BITS
            },
        ),
    )
}

/// The first `i` diagonal entries of the upper factor are all clear of
/// the near-zero singularity test.
pub open spec fn lu_ok_upto(a: Seq<Seq<u64>>, i: int) -> bool {
    forall|t: int| 0 <= t < i ==> !spec_nearly_eq(#[trigger] uentry(a, t, t), ZERO_BITS)
}

/// The factorization of `m` aborts: some valid complete-pivoting
/// decomposition runs the recurrence into a near-zero diagonal entry.
pub open spec fn lu_fails(m: Seq<Seq<u64>>, n: int) -> bool {
    exists|p: Seq<(usize, usize)>, q: Seq<(usize, usize)>|
        {
            &&& #[trigger] lu_valid(m, n, p, q)
            &&& exists|i: int|
                0 <= i < n && spec_nearly_eq(#[trigger] uentry(pivoted(m, p, q), i, i), ZERO_BITS)
        }
}

/// A log of column swaps does not change the number of rows.
proof fn lemma_apply_col_swaps_len(m: Seq<Seq<u64>>, q: Seq<(usize, usize)>)
    ensures
        apply_col_swaps(m, q).len() == m.len(),
    decreases q.len(),
{
    if q.len() == 0 {
    } else {
        lemma_apply_col_swaps_len(m, q.drop_last());
    }
}

/// A log of row swaps does not change the number of rows.
proof fn lemma_apply_row_swaps_len(m: Seq<Seq<u64>>, p: Seq<(usize, usize)>)
    ensures
        apply_row_swaps(m, p).len() == m.len(),
    decreases p.len(),
{
    if p.len() == 0 {
    } else {
        lemma_apply_row_swaps_len(m, p.drop_last());
    }
}

/// A row swap commutes with a column swap.
proof fn lemma_swap_rows_cols_commute(m: Seq<Seq<u64>>, a: int, b: int, c: int, d: int)
    requires
        0 <= a < m.len(),
        0 <= b < m.len(),
    ensures
        swap_rows(swap_cols(m, c, d), a, b) == swap_cols(swap_rows(m, a, b), c, d),
{
    let x = swap_rows(swap_cols(m, c, d), a, b);
    let y = swap_cols(swap_rows(m, a, b), c, d);
    assert forall|i: int| 0 <= i < m.len() implies x[i] == y[i] by {
        assert(x[i] =~= y[i]);
    }
    assert(x =~= y);
}

/// A row swap commutes with a whole log of column swaps.
proof fn lemma_row_swap_commutes_col_swaps(
    m: Seq<Seq<u64>>,
    q: Seq<(usize, usize)>,
    a: int,
    b: int,
)
    requires
        0 <= a < m.len(),
        0 <= b < m.len(),
    ensures
        swap_rows(apply_col_swaps(m, q), a, b) == apply_col_swaps(swap_rows(m, a, b), q),
    decreases q.len(),
{
    if q.len() == 0 {
    } else {
        lemma_row_swap_commutes_col_swaps(m, q.drop_last(), a, b);
        lemma_apply_col_swaps_len(m, q.drop_last());
        lemma_swap_rows_cols_commute(
            apply_col_swaps(m, q.drop_last()),
            a,
            b,
            q.last().0 as int,
            q.last().1 as int,
        );
    }
}

/// The complete-pivoting pass: at each step `k`, bring the
/// maximum-magnitude entry of the active sub-matrix to the pivot
/// position, recording the row and column swaps performed.
fn pivot_phase(m: &Matrix) -> (res: (Matrix, Perms, Perms))
    requires
        m.wf(),
        m.row == m.col,
        1 <= m.row,
    ensures
        res.0.wf(),
        res.0.row == m.row,
        res.0.col == m.col,
        perms_ok(res.1@, m.row as int),
        perms_ok(res.2@, m.row as int),
        res.0.mat() == pivoted(m.mat(), res.1@, res.2@),
        pivot_maximal(res.0.mat(), m.row as int),
{
    let n = m.row;
    let mut p: Perms = Vec::new();
    let mut q: Perms = Vec::new();
    let mut c = m.dup();
    let mut k: usize = 0;
    while k + 1 < n
        invariant
            m.wf(),
            m.row == n,
            m.col == n,
            1 <= n,
            c.wf(),
            c.row == n,
            c.col == n,
            k < n,
            perms_ok(p@, n as int),
            perms_ok(q@, n as int),
            forall|t: int| 0 <= t < p@.len() ==> ((#[trigger] p@[t]).0 as int) < k as int,
            forall|t: int| 0 <= t < q@.len() ==> ((#[trigger] q@[t]).0 as int) < k as int,
            c.mat() == pivoted(m.mat(), p@, q@),
            forall|k2: int, i: int, j: int|
                #![trigger c.mat()[i][j], c.mat()[k2][k2]]
                0 <= k2 < k && k2 <= i < n && k2 <= j < n ==> spec_abs(c.mat()[i][j]) <= spec_abs(
                    c.mat()[k2][k2],
                ),
        decreases n - k,
    {
        // scan the active sub-matrix for the maximum-magnitude entry
        let mut bi = k;
        let mut bj = k;
        let mut bb = abs_bits(c.get(k, k));
        let mut i = k;
        while i < n
            invariant
                c.wf(),
                c.row == n,
                c.col == n,
                k < n,
                k <= i <= n,
                k <= bi < n,
                k <= bj < n,
                bb == spec_abs(c.mat()[bi as int][bj as int]),
                forall|i2: int, j2: int|
                    #![trigger c.mat()[i2][j2]]
                    k <= i2 < i && k <= j2 < n ==> spec_abs(c.mat()[i2][j2]) <= bb,
            decreases n - i,
        {
            let mut j = k;
            while j < n
                invariant
                    c.wf(),
                    c.row == n,
                    c.col == n,
                    k < n,
                    k <= i < n,
                    k <= j <= n,
                    k <= bi < n,
                    k <= bj < n,
                    bb == spec_abs(c.mat()[bi as int][bj as int]),
                    forall|i2: int, j2: int|
                        #![trigger c.mat()[i2][j2]]
                        k <= i2 < i && k <= j2 < n ==> spec_abs(c.mat()[i2][j2]) <= bb,
                    forall|j2: int|
                        #![trigger c.mat()[i as int][j2]]
                        k <= j2 < j ==> spec_abs(c.mat()[i as int][j2]) <= bb,
                decreases n - j,
            {
                let t = abs_bits(c.get(i, j));
                if t > bb {
                    bb = t;
                    bi = i;
                    bj = j;
                }
                j += 1;
            }
            i += 1;
        }
        let ghost c0 = c;
        // move the pivot into place, recording the swaps
        if bi != k {
            let c2 = c.swap(k, bi, Shape::Row);
            proof {
                let e = (k, bi);
                assert(p@.push(e).drop_last() =~= p@);
                lemma_apply_row_swaps_len(m.mat(), p@);
                lemma_row_swap_commutes_col_swaps(
                    apply_row_swaps(m.mat(), p@),
                    q@,
                    k as int,
                    bi as int,
                );
            }
            p.push((k, bi));
            c = c2;
        }
        let ghost c1 = c;
        if bj != k {
            let c2 = c.swap(k, bj, Shape::Col);
            proof {
                let e = (k, bj);
                assert(q@.push(e).drop_last() =~= q@);
            }
            q.push((k, bj));
            c = c2;
        }
        proof {
            // relate the new container to the scanned one, pointwise
            if bi == k {
                assert(c1.mat() =~~= swap_rows(c0.mat(), k as int, bi as int));
            }
            if bj == k {
                assert(c.mat() =~~= swap_cols(c1.mat(), k as int, bj as int));
            }
            assert(c.mat() == swap_cols(
                swap_rows(c0.mat(), k as int, bi as int),
                k as int,
                bj as int,
            ));
            let ki = k as int;
            assert forall|k2: int, i2: int, j2: int|
                #![trigger c.mat()[i2][j2], c.mat()[k2][k2]]
                0 <= k2 < k + 1 && k2 <= i2 < n && k2 <= j2 < n implies spec_abs(c.mat()[i2][j2])
                <= spec_abs(c.mat()[k2][k2]) by {
                let si = swap_idx(i2, ki, bi as int);
                let sj = swap_idx(j2, ki, bj as int);
                assert(c.mat()[i2][j2] == c0.mat()[si][sj]);
                assert(c.mat()[k2][k2] == c0.mat()[
                    swap_idx(k2, ki, bi as int)
                ][swap_idx(k2, ki, bj as int)]);
            }
        }
        k += 1;
    }
    (c, p, q)
}

/// A fresh buffer of zero scalars.
fn zero_vec(len: usize) -> (r: Vec<u64>)
    ensures
        r@.len() == len,
        forall|t: int| 0 <= t < len ==> #[trigger] r@[t] == ZERO_BITS,
{
    let mut v: Vec<u64> = Vec::new();
    let mut k: usize = 0;
    while k < len
        invariant
            k <= len,
            v@.len() == k,
            forall|t: int| 0 <= t < k ==> #[trigger] v@[t] == ZERO_BITS,
        decreases len - k,
    {
        v.push(ZERO_BITS);
        k += 1;
    }
    v
}

/// A flat offset other than `i * n + j` decodes to coordinates other
/// than `(i, j)`.
proof fn lemma_flat_unique(t: int, i: int, j: int, n: int)
    requires
        0 <= t,
        1 <= n,
        0 <= i,
        0 <= j < n,
        t != i * n + j,
    ensures
        t / n != i || t % n != j,
{
    if t / n == i && t % n == j {
        vstd::arithmetic::div_mod::lemma_fundamental_div_mod(t, n);
        assert(n * i == i * n) by (nonlinear_arith);
        assert(false);
    }
}

/// The row-major offset of `(i, j)` in an `n` by `n` buffer.
fn flat_idx(i: usize, j: usize, n: usize) -> (r: usize)
    requires
        i < n,
        j < n,
        n * n <= usize::MAX,
    ensures
        r == i * n + j,
        r < n * n,
{
    proof {
        lemma_flat_bound(i as int, j as int, n as int, n as int);
    }
    i * n + j
}

/// The state of the upper factor's buffer midway through elimination:
/// rows before `ur` are final, and in row `ur` the cells before `uk` are;
/// everything else still holds the initial zero.
spec fn u_cell(a: Seq<Seq<u64>>, r_: int, c_: int, ur: int, uk: int) -> u64 {
    if c_ < r_ {
        ZERO_BITS
    } else if r_ < ur || (r_ == ur && c_ < uk) {
        uentry(a, r_, c_)
    } else {
        ZERO_BITS
    }
}

/// The state of the lower factor's buffer midway through elimination: the
/// diagonal is one, everything above it zero; below it, columns before
/// `lc` are final, and in column `lc` the rows before `lr` are.
spec fn l_cell(a: Seq<Seq<u64>>, r_: int, c_: int, lc: int, lr: int) -> u64 {
    if c_ == r_ {
        ONE_BITS
    } else if c_ > r_ {
        ZERO_BITS
    } else if c_ < lc || (c_ == lc && r_ < lr) {
        lentry(a, r_, c_)
    } else {
        ZERO_BITS
    }
}

/// The elimination pass over an already pivoted matrix `c`: compute the
/// unit lower and upper triangular factors by the forward-substitution
/// recurrence, aborting on the first near-zero diagonal entry of the
/// upper factor.
fn factor_phase(c: &Matrix, n: usize) -> (res: Option<(Matrix, Matrix)>)
    requires
        c.wf(),
        c.row == n,
        c.col == n,
        1 <= n,
    ensures
        match res {
            Some(lu) => {
                &&& lu.0.wf() && lu.0.row == n && lu.0.col == n && lu.0.shape == Shape::Row
                &&& lu.1.wf() && lu.1.row == n && lu.1.col == n && lu.1.shape == Shape::Row
                &&& lu.0.mat() == lu_l_mat(c.mat(), n as nat)
                &&& lu.1.mat() == lu_u_mat(c.mat(), n as nat)
                &&& lu_ok_upto(c.mat(), n as int)
            },
            None => exists|i: int|
                0 <= i < n && spec_nearly_eq(#[trigger] uentry(c.mat(), i, i), ZERO_BITS),
        },
{
    let ghost a = c.mat();
    let nn = c.data.len();
    proof {
        assert(nn == n * n);
    }
    let mut u_vec = zero_vec(nn);
    let mut l_vec = zero_vec(nn);
    // unit diagonal of the lower factor
    let mut d: usize = 0;
    while d < n
        invariant
            nn == n * n,
            d <= n,
            1 <= n,
            nn <= usize::MAX,
            l_vec@.len() == nn,
            forall|t: int|
                0 <= t < nn ==> #[trigger] l_vec@[t] == (if t / (n as int) == t % (n as int) && t
                    / (n as int) < d {
                    ONE_BITS
                } else {
                    ZERO_BITS
                }),
        decreases n - d,
    {
        let idx = flat_idx(d, d, n);
        l_vec[idx] = ONE_BITS;
        proof {
            lemma_flat_unflatten(d as int, d as int, n as int);
            assert forall|t: int| 0 <= t < nn implies #[trigger] l_vec@[t] == (if t / (n as int)
                == t % (n as int) && t / (n as int) < d + 1 {
                ONE_BITS
            } else {
                ZERO_BITS
            }) by {
                if t != idx as int {
                    lemma_flat_unique(t, d as int, d as int, n as int);
                }
            }
        }
        d += 1;
    }
    proof {
        assert forall|t: int| 0 <= t < nn implies #[trigger] l_vec@[t] == l_cell(
            a,
            t / (n as int),
            t % (n as int),
            0,
            0,
        ) by {
            vstd::arithmetic::div_mod::lemma_fundamental_div_mod(t, n as int);
            vstd::arithmetic::div_mod::lemma_mod_bound(t, n as int);
            vstd::arithmetic::div_mod::lemma_multiply_divide_lt(t, n as int, n as int);
        }
        assert forall|t: int| 0 <= t < nn implies #[trigger] u_vec@[t] == u_cell(
            a,
            t / (n as int),
            t % (n as int),
            0,
            0,
        ) by {
            vstd::arithmetic::div_mod::lemma_mod_bound(t, n as int);
        }
    }
    let ni = Ghost(n as int);
    let mut i: usize = 0;
    while i < n
        invariant
            c.wf(),
            c.row == n,
            c.col == n,
            1 <= n,
            a == c.mat(),
            nn == n * n,
            nn <= usize::MAX,
            i <= n,
            u_vec@.len() == nn,
            l_vec@.len() == nn,
            forall|t: int|
                0 <= t < nn ==> #[trigger] u_vec@[t] == u_cell(
                    a,
                    t / (n as int),
                    t % (n as int),
                    i as int,
                    i as int,
                ),
            forall|t: int|
                0 <= t < nn ==> #[trigger] l_vec@[t] == l_cell(
                    a,
                    t / (n as int),
                    t % (n as int),
                    i as int,
                    0,
                ),
            lu_ok_upto(a, i as int),
        decreases n - i,
    {
        // row i of the upper factor
        let mut k2: usize = i;
        while k2 < n
            invariant
                c.wf(),
                c.row == n,
                c.col == n,
                1 <= n,
                a == c.mat(),
                nn == n * n,
                nn <= usize::MAX,
                i < n,
                i <= k2 <= n,
                u_vec@.len() == nn,
                l_vec@.len() == nn,
                forall|t: int|
                    0 <= t < nn ==> #[trigger] u_vec@[t] == u_cell(
                        a,
                        t / (n as int),
                        t % (n as int),
                        i as int,
                        k2 as int,
                    ),
                forall|t: int|
                    0 <= t < nn ==> #[trigger] l_vec@[t] == l_cell(
                        a,
                        t / (n as int),
                        t % (n as int),
                        i as int,
                        0,
                    ),
            decreases n - k2,
        {
            let mut s: u64 = ZERO_BITS;
            let mut j: usize = 0;
            while j < i
                invariant
                    c.wf(),
                    c.row == n,
                    c.col == n,
                    a == c.mat(),
                    nn == n * n,
                    nn <= usize::MAX,
                    i < n,
                    i <= k2 < n,
                    j <= i,
                    u_vec@.len() == nn,
                    l_vec@.len() == nn,
                    forall|t: int|
                        0 <= t < nn ==> #[trigger] u_vec@[t] == u_cell(
                            a,
                            t / (n as int),
                            t % (n as int),
                            i as int,
                            k2 as int,
                        ),
                    forall|t: int|
                        0 <= t < nn ==> #[trigger] l_vec@[t] == l_cell(
                            a,
                            t / (n as int),
                            t % (n as int),
                            i as int,
                            0,
                        ),
                    s == usum(a, i as int, k2 as int, j as int),
                decreases i - j,
            {
                let li = flat_idx(i, j, n);
                let ui = flat_idx(j, k2, n);
                proof {
                    lemma_flat_unflatten(i as int, j as int, n as int);
                    lemma_flat_unflatten(j as int, k2 as int, n as int);
                }
                s = add_bits(s, mul_bits(l_vec[li], u_vec[ui]));
                j += 1;
            }
            let val = sub_bits(c.get(i, k2), s);
            let idx = flat_idx(i, k2, n);
            u_vec[idx] = val;
            proof {
                lemma_flat_unflatten(i as int, k2 as int, n as int);
                assert(val == uentry(a, i as int, k2 as int));
                assert forall|t: int| 0 <= t < nn implies #[trigger] u_vec@[t] == u_cell(
                    a,
                    t / (n as int),
                    t % (n as int),
                    i as int,
                    k2 as int + 1,
                ) by {
                    if t != idx as int {
                        lemma_flat_unique(t, i as int, k2 as int, n as int);
                    }
                }
            }
            k2 += 1;
        }
        // singularity check on the fresh diagonal entry
        let idx_d = flat_idx(i, i, n);
        let uii = u_vec[idx_d];
        proof {
            lemma_flat_unflatten(i as int, i as int, n as int);
            assert(uii == uentry(a, i as int, i as int));
        }
        if nearly_eq(uii, ZERO_BITS) {
            return None;
        }
        // column i of the lower factor
        let mut k3: usize = i + 1;
        while k3 < n
            invariant
                c.wf(),
                c.row == n,
                c.col == n,
                1 <= n,
                a == c.mat(),
                nn == n * n,
                nn <= usize::MAX,
                i < n,
                i + 1 <= k3 <= n,
                uii == uentry(a, i as int, i as int),
                u_vec@.len() == nn,
                l_vec@.len() == nn,
                forall|t: int|
                    0 <= t < nn ==> #[trigger] u_vec@[t] == u_cell(
                        a,
                        t / (n as int),
                        t % (n as int),
                        i as int,
                        n as int,
                    ),
                forall|t: int|
                    0 <= t < nn ==> #[trigger] l_vec@[t] == l_cell(
                        a,
                        t / (n as int),
                        t % (n as int),
                        i as int,
                        k3 as int,
                    ),
            decreases n - k3,
        {
            let mut s: u64 = ZERO_BITS;
            let mut j: usize = 0;
            while j < i
                invariant
                    c.wf(),
                    c.row == n,
                    c.col == n,
                    a == c.mat(),
                    nn == n * n,
                    nn <= usize::MAX,
                    i < n,
                    i + 1 <= k3 < n,
                    j <= i,
                    u_vec@.len() == nn,
                    l_vec@.len() == nn,
                    forall|t: int|
                        0 <= t < nn ==> #[trigger] u_vec@[t] == u_cell(
                            a,
                            t / (n as int),
                            t % (n as int),
                            i as int,
                            n as int,
                        ),
                    forall|t: int|
                        0 <= t < nn ==> #[trigger] l_vec@[t] == l_cell(
                            a,
                            t / (n as int),
                            t % (n as int),
                            i as int,
                            k3 as int,
                        ),
                    s == lsum(a, k3 as int, i as int, j as int),
                decreases i - j,
            {
                let li = flat_idx(k3, j, n);
                let ui = flat_idx(j, i, n);
                proof {
                    lemma_flat_unflatten(k3 as int, j as int, n as int);
                    lemma_flat_unflatten(j as int, i as int, n as int);
                }
                s = add_bits(s, mul_bits(l_vec[li], u_vec[ui]));
                j += 1;
            }
            let val = div_bits(sub_bits(c.get(k3, i), s), uii);
            let idx = flat_idx(k3, i, n);
            l_vec[idx] = val;
            proof {
                lemma_flat_unflatten(k3 as int, i as int, n as int);
                assert(val == lentry(a, k3 as int, i as int));
                assert forall|t: int| 0 <= t < nn implies #[trigger] l_vec@[t] == l_cell(
                    a,
                    t / (n as int),
                    t % (n as int),
                    i as int,
                    k3 as int + 1,
                ) by {
                    if t != idx as int {
                        lemma_flat_unique(t, k3 as int, i as int, n as int);
                    }
                }
            }
            k3 += 1;
        }
        proof {
            assert forall|t: int| 0 <= t < nn implies #[trigger] u_vec@[t] == u_cell(
                a,
                t / (n as int),
                t % (n as int),
                i as int + 1,
                i as int + 1,
            ) by {
                vstd::arithmetic::div_mod::lemma_mod_bound(t, n as int);
                vstd::arithmetic::div_mod::lemma_multiply_divide_lt(t, n as int, n as int);
            }
            assert forall|t: int| 0 <= t < nn implies #[trigger] l_vec@[t] == l_cell(
                a,
                t / (n as int),
                t % (n as int),
                i as int + 1,
                0,
            ) by {
                vstd::arithmetic::div_mod::lemma_mod_bound(t, n as int);
                vstd::arithmetic::div_mod::lemma_multiply_divide_lt(t, n as int, n as int);
            }
        }
        i += 1;
    }
    let l = Matrix { data: l_vec, row: n, col: n, shape: Shape::Row };
    let u = Matrix { data: u_vec, row: n, col: n, shape: Shape::Row };
    proof {
        assert forall|r_: int, c_: int| 0 <= r_ < n && 0 <= c_ < n implies #[trigger] u.mat()[r_][c_]
            == lu_u_mat(a, n as nat)[r_][c_] by {
            lemma_index_in_range(u, r_, c_);
            lemma_flat_unflatten(r_, c_, n as int);
            assert(u.mat()[r_][c_] == u_vec@[r_ * (n as int) + c_]);
        }
        assert forall|r_: int, c_: int| 0 <= r_ < n && 0 <= c_ < n implies #[trigger] l.mat()[r_][c_]
            == lu_l_mat(a, n as nat)[r_][c_] by {
            lemma_index_in_range(l, r_, c_);
            lemma_flat_unflatten(r_, c_, n as int);
            assert(l.mat()[r_][c_] == l_vec@[r_ * (n as int) + c_]);
        }
        assert(u.mat() =~~= lu_u_mat(a, n as nat));
        assert(l.mat() =~~= lu_l_mat(a, n as nat));
    }
    Some((l, u))
}

/// The running product of the first `k` diagonal entries of the upper
/// factor of `a`, multiplied left to right from a start of one.
pub open spec fn diag_prod(a: Seq<Seq<u64>>, k: int) -> u64
    decreases k,
{
    if k <= 0 {
        ONE_BITS
    } else {
        fmul(diag_prod(a, k - 1), uentry(a, k - 1, k - 1))
    }
}

/// The sign factor of a swap log: one for an even number of recorded
/// swaps, minus one for an odd number.
pub open spec fn sgn_of(len: int) -> u64 {
    if len % 2 == 0 {
        ONE_BITS
    } else {
        NEG_ONE_BITS
    }
}

/// The determinant that a decomposition yields: the diagonal product of
/// the upper factor times the sign of each swap log.
pub open spec fn det_formula(a: Seq<Seq<u64>>, n: int, np: int, nq: int) -> u64 {
    fmul(fmul(diag_prod(a, n), sgn_of(np)), sgn_of(nq))
}

impl Matrix {
    /// Complete-pivoting LU decomposition: row swaps `p`, column swaps
    /// `q`, a unit lower triangular `l` and an upper triangular `u`, the
    /// latter two pinned by the elimination recurrence over the pivoted
    /// matrix.  Returns nothing when the recurrence runs into a diagonal
    /// entry of `u` that is nearly zero.
    pub fn lu(&self) -> (r: Option<PQLU>)
        requires
            self.wf(),
            self.row == self.col,
            1 <= self.row,
        ensures
            match r {
                Some(pqlu) => {
                    let a = pivoted(self.mat(), pqlu.p@, pqlu.q@);
                    &&& lu_valid(self.mat(), self.row as int, pqlu.p@, pqlu.q@)
                    &&& pqlu.l.wf() && pqlu.l.row == self.row && pqlu.l.col == self.row
                        && pqlu.l.shape == Shape::Row
                    &&& pqlu.u.wf() && pqlu.u.row == self.row && pqlu.u.col == self.row
                        && pqlu.u.shape == Shape::Row
                    &&& pqlu.l.mat() == lu_l_mat(a, self.row as nat)
                    &&& pqlu.u.mat() == lu_u_mat(a, self.row as nat)
                    &&& lu_ok_upto(a, self.row as int)
                },
                None => lu_fails(self.mat(), self.row as int),
            },
    {
        let (c, p, q) = pivot_phase(self);
        match factor_phase(&c, self.row) {
            None => {
                proof {
                    let m = self.mat();
                    let n = self.row as int;
                    assert(lu_valid(m, n, p@, q@));
                }
                None
            },
            Some(lu) => {
                let (l, u) = lu;
                Some(PQLU { p, q, l, u })
            },
        }
    }

    /// The determinant: the diagonal product of the upper factor times
    /// the sign of each recorded swap log, and exactly `+0.0` when the
    /// factorization reports no decomposition.
    pub fn det(&self) -> (r: u64)
        requires
            self.wf(),
            self.row == self.col,
            1 <= self.row,
        ensures
            (lu_fails(self.mat(), self.row as int) && r == ZERO_BITS) || (exists|
                p: Seq<(usize, usize)>,
                q: Seq<(usize, usize)>,
            |
                {
                    &&& #[trigger] lu_valid(self.mat(), self.row as int, p, q)
                    &&& lu_ok_upto(pivoted(self.mat(), p, q), self.row as int)
                    &&& r == det_formula(
                        pivoted(self.mat(), p, q),
                        self.row as int,
                        p.len() as int,
                        q.len() as int,
                    )
                }),
    {
        let n = self.row;
        match self.lu() {
            None => ZERO_BITS,
            Some(pqlu) => {
                let ghost aa = pivoted(self.mat(), pqlu.p@, pqlu.q@);
                let dvec = pqlu.u.diag();
                let mut s: u64 = ONE_BITS;
                let mut t: usize = 0;
                while t < n
                    invariant
                        t <= n,
                        dvec@.len() == n,
                        dvec@ == diag_seq(pqlu.u.mat()),
                        pqlu.u.mat() == lu_u_mat(aa, n as nat),
                        s == diag_prod(aa, t as int),
                    decreases n - t,
                {
                    proof {
                        assert(dvec@[t as int] == uentry(aa, t as int, t as int));
                    }
                    s = mul_bits(s, dvec[t]);
                    t += 1;
                }
                let sp = if pqlu.p.len() % 2 == 0 {
                    ONE_BITS
                } else {
                    NEG_ONE_BITS
                };
                let sq = if pqlu.q.len() % 2 == 0 {
                    ONE_BITS
                } else {
                    NEG_ONE_BITS
                };
                let r = mul_bits(mul_bits(s, sp), sq);
                proof {
                    assert(lu_valid(self.mat(), self.row as int, pqlu.p@, pqlu.q@));
                    assert(r == det_formula(
                        pivoted(self.mat(), pqlu.p@, pqlu.q@),
                        self.row as int,
                        pqlu.p@.len() as int,
                        pqlu.q@.len() as int,
                    ));
                }
                r
            },
        }
    }
}

/// The product of two logical matrices, each cell the running inner
/// product of a row of `x` with a column of `y` over `inner` terms.
pub open spec fn matmul_spec(
    x: Seq<Seq<u64>>,
    y: Seq<Seq<u64>>,
    rows: nat,
    inner: int,
    cols: nat,
) -> Seq<Seq<u64>> {
    Seq::new(rows, |i: int| Seq::new(cols, |j: int| spec_dot(x[i], col_seq(y, j), inner)))
}

/// A logical matrix negated element by element.
pub open spec fn neg_mat(x: Seq<Seq<u64>>) -> Seq<Seq<u64>> {
    Seq::new(x.len(), |i: int| Seq::new(x[i].len(), |j: int| spec_neg(x[i][j])))
}

/// The divide-and-conquer inverse of a unit lower triangular matrix: a
/// single entry is left as it stands, the two-by-two case negates the
/// one sub-diagonal entry, and a larger matrix is split into quadrants,
/// the diagonal quadrants inverted recursively and the bottom-left
/// quadrant rebuilt as `-(inv(A4) · A3 · inv(A1))`.
pub open spec fn inv_l_mat(m: Seq<Seq<u64>>, n: nat) -> Seq<Seq<u64>>
    decreases n,
{
    if n <= 1 {
        m
    } else if n == 2 {
        m.update(1, m[1].update(0, spec_neg(m[1][0])))
    } else {
        let h = (n / 2) as int;
        let m1 = inv_l_mat(submat(m, 0, 0, (n / 2), (n / 2)), (n / 2));
        let m4 = inv_l_mat(submat(m, h, h, ((n - n / 2) as nat), ((n - n / 2) as nat)), ((n - n / 2) as nat));
        let m3 = neg_mat(
            matmul_spec(
                matmul_spec(
                    m4,
                    submat(m, h, 0, ((n - n / 2) as nat), (n / 2)),
                    ((n - n / 2) as nat),
                    (n - h) as int,
                    (n / 2),
                ),
                m1,
                ((n - n / 2) as nat),
                h,
                (n / 2),
            ),
        );
        combine_mat(m1, submat(m, 0, h, (n / 2), ((n - n / 2) as nat)), m3, m4, h, n, n)
    }
}

/// The divide-and-conquer inverse of an upper triangular matrix: a single
/// entry becomes its reciprocal, the two-by-two case uses the closed
/// form, and a larger matrix is split into quadrants, the diagonal
/// quadrants inverted recursively and the top-right quadrant rebuilt as
/// `-(inv(A1) · A2 · inv(A4))`.
pub open spec fn inv_u_mat(m: Seq<Seq<u64>>, n: nat) -> Seq<Seq<u64>>
    decreases n,
{
    if n <= 1 {
        m.update(0, m[0].update(0, fdiv(ONE_BITS, m[0][0])))
    } else if n == 2 {
        m.update(
            0,
            m[0].update(0, fdiv(ONE_BITS, m[0][0])).update(
                1,
                fdiv(spec_neg(m[0][1]), fmul(m[0][0], m[1][1])),
            ),
        ).update(1, m[1].update(1, fdiv(ONE_BITS, m[1][1])))
    } else {
        let h = (n / 2) as int;
        let m1 = inv_u_mat(submat(m, 0, 0, (n / 2), (n / 2)), (n / 2));
        let m4 = inv_u_mat(submat(m, h, h, ((n - n / 2) as nat), ((n - n / 2) as nat)), ((n - n / 2) as nat));
        let m2 = neg_mat(
            matmul_spec(
                matmul_spec(m1, submat(m, 0, h, (n / 2), ((n - n / 2) as nat)), (n / 2), h, ((n - n / 2) as nat)),
                m4,
                (n / 2),
                (n - h) as int,
                ((n - n / 2) as nat),
            ),
        );
        combine_mat(m1, m2, submat(m, h, 0, ((n - n / 2) as nat), (n / 2)), m4, h, n, n)
    }
}

/// Inverse of a unit lower triangular matrix, by recursive block
/// partition; the result is row-major.
pub fn inv_l(l: Matrix) -> (r: Matrix)
    requires
        l.wf(),
        l.row == l.col,
        1 <= l.row,
    ensures
        r.wf(),
        r.row == l.row,
        r.col == l.col,
        r.shape == Shape::Row,
        r.mat() == inv_l_mat(l.mat(), l.row as nat),
    decreases l.row,
{
    let n = l.row;
    let w = match l.shape {
        Shape::Row => l,
        Shape::Col => {
            proof {
                assert(1 <= n * n) by (nonlinear_arith)
                    requires
                        1 <= n,
                ;
            }
            l.change_shape()
        },
    };
    if n == 1 {
        w
    } else if n == 2 {
        let mut v: Vec<u64> = Vec::new();
        v.push(w.get(0, 0));
        v.push(w.get(0, 1));
        v.push(neg_bits(w.get(1, 0)));
        v.push(w.get(1, 1));
        let r = Matrix { data: v, row: 2, col: 2, shape: Shape::Row };
        proof {
            assert(r.row * r.col == 4) by (nonlinear_arith)
                requires
                    r.row == 2,
                    r.col == 2,
            ;
            assert(r.wf());
            assert forall|i: int, j: int| 0 <= i < 2 && 0 <= j < 2 implies #[trigger] r.mat()[i][j]
                == inv_l_mat(w.mat(), 2)[i][j] by {
                assert(r.mat()[i][j] == r.data@[i * 2 + j]);
            }
            assert(r.mat() =~~= inv_l_mat(w.mat(), 2));
            assert(r.mat() == inv_l_mat(l.mat(), l.row as nat));
        }
        r
    } else {
        let (l1, l2, l3, l4) = w.block();
        let h = l1.row;
        let m1 = inv_l(l1);
        let m4 = inv_l(l4);
        let t1 = m4.rem(&l3);
        proof {
            assert(t1.mat() =~~= matmul_spec(
                m4.mat(),
                l3.mat(),
                (n - h) as nat,
                (n - h) as int,
                h as nat,
            ));
        }
        let t2 = t1.rem(&m1);
        proof {
            assert(t2.mat() =~~= matmul_spec(t1.mat(), m1.mat(), (n - h) as nat, h as int, h as nat));
        }
        let m3 = t2.neg();
        proof {
            assert(m3.mat() =~~= neg_mat(t2.mat()));
        }
        let r = combine(m1, l2, m3, m4);
        proof {
            assert(r.mat() == inv_l_mat(w.mat(), n as nat));
        }
        r
    }
}

/// Inverse of an upper triangular matrix, by recursive block partition;
/// the result is row-major.
pub fn inv_u(u: Matrix) -> (r: Matrix)
    requires
        u.wf(),
        u.row == u.col,
        1 <= u.row,
    ensures
        r.wf(),
        r.row == u.row,
        r.col == u.col,
        r.shape == Shape::Row,
        r.mat() == inv_u_mat(u.mat(), u.row as nat),
    decreases u.row,
{
    let n = u.row;
    let w = match u.shape {
        Shape::Row => u,
        Shape::Col => {
            proof {
                assert(1 <= n * n) by (nonlinear_arith)
                    requires
                        1 <= n,
                ;
            }
            u.change_shape()
        },
    };
    if n == 1 {
        let a = w.get(0, 0);
        let mut v: Vec<u64> = Vec::new();
        v.push(div_bits(ONE_BITS, a));
        let r = Matrix { data: v, row: 1, col: 1, shape: Shape::Row };
        proof {
            assert(r.row * r.col == 1) by (nonlinear_arith)
                requires
                    r.row == 1,
                    r.col == 1,
            ;
            assert(r.wf());
            assert(r.mat()[0][0] == r.data@[0]);
            assert(r.mat() =~~= inv_u_mat(w.mat(), 1));
            assert(r.mat() == inv_u_mat(u.mat(), u.row as nat));
        }
        r
    } else if n == 2 {
        let a = w.get(0, 0);
        let b = w.get(0, 1);
        let c = w.get(1, 1);
        let d = mul_bits(a, c);
        let mut v: Vec<u64> = Vec::new();
        v.push(div_bits(ONE_BITS, a));
        v.push(div_bits(neg_bits(b), d));
        v.push(w.get(1, 0));
        v.push(div_bits(ONE_BITS, c));
        let r = Matrix { data: v, row: 2, col: 2, shape: Shape::Row };
        proof {
            assert(r.row * r.col == 4) by (nonlinear_arith)
                requires
                    r.row == 2,
                    r.col == 2,
            ;
            assert(r.wf());
            assert forall|i: int, j: int| 0 <= i < 2 && 0 <= j < 2 implies #[trigger] r.mat()[i][j]
                == inv_u_mat(w.mat(), 2)[i][j] by {
                assert(r.mat()[i][j] == r.data@[i * 2 + j]);
            }
            assert(r.mat() =~~= inv_u_mat(w.mat(), 2));
            assert(r.mat() == inv_u_mat(u.mat(), u.row as nat));
        }
        r
    } else {
        let (u1, u2, u3, u4) = w.block();
        let h = u1.row;
        let m1 = inv_u(u1);
        let m4 = inv_u(u4);
        let t1 = m1.rem(&u2);
        proof {
            assert(t1.mat() =~~= matmul_spec(
                m1.mat(),
                u2.mat(),
                h as nat,
                h as int,
                (n - h) as nat,
            ));
        }
        let t2 = t1.rem(&m4);
        proof {
            assert(t2.mat() =~~= matmul_spec(
                t1.mat(),
                m4.mat(),
                h as nat,
                (n - h) as int,
                (n - h) as nat,
            ));
        }
        let m2 = t2.neg();
        proof {
            assert(m2.mat() =~~= neg_mat(t2.mat()));
        }
        let r = combine(m1, m2, u3, m4);
        proof {
            assert(r.mat() == inv_u_mat(w.mat(), n as nat));
        }
        r
    }
}

impl Matrix {
    /// The general inverse: factor by `lu`, invert the two triangular
    /// factors, multiply them, and undo the pivoting by replaying the
    /// recorded column swaps as row swaps and the recorded row swaps as
    /// column swaps, each log from its last entry back to its first.
    /// Returns nothing exactly when `lu` reports no decomposition.
    pub fn inv(&self) -> (r: Option<Matrix>)
        requires
            self.wf(),
            self.row == self.col,
            1 <= self.row,
        ensures
            match r {
                None => lu_fails(self.mat(), self.row as int),
                Some(m) => exists|p: Seq<(usize, usize)>, q: Seq<(usize, usize)>|
                    {
                        let a = pivoted(self.mat(), p, q);
                        &&& #[trigger] lu_valid(self.mat(), self.row as int, p, q)
                        &&& lu_ok_upto(a, self.row as int)
                        &&& m.wf() && m.row == self.row && m.col == self.col
                        &&& m.mat() == apply_col_swaps(
                            apply_row_swaps(
                                matmul_spec(
                                    inv_u_mat(lu_u_mat(a, self.row as nat), self.row as nat),
                                    inv_l_mat(lu_l_mat(a, self.row as nat), self.row as nat),
                                    self.row as nat,
                                    self.row as int,
                                    self.row as nat,
                                ),
                                q.reverse(),
                            ),
                            p.reverse(),
                        )
                    },
            },
    {
        let n = self.row;
        match self.lu() {
            None => None,
            Some(pqlu) => {
                let PQLU { p, q, l, u } = pqlu;
                let ghost aa = pivoted(self.mat(), p@, q@);
                let iu = inv_u(u);
                let il = inv_l(l);
                let mut m = iu.rem(&il);
                proof {
                    assert(m.mat() =~~= matmul_spec(
                        iu.mat(),
                        il.mat(),
                        n as nat,
                        n as int,
                        n as nat,
                    ));
                }
                let ghost base = m.mat();
                let mut t: usize = q.len();
                while t > 0
                    invariant
                        m.wf(),
                        m.row == n,
                        m.col == n,
                        t <= q@.len(),
                        perms_ok(q@, n as int),
                        m.mat() == apply_row_swaps(base, q@.skip(t as int).reverse()),
                    decreases t,
                {
                    t -= 1;
                    let pair = q[t];
                    proof {
                        let xs = q@.skip(t as int + 1).reverse();
                        let e = q@[t as int];
                        assert(q@.skip(t as int).reverse() =~= xs.push(e));
                        assert(xs.push(e).drop_last() =~= xs);
                    }
                    m = m.swap(pair.0, pair.1, Shape::Row);
                }
                proof {
                    assert(q@.skip(0) =~= q@);
                }
                let ghost base2 = m.mat();
                let mut t2: usize = p.len();
                while t2 > 0
                    invariant
                        m.wf(),
                        m.row == n,
                        m.col == n,
                        t2 <= p@.len(),
                        perms_ok(p@, n as int),
                        m.mat() == apply_col_swaps(base2, p@.skip(t2 as int).reverse()),
                    decreases t2,
                {
                    t2 -= 1;
                    let pair = p[t2];
                    proof {
                        let xs = p@.skip(t2 as int + 1).reverse();
                        let e = p@[t2 as int];
                        assert(p@.skip(t2 as int).reverse() =~= xs.push(e));
                        assert(xs.push(e).drop_last() =~= xs);
                    }
                    m = m.swap(pair.0, pair.1, Shape::Col);
                }
                proof {
                    assert(p@.skip(0) =~= p@);
                    assert(lu_valid(self.mat(), self.row as int, p@, q@));
                }
                Some(m)
            },
        }
    }
}

} // verus!
