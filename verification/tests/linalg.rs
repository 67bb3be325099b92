use peroxide_core::matrix::{diag, Matrix, Shape};
use peroxide_core::{inv_l, inv_u};

fn mat_of(v: Vec<f64>, r: usize, c: usize, s: Shape) -> Matrix {
    let bits: Vec<u64> = v.into_iter().map(f64::to_bits).collect();
    Matrix::new(bits, r, c, s)
}

fn at(m: &Matrix, i: usize, j: usize) -> f64 {
    f64::from_bits(m.get(i, j))
}

#[test]
fn lu_two_by_two() {
    let a = mat_of(vec![1.0, 2.0, 3.0, 4.0], 2, 2, Shape::Row);
    let pqlu = a.lu().unwrap();
    assert_eq!(pqlu.p, vec![(0, 1)]);
    assert_eq!(pqlu.q, vec![(0, 1)]);
    assert_eq!(pqlu.l, mat_of(vec![1.0, 0.0, 0.5, 1.0], 2, 2, Shape::Row));
    assert_eq!(pqlu.u, mat_of(vec![4.0, 3.0, 0.0, -0.5], 2, 2, Shape::Row));
}

#[test]
fn lu_reconstruction_three_by_three() {
    // applying the recorded permutations to the source reproduces l * u
    let a = mat_of(
        vec![2.0, 1.0, 1.0, 4.0, -6.0, 0.0, -2.0, 7.0, 2.0],
        3,
        3,
        Shape::Row,
    );
    let pqlu = a.lu().unwrap();
    let mut pivoted = a.clone();
    for (x, y) in pqlu.p.iter() {
        pivoted = pivoted.swap(*x, *y, Shape::Row);
    }
    for (x, y) in pqlu.q.iter() {
        pivoted = pivoted.swap(*x, *y, Shape::Col);
    }
    let product = pqlu.l.rem(&pqlu.u);
    assert_eq!(product, pivoted);
}

#[test]
fn lu_reconstruction_two_by_two() {
    let a = mat_of(vec![1.0, 2.0, 3.0, 4.0], 2, 2, Shape::Row);
    let pqlu = a.lu().unwrap();
    let mut pivoted = a.clone();
    for (x, y) in pqlu.p.iter() {
        pivoted = pivoted.swap(*x, *y, Shape::Row);
    }
    for (x, y) in pqlu.q.iter() {
        pivoted = pivoted.swap(*x, *y, Shape::Col);
    }
    assert_eq!(pqlu.l.rem(&pqlu.u), pivoted);
}

#[test]
fn det_two_by_two() {
    let a = mat_of(vec![1.0, 2.0, 3.0, 4.0], 2, 2, Shape::Row);
    assert_eq!(f64::from_bits(a.det()), -2.0);
}

#[test]
fn det_identity_is_one() {
    assert_eq!(f64::from_bits(diag(3).det()), 1.0);
    assert_eq!(f64::from_bits(diag(1).det()), 1.0);
}

#[test]
fn det_single_entry() {
    let a = mat_of(vec![5.0], 1, 1, Shape::Row);
    assert_eq!(f64::from_bits(a.det()), 5.0);
}

#[test]
fn det_singular_is_zero() {
    // rank-deficient: every 3x3 with rows in arithmetic progression
    let a = mat_of(
        vec![1.0, 2.0, 3.0, 4.0, 5.0, 6.0, 7.0, 8.0, 9.0],
        3,
        3,
        Shape::Row,
    );
    assert!(a.lu().is_none());
    assert_eq!(f64::from_bits(a.det()), 0.0);
    assert!(a.inv().is_none());
}

#[test]
fn det_sign_flips_on_row_swap() {
    let a = mat_of(
        vec![2.0, 1.0, 1.0, 1.0, 3.0, 2.0, 1.0, 0.0, 0.0],
        3,
        3,
        Shape::Row,
    );
    let b = a.swap(0, 1, Shape::Row);
    let da = f64::from_bits(a.det());
    let db = f64::from_bits(b.det());
    assert!(da != 0.0);
    assert!((da + db).abs() < 1e-9);
}

#[test]
fn inverse_two_by_two() {
    let a = mat_of(vec![1.0, 2.0, 3.0, 4.0], 2, 2, Shape::Row);
    let inv = a.inv().unwrap();
    assert_eq!(at(&inv, 0, 0), -2.0);
    assert_eq!(at(&inv, 0, 1), 1.0);
    assert_eq!(at(&inv, 1, 0), 1.5);
    assert_eq!(at(&inv, 1, 1), -0.5);
}

#[test]
fn inverse_identity_two_by_two() {
    let a = mat_of(vec![1.0, 2.0, 3.0, 4.0], 2, 2, Shape::Row);
    let inv = a.inv().unwrap();
    assert_eq!(a.rem(&inv), diag(2));
}

#[test]
fn inverse_identity_three_by_three() {
    let a = mat_of(
        vec![2.0, 1.0, 1.0, 1.0, 3.0, 2.0, 1.0, 0.0, 0.0],
        3,
        3,
        Shape::Row,
    );
    let inv = a.inv().unwrap();
    assert_eq!(a.rem(&inv), diag(3));
    assert_eq!(inv.rem(&a), diag(3));
}

#[test]
fn inverse_identity_four_by_four() {
    let a = mat_of(
        vec![
            4.0, 1.0, 0.0, 2.0, 1.0, 3.0, 1.0, 0.0, 0.0, 1.0, 5.0, 1.0, 2.0, 0.0, 1.0, 6.0,
        ],
        4,
        4,
        Shape::Row,
    );
    let inv = a.inv().unwrap();
    assert_eq!(a.rem(&inv), diag(4));
}

#[test]
fn inv_lower_triangular() {
    let a = mat_of(vec![1.0, 0.0, 2.0, 1.0], 2, 2, Shape::Row);
    assert_eq!(inv_l(a), mat_of(vec![1.0, 0.0, -2.0, 1.0], 2, 2, Shape::Row));

    let b = mat_of(
        vec![1.0, 0.0, 0.0, 2.0, 1.0, 0.0, 4.0, 3.0, 1.0],
        3,
        3,
        Shape::Row,
    );
    assert_eq!(
        inv_l(b),
        mat_of(vec![1.0, 0.0, 0.0, -2.0, 1.0, 0.0, 2.0, -3.0, 1.0], 3, 3, Shape::Row),
    );
}

#[test]
fn inv_upper_triangular() {
    let u = mat_of(vec![2.0, 2.0, 0.0, 1.0], 2, 2, Shape::Row);
    assert_eq!(inv_u(u), mat_of(vec![0.5, -1.0, 0.0, 1.0], 2, 2, Shape::Row));

    let w = mat_of(vec![4.0], 1, 1, Shape::Row);
    assert_eq!(at(&inv_u(w), 0, 0), 0.25);
}

#[test]
fn inv_triangular_from_column_major() {
    // a column-major lower-triangular input is converted, not misread
    let a = mat_of(vec![1.0, 2.0, 0.0, 1.0], 2, 2, Shape::Col);
    // logically [[1,0],[2,1]]
    let r = inv_l(a);
    assert_eq!(r, mat_of(vec![1.0, 0.0, -2.0, 1.0], 2, 2, Shape::Row));
}

#[test]
fn lu_of_column_major_source() {
    let a = mat_of(vec![1.0, 3.0, 2.0, 4.0], 2, 2, Shape::Col);
    // logically [[1,2],[3,4]], the same factorization as row-major
    let pqlu = a.lu().unwrap();
    assert_eq!(pqlu.p, vec![(0, 1)]);
    assert_eq!(pqlu.q, vec![(0, 1)]);
    assert_eq!(pqlu.l, mat_of(vec![1.0, 0.0, 0.5, 1.0], 2, 2, Shape::Row));
    assert_eq!(pqlu.u, mat_of(vec![4.0, 3.0, 0.0, -0.5], 2, 2, Shape::Row));
}

#[test]
fn pivot_picks_largest_magnitude() {
    // the entry of largest magnitude is negative; magnitude wins
    let a = mat_of(vec![1.0, -8.0, 2.0, 3.0], 2, 2, Shape::Row);
    let pqlu = a.lu().unwrap();
    // |-8| at row 0, column 1: only a column swap is recorded
    assert_eq!(pqlu.p, Vec::<(usize, usize)>::new());
    assert_eq!(pqlu.q, vec![(0, 1)]);
    assert_eq!(at(&pqlu.u, 0, 0), -8.0);
}

#[test]
fn inverse_of_single_entry() {
    let a = mat_of(vec![5.0], 1, 1, Shape::Row);
    let inv = a.inv().unwrap();
    assert_eq!(at(&inv, 0, 0), 0.2);
}

#[test]
fn inverse_identity_five_by_five() {
    let a = mat_of(
        vec![
            7.0, 1.0, 0.0, 2.0, 1.0, 1.0, 6.0, 1.0, 0.0, 2.0, 0.0, 1.0, 8.0, 1.0, 0.0, 2.0, 0.0,
            1.0, 9.0, 1.0, 1.0, 2.0, 0.0, 1.0, 7.0,
        ],
        5,
        5,
        Shape::Row,
    );
    let inv = a.inv().unwrap();
    assert_eq!(a.rem(&inv), diag(5));
    assert_eq!(inv.rem(&a), diag(5));
}

#[test]
fn zero_single_entry_is_singular() {
    let a = mat_of(vec![0.0], 1, 1, Shape::Row);
    assert!(a.lu().is_none());
    assert_eq!(f64::from_bits(a.det()), 0.0);
    assert!(a.inv().is_none());
}
