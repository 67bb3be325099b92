use peroxide_core::matrix::{diag, matrix, Matrix, Shape};
use peroxide_core::util::{choose_longer_vec, choose_shorter_string, choose_shorter_vec, quot_rem, tab};
use peroxide_core::fp;

fn mk(v: Vec<f64>, r: usize, c: usize, s: Shape) -> Matrix {
    let bits: Vec<u64> = v.into_iter().map(f64::to_bits).collect();
    Matrix::new(bits, r, c, s)
}

fn getf(m: &Matrix, i: usize, j: usize) -> f64 {
    f64::from_bits(m.get(i, j))
}

#[test]
fn shared_buffer_two_layouts() {
    // the same flat buffer read under each layout
    let a = mk(vec![1.0, 2.0, 3.0, 4.0], 2, 2, Shape::Row);
    let b = mk(vec![1.0, 2.0, 3.0, 4.0], 2, 2, Shape::Col);
    assert_eq!(a.data, b.data);
    assert_eq!(getf(&a, 0, 0), 1.0);
    assert_eq!(getf(&a, 0, 1), 2.0);
    assert_eq!(getf(&a, 1, 0), 3.0);
    assert_eq!(getf(&a, 1, 1), 4.0);
    assert_eq!(getf(&b, 0, 0), 1.0);
    assert_eq!(getf(&b, 0, 1), 3.0);
    assert_eq!(getf(&b, 1, 0), 2.0);
    assert_eq!(getf(&b, 1, 1), 4.0);
}

#[test]
fn change_shape_keeps_values() {
    let a = mk(vec![1.0, 2.0, 3.0, 4.0], 2, 2, Shape::Row);
    let b = a.change_shape();
    assert!(matches!(b.shape, Shape::Col));
    for i in 0..2 {
        for j in 0..2 {
            assert_eq!(getf(&a, i, j), getf(&b, i, j));
        }
    }
    // the column-major buffer spells out the columns
    assert_eq!(b.data, vec![1.0f64.to_bits(), 3.0f64.to_bits(), 2.0f64.to_bits(), 4.0f64.to_bits()]);
}

#[test]
fn change_shape_round_trip_rectangular() {
    let v: Vec<f64> = (1..=12).map(|x| x as f64).collect();
    let a = mk(v, 3, 4, Shape::Row);
    let b = a.change_shape().change_shape();
    assert!(matches!(b.shape, Shape::Row));
    assert_eq!(a.data, b.data);
}

#[test]
fn change_shape_round_trip_noncoprime_dims() {
    // dimensions with a common factor exercise the modular remap fully
    let v: Vec<f64> = (1..=24).map(|x| x as f64 * 0.5).collect();
    let a = mk(v, 4, 6, Shape::Col);
    let b = a.change_shape().change_shape();
    assert!(matches!(b.shape, Shape::Col));
    assert_eq!(a.data, b.data);

    let w: Vec<f64> = (1..=18).map(|x| x as f64 - 9.5).collect();
    let c = mk(w, 6, 3, Shape::Row);
    let d = c.change_shape().change_shape();
    assert!(matches!(d.shape, Shape::Row));
    assert_eq!(c.data, d.data);
}

#[test]
fn transpose_swaps_indices() {
    let a = mk(vec![1.0, 2.0, 3.0, 4.0, 5.0, 6.0], 2, 3, Shape::Row);
    let t = a.transpose();
    assert_eq!(t.row, 3);
    assert_eq!(t.col, 2);
    for i in 0..3 {
        for j in 0..2 {
            assert_eq!(getf(&t, i, j), getf(&a, j, i));
        }
    }
}

#[test]
fn row_col_diag_extract() {
    let a = mk(vec![1.0, 2.0, 3.0, 4.0], 2, 2, Shape::Row);
    let r0: Vec<f64> = a.row(0).into_iter().map(f64::from_bits).collect();
    assert_eq!(r0, vec![1.0, 2.0]);
    let c0: Vec<f64> = a.col(0).into_iter().map(f64::from_bits).collect();
    assert_eq!(c0, vec![1.0, 3.0]);
    let d: Vec<f64> = a.diag().into_iter().map(f64::from_bits).collect();
    assert_eq!(d, vec![1.0, 4.0]);

    let b = mk(vec![1.0, 2.0, 3.0, 4.0], 2, 2, Shape::Col);
    let r0b: Vec<f64> = b.row(0).into_iter().map(f64::from_bits).collect();
    assert_eq!(r0b, vec![1.0, 3.0]);
}

#[test]
fn swap_rows_and_cols() {
    let a = mk(vec![1.0, 2.0, 3.0, 4.0], 2, 2, Shape::Row);
    let sr = a.swap(0, 1, Shape::Row);
    assert_eq!(sr, mk(vec![3.0, 4.0, 1.0, 2.0], 2, 2, Shape::Row));
    let sc = a.swap(0, 1, Shape::Col);
    assert_eq!(sc, mk(vec![2.0, 4.0, 1.0, 3.0], 2, 2, Shape::Col));
}

#[test]
fn add_same_layout() {
    let a = mk(vec![1.0, 2.0, 3.0, 4.0], 2, 2, Shape::Row);
    let b = mk(vec![10.0, 20.0, 30.0, 40.0], 2, 2, Shape::Row);
    let s = a.add(&b);
    assert_eq!(s, mk(vec![11.0, 22.0, 33.0, 44.0], 2, 2, Shape::Row));
}

#[test]
fn add_mixed_layouts() {
    let a = mk(vec![1.0, 2.0, 3.0, 4.0], 2, 2, Shape::Row);
    let b = mk(vec![1.0, 2.0, 3.0, 4.0], 2, 2, Shape::Col);
    // b reads logically as [[1,3],[2,4]]
    let s = a.add(&b);
    assert_eq!(getf(&s, 0, 0), 2.0);
    assert_eq!(getf(&s, 0, 1), 5.0);
    assert_eq!(getf(&s, 1, 0), 5.0);
    assert_eq!(getf(&s, 1, 1), 8.0);
    assert!(matches!(s.shape, Shape::Col));
}

#[test]
fn sub_mixed_layouts() {
    let a = mk(vec![1.0, 2.0, 3.0, 4.0], 2, 2, Shape::Row);
    let b = mk(vec![1.0, 2.0, 3.0, 4.0], 2, 2, Shape::Col);
    let s = a.sub(&b);
    assert_eq!(getf(&s, 0, 0), 0.0);
    assert_eq!(getf(&s, 0, 1), -1.0);
    assert_eq!(getf(&s, 1, 0), 1.0);
    assert_eq!(getf(&s, 1, 1), 0.0);
}

#[test]
fn neg_flips_signs() {
    let a = mk(vec![1.0, -2.0, 3.0, -4.0], 2, 2, Shape::Row);
    let n = a.neg();
    assert_eq!(n, mk(vec![-1.0, 2.0, -3.0, 4.0], 2, 2, Shape::Row));
}

#[test]
fn elementwise_mul() {
    let a = mk(vec![1.0, 2.0, 3.0, 4.0], 2, 2, Shape::Row);
    let b = mk(vec![1.0, 2.0, 3.0, 4.0], 2, 2, Shape::Col);
    let m = a.mul(&b);
    assert_eq!(getf(&m, 0, 0), 1.0);
    assert_eq!(getf(&m, 0, 1), 6.0);
    assert_eq!(getf(&m, 1, 0), 6.0);
    assert_eq!(getf(&m, 1, 1), 16.0);
}

#[test]
fn matmul_all_layout_pairs() {
    for (sa, sb) in [
        (Shape::Row, Shape::Col),
        (Shape::Row, Shape::Row),
        (Shape::Col, Shape::Row),
        (Shape::Col, Shape::Col),
    ] {
        // the logical left operand is [[1,2],[3,4]] under either layout tag
        let a = match sa {
            Shape::Row => mk(vec![1.0, 2.0, 3.0, 4.0], 2, 2, Shape::Row),
            Shape::Col => mk(vec![1.0, 3.0, 2.0, 4.0], 2, 2, Shape::Col),
        };
        // the logical right operand is [[1,2],[3,4]] as well
        let b = match sb {
            Shape::Row => mk(vec![1.0, 2.0, 3.0, 4.0], 2, 2, Shape::Row),
            Shape::Col => mk(vec![1.0, 3.0, 2.0, 4.0], 2, 2, Shape::Col),
        };
        // [[1,2],[3,4]] squared is [[7,10],[15,22]]
        let p = a.rem(&b);
        assert_eq!(getf(&p, 0, 0), 7.0);
        assert_eq!(getf(&p, 0, 1), 10.0);
        assert_eq!(getf(&p, 1, 0), 15.0);
        assert_eq!(getf(&p, 1, 1), 22.0);
        assert!(matches!(p.shape, Shape::Row));
    }
}

#[test]
fn matmul_rectangular() {
    let a = mk(vec![1.0, 2.0, 3.0, 4.0, 5.0, 6.0], 2, 3, Shape::Row);
    let b = mk(vec![7.0, 8.0, 9.0, 10.0, 11.0, 12.0], 3, 2, Shape::Row);
    let p = a.rem(&b);
    assert_eq!(p.row, 2);
    assert_eq!(p.col, 2);
    assert_eq!(getf(&p, 0, 0), 58.0);
    assert_eq!(getf(&p, 0, 1), 64.0);
    assert_eq!(getf(&p, 1, 0), 139.0);
    assert_eq!(getf(&p, 1, 1), 154.0);
}

#[test]
fn scalar_ops() {
    let a = mk(vec![1.0, 2.0, 3.0, 4.0], 2, 2, Shape::Row);
    assert_eq!(a.add_scalar(1.0f64.to_bits()), mk(vec![2.0, 3.0, 4.0, 5.0], 2, 2, Shape::Row));
    assert_eq!(a.sub_scalar(1.0f64.to_bits()), mk(vec![0.0, 1.0, 2.0, 3.0], 2, 2, Shape::Row));
    assert_eq!(a.mul_scalar(2.0f64.to_bits()), mk(vec![2.0, 4.0, 6.0, 8.0], 2, 2, Shape::Row));
}

#[test]
fn fmap_applies_elementwise() {
    let a = mk(vec![1.0, 2.0, 3.0, 4.0], 2, 2, Shape::Row);
    let doubled = a.fmap(|x: u64| (f64::from_bits(x) * 2.0).to_bits());
    assert_eq!(doubled, mk(vec![2.0, 4.0, 6.0, 8.0], 2, 2, Shape::Row));
}

#[test]
fn zip_with_combines_elementwise() {
    let a = mk(vec![1.0, 2.0, 3.0, 4.0], 2, 2, Shape::Row);
    let b = mk(vec![4.0, 3.0, 2.0, 1.0], 2, 2, Shape::Row);
    let s = a.zip_with(|x: u64, y: u64| (f64::from_bits(x) + f64::from_bits(y)).to_bits(), &b);
    assert_eq!(s, mk(vec![5.0, 5.0, 5.0, 5.0], 2, 2, Shape::Row));
}

#[test]
fn reduce_folds_in_storage_order() {
    let a = mk(vec![1.0, 2.0, 3.0, 4.0], 2, 2, Shape::Row);
    let total = a.reduce(0.0f64.to_bits(), |x: u64, y: u64| {
        (f64::from_bits(x) + f64::from_bits(y)).to_bits()
    });
    assert_eq!(f64::from_bits(total), 10.0);
}

#[test]
fn identity_matrix() {
    let id = diag(3);
    for i in 0..3 {
        for j in 0..3 {
            assert_eq!(getf(&id, i, j), if i == j { 1.0 } else { 0.0 });
        }
    }
}

#[test]
fn block_quadrants_row_major() {
    let v: Vec<f64> = (1..=16).map(|x| x as f64).collect();
    let a = mk(v, 4, 4, Shape::Row);
    let (m1, m2, m3, m4) = a.block();
    assert_eq!(m1, mk(vec![1.0, 2.0, 5.0, 6.0], 2, 2, Shape::Row));
    assert_eq!(m2, mk(vec![3.0, 4.0, 7.0, 8.0], 2, 2, Shape::Row));
    assert_eq!(m3, mk(vec![9.0, 10.0, 13.0, 14.0], 2, 2, Shape::Row));
    assert_eq!(m4, mk(vec![11.0, 12.0, 15.0, 16.0], 2, 2, Shape::Row));
}

#[test]
fn block_quadrants_col_major() {
    let v: Vec<f64> = (1..=16).map(|x| x as f64).collect();
    let a = mk(v, 4, 4, Shape::Col);
    let (m1, m2, m3, m4) = a.block();
    assert_eq!(m1, mk(vec![1.0, 2.0, 5.0, 6.0], 2, 2, Shape::Col));
    assert_eq!(m3, mk(vec![3.0, 4.0, 7.0, 8.0], 2, 2, Shape::Col));
    assert_eq!(m2, mk(vec![9.0, 10.0, 13.0, 14.0], 2, 2, Shape::Col));
    assert_eq!(m4, mk(vec![11.0, 12.0, 15.0, 16.0], 2, 2, Shape::Col));
}

#[test]
fn combine_restores_square() {
    let v: Vec<f64> = (1..=16).map(|x| x as f64).collect();
    let a = mk(v, 4, 4, Shape::Row);
    let (m1, m2, m3, m4) = a.block();
    let r = peroxide_core::combine(m1, m2, m3, m4);
    assert_eq!(r.data, a.data);
    assert!(matches!(r.shape, Shape::Row));
}

#[test]
fn combine_restores_rectangular() {
    let v: Vec<f64> = (1..=15).map(|x| x as f64 * 1.5).collect();
    for s in [Shape::Row, Shape::Col] {
        let a = mk(v.clone(), 3, 5, s);
        let (m1, m2, m3, m4) = a.block();
        let r = peroxide_core::combine(m1, m2, m3, m4);
        assert_eq!(r.data, a.data);
        assert_eq!(r.row, 3);
        assert_eq!(r.col, 5);
    }
}

#[test]
fn matrices_compare_across_layouts() {
    let a = mk(vec![1.0, 2.0, 3.0, 4.0], 2, 2, Shape::Row);
    let b = mk(vec![1.0, 3.0, 2.0, 4.0], 2, 2, Shape::Col);
    assert_eq!(a, b);
    let c = mk(vec![1.0, 2.0, 3.0, 5.0], 2, 2, Shape::Row);
    assert_ne!(a, c);
}

#[test]
fn nearly_eq_tolerance() {
    assert!(peroxide_core::nearly_eq((1.0f64 / 3.0 * 3.0).to_bits(), 1.0f64.to_bits()));
    assert!(peroxide_core::nearly_eq(1.0f64.to_bits(), (1.0f64 + 1e-9).to_bits()));
    assert!(!peroxide_core::nearly_eq(1.0f64.to_bits(), 2.0f64.to_bits()));
    // the relative clause accepts large values that differ by little
    assert!(peroxide_core::nearly_eq(1e20f64.to_bits(), (1e20f64 + 1e5).to_bits()));
}

#[test]
fn scalar_arithmetic_matches_hardware() {
    // each rounding operation, through a public operator, against the
    // machine's own result
    let x = mk(vec![0.1], 1, 1, Shape::Row);
    let y = mk(vec![0.2], 1, 1, Shape::Row);
    assert_eq!(getf(&x.add(&y), 0, 0), 0.1f64 + 0.2f64);
    assert_eq!(getf(&x.sub(&y), 0, 0), 0.1f64 - 0.2f64);
    let w = mk(vec![0.3], 1, 1, Shape::Row);
    assert_eq!(getf(&x.mul(&w), 0, 0), 0.1f64 * 0.3f64);
    let three = mk(vec![3.0], 1, 1, Shape::Row);
    assert_eq!(getf(&peroxide_core::inv_u(three), 0, 0), 1.0f64 / 3.0f64);
    assert_eq!(f64::from_bits(fp::neg_bits(1.5f64.to_bits())), -1.5f64);
    assert_eq!(f64::from_bits(fp::abs_bits((-1.5f64).to_bits())), 1.5f64);
}

#[test]
fn tab_right_aligns() {
    assert_eq!(tab("ab", 5), "   ab".to_string());
    assert_eq!(tab("", 3), "   ".to_string());
}

#[test]
fn quot_rem_divides() {
    assert_eq!(quot_rem(7, 3), (2, 1));
    assert_eq!(quot_rem(12, 4), (3, 0));
}

#[test]
fn choose_shorter_and_longer() {
    assert_eq!(
        choose_shorter_string("abc".to_string(), "ab".to_string()),
        "ab".to_string(),
    );
    let v1: Vec<u64> = vec![1, 2, 3];
    let v2: Vec<u64> = vec![1, 2];
    assert_eq!(choose_shorter_vec(&v1, &v2), vec![1, 2]);
    assert_eq!(choose_longer_vec(&v1, &v2), vec![1, 2, 3]);
}

#[test]
fn free_constructor_matches_method() {
    let a = matrix(vec![1u64, 2, 3, 4], 2, 2, Shape::Row);
    let b = Matrix::new(vec![1u64, 2, 3, 4], 2, 2, Shape::Row);
    assert_eq!(a.data, b.data);
    assert_eq!(a.row, b.row);
}

#[test]
fn empty_matrix_arithmetic() {
    let a = mk(vec![], 0, 3, Shape::Row);
    let b = mk(vec![], 0, 3, Shape::Col);
    let s = a.add(&b);
    assert_eq!(s.row, 0);
    assert_eq!(s.col, 3);
    assert_eq!(s.data.len(), 0);
}
