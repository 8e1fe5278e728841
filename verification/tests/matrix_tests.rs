use generic_matrix::Matrix;

#[test]
fn from_vec() {
    let mat = Matrix::from_vec(2, 3, vec![(0, 0), (0, 1), (0, 2), (1, 0), (1, 1), (1, 2)]);
    for i in 0..mat.row() {
        for j in 0..mat.column() {
            assert_eq!((i, j), *mat.index(i, j));
        }
    }
}

#[test]
fn index() {
    let mat = Matrix::from_fn(3, 5, |i, j| (i, j));
    for i in 0..mat.row() {
        for j in 0..mat.column() {
            assert_eq!((i, j), *mat.index(i, j));
        }
    }
}

#[test]
fn index_mut() {
    let mut m: Matrix<i64> = Matrix::one(2, 2);
    m.set(1, 1, 0);
    assert_eq!(Matrix::from_vec(2, 2, vec![1, 0, 0, 0]), m);
}

#[test]
fn mul() {
    let m1 = Matrix::from_vec(1, 3, vec![1i64, 2, 3]);
    let m2 = Matrix::from_vec(3, 1, vec![1i64, 2, 3]);
    assert_eq!(Matrix::from_vec(1, 1, vec![14i64]), m1.mul(&m2));
    assert_eq!(
        Matrix::from_vec(3, 1, vec![1i64, 4, 7]),
        Matrix::from_vec(3, 3, vec![1i64, 2, 3, 4, 5, 6, 7, 8, 9])
            .mul(&Matrix::from_vec(3, 1, vec![1i64, 0, 0]))
    );
    assert_eq!(
        Matrix::from_vec(3, 2, vec![1i64, 3, 4, 6, 7, 9]),
        Matrix::from_vec(3, 3, vec![1i64, 2, 3, 4, 5, 6, 7, 8, 9])
            .mul(&Matrix::from_vec(3, 2, vec![1i64, 0, 0, 0, 0, 1]))
    );
}

#[test]
fn trans() {
    let mut square = Matrix::from_vec(3, 3, vec![1, 2, 3, 4, 5, 6, 7, 8, 9]);
    assert_eq!(square.trans(), Matrix::from_vec(3, 3, vec![1, 4, 7, 2, 5, 8, 3, 6, 9]));
    square.trans_in_place();
    assert_eq!(square, Matrix::from_vec(3, 3, vec![1, 4, 7, 2, 5, 8, 3, 6, 9]));

    let mut vector = Matrix::from_vec(3, 1, vec![1, 2, 3]);
    assert_eq!(vector.trans(), Matrix::from_vec(1, 3, vec![1, 2, 3]));
    vector.trans_in_place();
    assert_eq!(vector, Matrix::from_vec(1, 3, vec![1, 2, 3]));

    let mut rect_2_3 = Matrix::from_vec(3, 2, vec![1, 2, 3, 4, 5, 6]);
    assert_eq!(rect_2_3.trans(), Matrix::from_vec(2, 3, vec![1, 3, 5, 2, 4, 6]));
    rect_2_3.trans_in_place();
    assert_eq!(rect_2_3, Matrix::from_vec(2, 3, vec![1, 3, 5, 2, 4, 6]));

    let mut rect_5_2 = Matrix::from_vec(2, 5, vec![1, 2, 3, 4, 5, 6, 7, 8, 9, 10]);
    assert_eq!(rect_5_2.trans(), Matrix::from_vec(5, 2, vec![1, 6, 2, 7, 3, 8, 4, 9, 5, 10]));
    rect_5_2.trans_in_place();
    assert_eq!(rect_5_2, Matrix::from_vec(5, 2, vec![1, 6, 2, 7, 3, 8, 4, 9, 5, 10]));

    let mut rect_5_3 = Matrix::from_vec(3, 5, vec![1, 2, 3, 4, 5, 6, 7, 8, 9, 10, 11, 12, 13, 14, 15]);
    assert_eq!(
        rect_5_3.trans(),
        Matrix::from_vec(5, 3, vec![1, 6, 11, 2, 7, 12, 3, 8, 13, 4, 9, 14, 5, 10, 15])
    );
    rect_5_3.trans_in_place();
    assert_eq!(
        rect_5_3,
        Matrix::from_vec(5, 3, vec![1, 6, 11, 2, 7, 12, 3, 8, 13, 4, 9, 14, 5, 10, 15])
    );
}

#[test]
fn size_queries() {
    let m = Matrix::from_vec(2, 3, vec![1, 2, 3, 4, 5, 6]);
    assert_eq!(m.row(), 2);
    assert_eq!(m.column(), 3);
    assert_eq!(m.size(), (2, 3));
    assert_eq!(m.trans().size(), (3, 2));
}

#[test]
fn out_of_bounds_get_is_rejected() {
    let m = Matrix::from_vec(2, 3, vec![1, 2, 3, 4, 5, 6]);
    assert!(m.get(m.row(), 0).is_none());
    assert!(m.get(0, m.column()).is_none());
    assert!(m.get(usize::MAX, usize::MAX).is_none());
    assert_eq!(m.get(1, 2), Some(&6));
}

#[test]
fn zero_is_all_zero() {
    let z: Matrix<i64> = Matrix::zero(3, 4);
    assert_eq!(z.size(), (3, 4));
    for i in 0..3 {
        for j in 0..4 {
            assert_eq!(*z.index(i, j), 0);
        }
    }
}

#[test]
fn one_is_identity_pattern() {
    let e: Matrix<i64> = Matrix::one(2, 3);
    assert_eq!(e, Matrix::from_vec(2, 3, vec![1, 0, 0, 0, 1, 0]));
}

#[test]
fn add_and_sub() {
    let a = Matrix::from_vec(2, 2, vec![1i64, 2, 3, 4]);
    let b = Matrix::from_vec(2, 2, vec![10i64, 20, 30, 40]);
    assert_eq!(a.add(&b), Matrix::from_vec(2, 2, vec![11i64, 22, 33, 44]));
    assert_eq!(b.sub(&a), Matrix::from_vec(2, 2, vec![9i64, 18, 27, 36]));
}

#[test]
fn transpose_roundtrip() {
    let m = Matrix::from_vec(2, 5, vec![1, 2, 3, 4, 5, 6, 7, 8, 9, 10]);
    assert_eq!(m.trans().trans(), m);
    let mut m2 = m.clone();
    m2.trans_in_place();
    m2.trans_in_place();
    assert_eq!(m2, m);
}

#[test]
fn transpose_equivalence_all_shapes() {
    let shapes: [(usize, usize); 8] = [(0, 3), (3, 0), (1, 1), (1, 4), (4, 1), (3, 3), (2, 5), (7, 4)];
    for &(r, c) in shapes.iter() {
        let m = Matrix::from_fn(r, c, |i, j| (i * c + j) as i64);
        let copied = m.trans();
        let mut in_place = m.clone();
        in_place.trans_in_place();
        assert_eq!(copied, in_place);
    }
}

#[test]
fn identity_mul_law() {
    let m = Matrix::from_vec(3, 3, vec![1i64, 2, 3, 4, 5, 6, 7, 8, 9]);
    let e: Matrix<i64> = Matrix::one(3, 3);
    assert_eq!(e.mul(&m), m);
    assert_eq!(m.mul(&e), m);
}

#[test]
fn mul_shapes() {
    let a = Matrix::from_vec(2, 3, vec![1i64, 2, 3, 4, 5, 6]);
    let b = Matrix::from_vec(3, 4, vec![1i64; 12]);
    let p = a.mul(&b);
    assert_eq!(p.size(), (2, 4));
    assert_eq!(*p.index(0, 0), 6);
    assert_eq!(*p.index(1, 3), 15);
}

#[test]
fn in_place_transpose_word_boundaries() {
    // Buffer sizes at, just under, and just over multiples of the 32-bit
    // bookkeeping word: 30, 32, 33, 64, 65 elements.
    let shapes: [(usize, usize); 5] = [(5, 6), (2, 16), (3, 11), (4, 16), (5, 13)];
    for &(r, c) in shapes.iter() {
        let m = Matrix::from_fn(r, c, |i, j| (i * c + j) as i64);
        let mut t = m.clone();
        t.trans_in_place();
        assert_eq!(t.size(), (c, r));
        for i in 0..c {
            for j in 0..r {
                assert_eq!(*t.index(i, j), *m.index(j, i));
            }
        }
    }
}

#[test]
fn generator_order_is_row_major() {
    let m = Matrix::from_fn(2, 3, |i, j| i * 10 + j);
    assert_eq!(m, Matrix::from_vec(2, 3, vec![0, 1, 2, 10, 11, 12]));
}
