use ray_tracer::float_eq::{assert_float_eq, assert_float_ne, FloatEq};
use ray_tracer::matrix::BaseMatrix;

/// A scalar compared within machine epsilon.
#[derive(Clone, Copy, Debug)]
struct Approx(f64);

impl FloatEq for Approx {
    fn float_eq_spec(&self, other: &Self) -> bool {
        (self.0 - other.0).abs() < f64::EPSILON
    }

    fn float_eq(&self, other: &Self) -> bool {
        self.float_eq_spec(other)
    }
}

fn matrix(order: usize, vals: &[f64]) -> BaseMatrix<Approx> {
    BaseMatrix::new(order, vals.iter().map(|v| Approx(*v)).collect())
}

fn identity(order: usize) -> BaseMatrix<Approx> {
    BaseMatrix::identity(order, Approx(0.0), Approx(1.0))
}

#[test]
fn test_f64_float_eq() {
    assert_ne!(0.1 + 0.2, 0.3);
    assert!(Approx(0.1 + 0.2).float_eq(&Approx(0.3)));
    assert_float_eq(Approx(0.1 + 0.2), Approx(0.3));
}

#[test]
fn test_matrix_new() {
    let m = BaseMatrix::new(
        4,
        vec![
            1.0, 2.0, 3.0, 4.0, 5.5, 6.5, 7.5, 8.5, 9.0, 10.0, 11.0, 12.0, 13.5, 14.5, 15.5, 16.5,
        ],
    );
    for (r, c, expected) in [
        (0, 0, 1.0),
        (0, 3, 4.0),
        (1, 0, 5.5),
        (1, 2, 7.5),
        (2, 2, 11.0),
        (3, 0, 13.5),
        (3, 2, 15.5),
    ] {
        assert_eq!(m.get(r, c), expected);
    }

    let m = BaseMatrix::new(3, vec![-3.0, 5.0, 0.0, 1.0, -2.0, -7.0, 0.0, 1.0, 1.0]);
    for (r, c, expected) in [(0, 0, -3.0), (1, 1, -2.0), (2, 2, 1.0), (1, 2, -7.0)] {
        assert_eq!(m.get(r, c), expected);
    }

    let m = BaseMatrix::new(2, vec![-3.0, 5.0, 1.0, -2.0]);
    for (r, c, expected) in [(0, 0, -3.0), (0, 1, 5.0), (1, 0, 1.0), (1, 1, -2.0)] {
        assert_eq!(m.get(r, c), expected);
    }
}

#[test]
fn test_matrix_eq() {
    {
        let a = matrix(
            4,
            &[1.0, 2.0, 3.0, 4.0, 5.0, 6.0, 7.0, 8.0, 9.0, 8.0, 7.0, 6.0, 5.0, 4.0, 3.0, 2.0],
        );
        let b = matrix(
            4,
            &[1.0, 2.0, 3.0, 4.0, 5.0, 6.0, 7.0, 8.0, 9.0, 8.0, 7.0, 6.0, 5.0, 4.0, 3.0, 2.0],
        );
        let c = matrix(
            4,
            &[2.0, 3.0, 4.0, 5.0, 6.0, 7.0, 8.0, 9.0, 8.0, 7.0, 6.0, 5.0, 4.0, 3.0, 2.0, 1.0],
        );
        assert_float_eq(a.clone(), b);
        assert_float_ne(a, c);
    }

    {
        let a = matrix(3, &[1.0, 2.0, 3.0, 4.0, 5.0, 6.0, 7.0, 8.0, 9.0]);
        let b = matrix(3, &[1.0, 2.0, 3.0, 4.0, 5.0, 6.0, 7.0, 8.0, 9.0]);
        let c = matrix(3, &[2.0, 3.0, 4.0, 5.0, 6.0, 7.0, 8.0, 9.0, 8.0]);
        assert_float_eq(a.clone(), b);
        assert_float_ne(a, c);
    }

    {
        let a = matrix(2, &[1.0, 2.0, 3.0, 4.0]);
        let b = matrix(2, &[1.0, 2.0, 3.0, 4.0]);
        let c = matrix(2, &[2.0, 3.0, 4.0, 5.0]);
        assert_float_eq(a.clone(), b);
        assert_float_ne(a, c);
    }
}

#[test]
fn test_matrix4x4f_transpose() {
    assert_float_eq(
        matrix(
            4,
            &[0.0, 9.0, 3.0, 0.0, 9.0, 8.0, 0.0, 8.0, 1.0, 8.0, 5.0, 3.0, 0.0, 0.0, 5.0, 8.0],
        )
        .transpose(),
        matrix(
            4,
            &[0.0, 9.0, 1.0, 0.0, 9.0, 8.0, 8.0, 0.0, 3.0, 0.0, 5.0, 5.0, 0.0, 8.0, 3.0, 8.0],
        ),
    );
    assert_float_eq(identity(4).transpose(), identity(4));
}

#[test]
fn test_matrix_submatrix() {
    assert_float_eq(
        matrix(2, &[1.0, 2.0, 3.0, 4.0]).submatrix(0, 1),
        matrix(1, &[3.0]),
    );
    assert_float_eq(
        matrix(3, &[1.0, 5.0, 0.0, -3.0, 2.0, 7.0, 0.0, 6.0, -3.0]).submatrix(0, 2),
        matrix(2, &[-3.0, 2.0, 0.0, 6.0]),
    );
    assert_float_eq(
        matrix(
            4,
            &[-6.0, 1.0, 1.0, 6.0, -8.0, 5.0, 8.0, 6.0, -1.0, 0.0, 8.0, 2.0, -7.0, 1.0, -1.0, 1.0],
        )
        .submatrix(2, 1),
        matrix(3, &[-6.0, 1.0, 6.0, -8.0, 8.0, 6.0, -7.0, -1.0, 1.0]),
    );
}

#[test]
fn identity_has_ones_on_the_diagonal_only() {
    assert_float_eq(
        identity(4),
        matrix(
            4,
            &[1.0, 0.0, 0.0, 0.0, 0.0, 1.0, 0.0, 0.0, 0.0, 0.0, 1.0, 0.0, 0.0, 0.0, 0.0, 1.0],
        ),
    );
    assert_float_eq(identity(2), matrix(2, &[1.0, 0.0, 0.0, 1.0]));
    assert_eq!(identity(0).order(), 0);
}

#[test]
fn transpose_moves_each_entry_across_the_diagonal() {
    let m = BaseMatrix::new(3, vec![1, 2, 3, 4, 5, 6, 7, 8, 9]);
    let t = m.transpose();
    for r in 0..3 {
        for c in 0..3 {
            assert_eq!(t.get(r, c), m.get(c, r));
        }
    }
    assert_eq!(t.get(0, 2), 7);
    assert_eq!(t.transpose().get(0, 2), 3);
}

#[test]
fn submatrix_of_each_corner() {
    let m = BaseMatrix::new(3, vec![1, 2, 3, 4, 5, 6, 7, 8, 9]);
    let s = m.submatrix(0, 0);
    assert_eq!(s.order(), 2);
    assert_eq!([s.get(0, 0), s.get(0, 1), s.get(1, 0), s.get(1, 1)], [5, 6, 8, 9]);
    let s = m.submatrix(2, 2);
    assert_eq!([s.get(0, 0), s.get(0, 1), s.get(1, 0), s.get(1, 1)], [1, 2, 4, 5]);
    let s = m.submatrix(1, 2);
    assert_eq!([s.get(0, 0), s.get(0, 1), s.get(1, 0), s.get(1, 1)], [1, 2, 7, 8]);
    assert_eq!(BaseMatrix::new(1, vec![4]).submatrix(0, 0).order(), 0);
}

#[test]
fn matrices_of_different_order_are_not_equal() {
    assert!(!identity(2).float_eq(&identity(3)));
    assert!(!matrix(1, &[1.0]).float_eq(&matrix(1, &[1.0 + 1e-9])));
    assert!(matrix(1, &[0.1 + 0.2]).float_eq(&matrix(1, &[0.3])));
}

#[test]
fn clone_keeps_every_entry() {
    let m = BaseMatrix::new(2, vec![1, 2, 3, 4]);
    let c = m.clone();
    assert_eq!(c.order(), 2);
    assert_eq!([c.get(0, 0), c.get(0, 1), c.get(1, 0), c.get(1, 1)], [1, 2, 3, 4]);
}
