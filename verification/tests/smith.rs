use ndarray::Array2;
use simplicial_homology::arith::{extended_euclid, quotient};
use simplicial_homology::error::Error;
use simplicial_homology::matrix::{can_allocate, Matrix};
use simplicial_homology::smith::{
    find_nonzero_column, find_nonzero_in_column, find_nonzero_in_row, make_pivot, negate_col,
    negate_row, pair_diagonal, smith_normal_form, zero_column_entry, zero_row_entry, Decomposition,
};
use simplicial_homology::updates::{combine, left_mul2, right_mul2};

fn matrix(rows: Vec<Vec<i128>>) -> Matrix {
    Matrix::from_rows(&rows).unwrap()
}

fn array(m: &Matrix) -> Array2<i128> {
    let rows = m.to_rows();
    let flat: Vec<i128> = rows.iter().flatten().copied().collect();
    Array2::from_shape_vec((m.nrows(), m.ncols()), flat).unwrap()
}

fn diagonal(m: &Matrix) -> Vec<i128> {
    let len = m.nrows().min(m.ncols());
    (0..len).map(|i| m.get(i, i)).collect()
}

fn determinant(m: &Vec<Vec<i128>>) -> i128 {
    let n = m.len();
    if n == 0 {
        return 1;
    }
    let mut total = 0;
    for j in 0..n {
        let minor: Vec<Vec<i128>> = m[1..]
            .iter()
            .map(|row| {
                row.iter()
                    .enumerate()
                    .filter(|(k, _)| *k != j)
                    .map(|(_, x)| *x)
                    .collect()
            })
            .collect();
        let sign = if j % 2 == 0 { 1 } else { -1 };
        total += sign * m[0][j] * determinant(&minor);
    }
    total
}

fn check_decomposition(case: Vec<Vec<i128>>) -> Vec<i128> {
    let m = matrix(case);
    let (s, a, t) = smith_normal_form(&m).unwrap();
    assert_eq!(array(&s).dot(&array(&a)).dot(&array(&t)), array(&m));
    assert_eq!((s.nrows(), s.ncols()), (m.nrows(), m.nrows()));
    assert_eq!((t.nrows(), t.ncols()), (m.ncols(), m.ncols()));
    assert_eq!((a.nrows(), a.ncols()), (m.nrows(), m.ncols()));
    for i in 0..a.nrows() {
        for j in 0..a.ncols() {
            if i != j {
                assert_eq!(a.get(i, j), 0);
            }
        }
    }
    let diag = diagonal(&a);
    for i in 0..diag.len() {
        assert!(diag[i] >= 0);
        if i + 1 < diag.len() {
            if diag[i] == 0 {
                assert_eq!(diag[i + 1], 0);
            } else {
                assert_eq!(diag[i + 1] % diag[i], 0);
            }
        }
    }
    assert_eq!(determinant(&s.to_rows()).abs(), 1);
    assert_eq!(determinant(&t.to_rows()).abs(), 1);
    diag
}

#[test]
fn test_smith() {
    let test_cases = vec![
        vec![vec![1, 2, 3], vec![4, 5, 6], vec![7, 8, 9]],
        vec![vec![-1, 1, 1, 43]],
        vec![
            vec![12, -65, 22, 0],
            vec![-7, 0, 43, 18],
            vec![68, -39, 2, 0],
            vec![-11, -11, -11, -11],
        ],
        vec![vec![128], vec![64], vec![32], vec![16], vec![-8]],
    ];
    for case in test_cases.iter() {
        let m = matrix(case.clone());
        let (s, a, t) = smith_normal_form(&m).unwrap();
        // Check decomposition
        assert_eq!(&array(&s).dot(&array(&a)).dot(&array(&t)), &array(&m));
        // Check non-diagonal
        assert!(array(&a).indexed_iter().all(|((i, j), x)| i == j || *x == 0));
        // Check invariant order
        let invariants: Vec<i128> = diagonal(&a).into_iter().filter(|x| *x != 0).collect();
        for i in 1..invariants.len() {
            assert_eq!(invariants[i] % invariants[i - 1], 0);
        }
    }
}

#[test]
fn smith_of_three_by_three() {
    let diag = check_decomposition(vec![vec![1, 2, 3], vec![4, 5, 6], vec![7, 8, 9]]);
    assert_eq!(diag, vec![1, 3, 0]);
}

#[test]
fn smith_of_single_row() {
    let m = matrix(vec![vec![-1, 1, 1, 43]]);
    let (_, a, _) = smith_normal_form(&m).unwrap();
    assert_eq!(a.to_rows(), vec![vec![1, 0, 0, 0]]);
    assert_eq!(check_decomposition(vec![vec![-1, 1, 1, 43]]), vec![1]);
}

#[test]
fn smith_of_single_column() {
    let diag = check_decomposition(vec![vec![128], vec![64], vec![32], vec![16], vec![-8]]);
    assert_eq!(diag, vec![8]);
}

#[test]
fn smith_of_four_by_four() {
    let diag = check_decomposition(vec![
        vec![12, -65, 22, 0],
        vec![-7, 0, 43, 18],
        vec![68, -39, 2, 0],
        vec![-11, -11, -11, -11],
    ]);
    let product: i128 = diag.iter().product();
    let det = determinant(&vec![
        vec![12, -65, 22, 0],
        vec![-7, 0, 43, 18],
        vec![68, -39, 2, 0],
        vec![-11, -11, -11, -11],
    ]);
    assert_eq!(product, det.abs());
}

#[test]
fn smith_orders_the_diagonal() {
    assert_eq!(check_decomposition(vec![vec![6, 0], vec![0, 4]]), vec![2, 12]);
    assert_eq!(check_decomposition(vec![vec![0, 0], vec![0, 5]]), vec![5, 0]);
    assert_eq!(check_decomposition(vec![vec![-3]]), vec![3]);
    assert_eq!(check_decomposition(vec![vec![2, 4], vec![4, 8]]), vec![2, 0]);
    assert_eq!(
        check_decomposition(vec![vec![2, 0, 0], vec![0, 3, 0], vec![0, 0, 5]]),
        vec![1, 1, 30]
    );
}

#[test]
fn smith_of_zero_and_empty_matrices() {
    assert_eq!(check_decomposition(vec![vec![0, 0, 0], vec![0, 0, 0]]), vec![0, 0]);
    let (s, a, t) = smith_normal_form(&Matrix::zeros(3, 0).unwrap()).unwrap();
    assert_eq!((s.nrows(), a.nrows(), a.ncols(), t.nrows()), (3, 3, 0, 0));
    assert_eq!(s.to_rows(), vec![vec![1, 0, 0], vec![0, 1, 0], vec![0, 0, 1]]);
    let (s, a, t) = smith_normal_form(&Matrix::zeros(0, 2).unwrap()).unwrap();
    assert_eq!((s.nrows(), a.nrows(), a.ncols(), t.nrows()), (0, 0, 2, 2));
}

#[test]
fn smith_reports_overflow() {
    let m = matrix(vec![vec![i128::MIN, 1]]);
    assert_eq!(smith_normal_form(&m).err(), Some(Error::Overflow));
    let big = i128::MAX;
    let m = matrix(vec![vec![big, big - 1], vec![big - 2, 3]]);
    assert_eq!(smith_normal_form(&m).err(), Some(Error::Overflow));
}

#[test]
fn extended_euclid_gives_gcd_and_bezout_pair() {
    for (a, b) in [(12, 18), (18, 12), (-12, 18), (12, -18), (-7, -21), (17, 5), (1, 1), (240, 46)] {
        let (g, x, y) = extended_euclid(a, b);
        assert!(g > 0);
        assert_eq!(a % g, 0);
        assert_eq!(b % g, 0);
        assert_eq!(x * a + y * b, g);
    }
    assert_eq!(extended_euclid(240, 46), (2, -9, 47));
    assert_eq!(extended_euclid(12, 18).0, 6);
    assert_eq!(extended_euclid(17, 5).0, 1);
}

#[test]
fn extended_euclid_with_zero_arguments() {
    assert_eq!(extended_euclid(0, 5), (5, 0, 1));
    assert_eq!(extended_euclid(0, -5), (5, 0, -1));
    assert_eq!(extended_euclid(5, 0), (5, 1, 0));
    assert_eq!(extended_euclid(-5, 0), (5, -1, 0));
    assert_eq!(extended_euclid(0, 0), (0, 0, 0));
}

#[test]
fn extended_euclid_when_one_divides_the_other() {
    assert_eq!(extended_euclid(4, 12), (4, 1, 0));
    assert_eq!(extended_euclid(-4, 12), (4, -1, 0));
    assert_eq!(extended_euclid(4, -12), (4, 1, 0));
    assert_eq!(extended_euclid(i128::MAX, i128::MAX), (i128::MAX, 1, 0));
    let (g, x, y) = extended_euclid(i128::MAX, i128::MAX - 1);
    assert_eq!(g, 1);
    assert_eq!((x, y), (1, -1));
}

#[test]
fn quotient_floors() {
    assert_eq!(quotient(12, 4), 3);
    assert_eq!(quotient(-12, 4), -3);
    assert_eq!(quotient(-13, 4), -4);
    assert_eq!(quotient(i128::MIN, 1), i128::MIN);
}

#[test]
fn combine_checks_each_step() {
    assert_eq!(combine(2, 3, 4, 5), Some(26));
    assert_eq!(combine(i128::MAX, 2, 0, 0), None);
    assert_eq!(combine(0, 0, i128::MAX, 2), None);
    assert_eq!(combine(1, i128::MAX, 1, 1), None);
    assert_eq!(combine(1, i128::MAX, 1, -1), Some(i128::MAX - 1));
}

#[test]
fn left_update_combines_two_rows() {
    let mut m = matrix(vec![vec![1, 2], vec![3, 4], vec![5, 6]]);
    assert_eq!(left_mul2(&mut m, 0, 2, 2, 1, -1, 3), Ok(()));
    assert_eq!(m.to_rows(), vec![vec![7, 10], vec![3, 4], vec![14, 16]]);
    let mut m = matrix(vec![vec![i128::MAX, 0], vec![1, 0]]);
    assert_eq!(left_mul2(&mut m, 0, 1, 1, 1, 0, 1), Err(Error::Overflow));
}

#[test]
fn right_update_combines_two_columns() {
    let mut m = matrix(vec![vec![1, 2, 3], vec![4, 5, 6]]);
    assert_eq!(right_mul2(&mut m, 0, 2, 2, 1, -1, 3), Ok(()));
    assert_eq!(m.to_rows(), vec![vec![-1, 2, 10], vec![2, 5, 22]]);
    let mut m = matrix(vec![vec![i128::MAX, 1]]);
    assert_eq!(right_mul2(&mut m, 0, 1, 1, 0, 1, 1), Err(Error::Overflow));
}

#[test]
fn negation_of_rows_and_columns() {
    let mut m = matrix(vec![vec![1, -2], vec![3, 4]]);
    assert_eq!(negate_row(&mut m, 0), Ok(()));
    assert_eq!(m.to_rows(), vec![vec![-1, 2], vec![3, 4]]);
    assert_eq!(negate_col(&mut m, 1), Ok(()));
    assert_eq!(m.to_rows(), vec![vec![-1, -2], vec![3, -4]]);
    let mut m = matrix(vec![vec![i128::MIN]]);
    assert_eq!(negate_row(&mut m, 0), Err(Error::Overflow));
    assert_eq!(negate_col(&mut m, 0), Err(Error::Overflow));
}

#[test]
fn searches_for_nonzero_entries() {
    let m = matrix(vec![vec![0, 0, 0, 7], vec![0, 0, 5, 0], vec![0, 0, 0, 0]]);
    assert_eq!(find_nonzero_in_column(&m, 2, 0), Some(1));
    assert_eq!(find_nonzero_in_column(&m, 2, 2), None);
    assert_eq!(find_nonzero_in_column(&m, 0, 0), None);
    assert_eq!(find_nonzero_in_row(&m, 0, 0), Some(3));
    assert_eq!(find_nonzero_in_row(&m, 2, 0), None);
    assert_eq!(find_nonzero_column(&m, 0, 0), Some(2));
    assert_eq!(find_nonzero_column(&m, 0, 3), Some(3));
    assert_eq!(find_nonzero_column(&m, 1, 3), None);
    assert_eq!(find_nonzero_column(&m, 2, 0), None);
}

fn start(rows: Vec<Vec<i128>>) -> Decomposition {
    let a = matrix(rows);
    let s = Matrix::identity(a.nrows()).unwrap();
    let t = Matrix::identity(a.ncols()).unwrap();
    Decomposition { s, a, t }
}

#[test]
fn pivot_is_brought_to_the_diagonal() {
    let mut st = start(vec![vec![0, 0, 0], vec![0, 0, 4], vec![0, 3, 5]]);
    assert_eq!(make_pivot(&mut st, 0, 0), Some(2));
    assert_eq!(st.a.to_rows(), vec![vec![3, 0, 5], vec![0, 0, 4], vec![0, 0, 0]]);
    assert_eq!(st.s.to_rows(), vec![vec![0, 0, 1], vec![0, 1, 0], vec![1, 0, 0]]);
    assert_eq!(st.t.to_rows(), vec![vec![0, 1, 0], vec![1, 0, 0], vec![0, 0, 1]]);
    let mut st = start(vec![vec![0, 0], vec![0, 0]]);
    assert_eq!(make_pivot(&mut st, 0, 0), None);
}

#[test]
fn entries_are_cleared_against_the_pivot() {
    let mut st = start(vec![vec![4, 1], vec![6, 1]]);
    assert_eq!(zero_row_entry(&mut st, 0, 1), Ok(()));
    assert_eq!(st.a.get(0, 0), 2);
    assert_eq!(st.a.get(1, 0), 0);
    assert_eq!(array(&st.s).dot(&array(&st.a)), array(&matrix(vec![vec![4, 1], vec![6, 1]])));
    let mut st = start(vec![vec![4, 6], vec![1, 1]]);
    assert_eq!(zero_column_entry(&mut st, 0, 1), Ok(()));
    assert_eq!(st.a.get(0, 0), 2);
    assert_eq!(st.a.get(0, 1), 0);
    assert_eq!(array(&st.a).dot(&array(&st.t)), array(&matrix(vec![vec![4, 6], vec![1, 1]])));
}

#[test]
fn diagonal_pair_becomes_gcd_and_lcm() {
    let mut st = start(vec![vec![4, 0], vec![0, 6]]);
    assert_eq!(pair_diagonal(&mut st, 0, 1), Ok(()));
    assert_eq!(st.a.to_rows(), vec![vec![2, 0], vec![0, 12]]);
    assert_eq!(
        array(&st.s).dot(&array(&st.a)).dot(&array(&st.t)),
        array(&matrix(vec![vec![4, 0], vec![0, 6]]))
    );
    let mut st = start(vec![vec![0, 0], vec![0, 0]]);
    assert_eq!(pair_diagonal(&mut st, 0, 1), Ok(()));
    assert_eq!(st.a.to_rows(), vec![vec![0, 0], vec![0, 0]]);
}

#[test]
fn matrices_are_built_and_read() {
    let z = Matrix::zeros(2, 3).unwrap();
    assert_eq!(z.to_rows(), vec![vec![0, 0, 0], vec![0, 0, 0]]);
    let id = Matrix::identity(2).unwrap();
    assert_eq!(id.to_rows(), vec![vec![1, 0], vec![0, 1]]);
    let mut m = matrix(vec![vec![1, 2], vec![3, 4]]);
    assert_eq!((m.nrows(), m.ncols()), (2, 2));
    let copy = m.duplicate();
    m.set(0, 1, 9);
    assert_eq!(m.get(0, 1), 9);
    assert_eq!(m.to_rows(), vec![vec![1, 9], vec![3, 4]]);
    assert_eq!(copy.to_rows(), vec![vec![1, 2], vec![3, 4]]);
    assert!(Matrix::from_rows(&vec![vec![1, 2], vec![3]]).is_none());
    assert_eq!(Matrix::from_rows(&vec![]).unwrap().nrows(), 0);
    assert!(can_allocate(10, 10));
    assert!(can_allocate(0, 1000));
    assert!(!can_allocate(usize::MAX, 2));
    assert!(!can_allocate(usize::MAX / 16 + 1, 1));
    assert!(Matrix::zeros(usize::MAX, 2).is_none());
    assert!(Matrix::identity(usize::MAX).is_none());
}
