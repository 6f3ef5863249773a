use gencov::compose::{compose_h_mat, compose_h_vec, compose_sqr_mat, compose_v_mat, compose_v_vec};
use gencov::error::Error;
use gencov::matrix::Matrix;

fn mat(nrows: usize, ncols: usize, cells: Vec<f64>) -> Matrix<f64> {
    Matrix::from_row_major(nrows, ncols, cells).unwrap()
}

fn shape_and_cells(m: Matrix<f64>) -> (usize, usize, Vec<f64>) {
    let nrows: usize = m.nrows();
    let ncols: usize = m.ncols();
    (nrows, ncols, m.into_row_major())
}

fn mat_3_3() -> Matrix<f64> {
    mat(3, 3, vec![1.33, 2.33, 3.33, 4.33, 5.33, 6.33, 7.33, 8.33, 9.33])
}

fn mat_3_2() -> Matrix<f64> {
    mat(3, 2, vec![1.32, 2.32, 3.32, 4.32, 5.32, 6.32])
}

fn mat_2_3() -> Matrix<f64> {
    mat(2, 3, vec![1.23, 2.23, 3.23, 4.23, 5.23, 6.23])
}

fn mat_2_2() -> Matrix<f64> {
    mat(2, 2, vec![1.22, 2.22, 3.22, 4.22])
}

#[test]
fn test() {
    let mat_3_3: Matrix<f64> = mat_3_3();
    let mat_3_2: Matrix<f64> = mat_3_2();
    let mat_2_3: Matrix<f64> = mat_2_3();
    let mat_2_2: Matrix<f64> = mat_2_2();

    assert_eq!(
        compose_sqr_mat(mat_3_3.clone(), mat_3_2.clone(), mat_2_3.clone(), mat_2_2.clone()),
        Ok(mat(
            5,
            5,
            vec![
                1.33, 2.33, 3.33, 1.32, 2.32, //
                4.33, 5.33, 6.33, 3.32, 4.32, //
                7.33, 8.33, 9.33, 5.32, 6.32, //
                1.23, 2.23, 3.23, 1.22, 2.22, //
                4.23, 5.23, 6.23, 3.22, 4.22,
            ]
        ))
    );

    assert_eq!(
        compose_sqr_mat(mat_2_2.clone(), mat_2_3.clone(), mat_3_2.clone(), mat_3_3.clone()),
        Ok(mat(
            5,
            5,
            vec![
                1.22, 2.22, 1.23, 2.23, 3.23, //
                3.22, 4.22, 4.23, 5.23, 6.23, //
                1.32, 2.32, 1.33, 2.33, 3.33, //
                3.32, 4.32, 4.33, 5.33, 6.33, //
                5.32, 6.32, 7.33, 8.33, 9.33,
            ]
        ))
    );

    assert_eq!(
        compose_v_mat(mat_3_3.clone(), mat_2_3.clone()),
        Ok(mat(
            5,
            3,
            vec![
                1.33, 2.33, 3.33, //
                4.33, 5.33, 6.33, //
                7.33, 8.33, 9.33, //
                1.23, 2.23, 3.23, //
                4.23, 5.23, 6.23,
            ]
        ))
    );

    assert_eq!(
        compose_v_mat(mat_2_2.clone(), mat_3_2.clone()),
        Ok(mat(
            5,
            2,
            vec![
                1.22, 2.22, //
                3.22, 4.22, //
                1.32, 2.32, //
                3.32, 4.32, //
                5.32, 6.32,
            ]
        ))
    );

    assert_eq!(
        compose_h_mat(mat_2_3.clone(), mat_2_2.clone()),
        Ok(mat(
            2,
            5,
            vec![
                1.23, 2.23, 3.23, 1.22, 2.22, //
                4.23, 5.23, 6.23, 3.22, 4.22,
            ]
        ))
    );

    // the first two rows of the 3 by 3 matrix
    assert_eq!(
        compose_h_vec(vec![1.33, 2.33, 3.33], vec![4.33, 5.33, 6.33]),
        vec![1.33, 2.33, 3.33, 4.33, 5.33, 6.33]
    );

    // the first columns of the 2 by 2 and of the 3 by 3 matrix
    assert_eq!(
        compose_v_vec(vec![1.22, 3.22], vec![1.33, 4.33, 7.33]),
        vec![1.22, 3.22, 1.33, 4.33, 7.33]
    );
}

#[test]
fn clone_keeps_shape_and_cells() {
    let m: Matrix<f64> = mat_2_3();
    let copy: Matrix<f64> = m.clone();
    assert_eq!(copy, m);
    assert_eq!(shape_and_cells(copy), (2, 3, vec![1.23, 2.23, 3.23, 4.23, 5.23, 6.23]));
    assert_ne!(mat(2, 3, vec![0.0; 6]), mat(3, 2, vec![0.0; 6]));
}

#[test]
fn block_matrix_keeps_each_block_in_its_quarter() {
    let m: Matrix<f64> = compose_sqr_mat(mat_3_3(), mat_3_2(), mat_2_3(), mat_2_2()).unwrap();
    let (a, b, c, d) = (mat_3_3(), mat_3_2(), mat_2_3(), mat_2_2());
    for i in 0..3usize {
        for j in 0..3usize {
            assert_eq!(m.get(i, j), a.get(i, j));
        }
        for j in 0..2usize {
            assert_eq!(m.get(i, 3 + j), b.get(i, j));
        }
    }
    for i in 0..2usize {
        for j in 0..3usize {
            assert_eq!(m.get(3 + i, j), c.get(i, j));
        }
        for j in 0..2usize {
            assert_eq!(m.get(3 + i, 3 + j), d.get(i, j));
        }
    }
    assert_eq!(m.get(5, 0), None);
    assert_eq!(m.get(0, 5), None);
}

#[test]
fn block_matrix_refuses_blocks_that_do_not_fit() {
    // a and b differ in rows
    assert_eq!(
        compose_sqr_mat(mat_3_3(), mat_2_2(), mat_2_3(), mat_2_2()).err(),
        Some(Error::DimensionMismatch)
    );
    // c and d differ in rows
    assert_eq!(
        compose_sqr_mat(mat_3_3(), mat_3_2(), mat_2_3(), mat_3_2()).err(),
        Some(Error::DimensionMismatch)
    );
    // a and c differ in columns
    assert_eq!(
        compose_sqr_mat(mat_3_3(), mat_3_2(), mat_2_2(), mat_2_2()).err(),
        Some(Error::DimensionMismatch)
    );
    // b and d differ in columns
    assert_eq!(
        compose_sqr_mat(mat_3_3(), mat_3_2(), mat_2_3(), mat_2_3()).err(),
        Some(Error::DimensionMismatch)
    );
}

#[test]
fn stacking_refuses_unequal_widths() {
    assert_eq!(compose_v_mat(mat_3_3(), mat_3_2()).err(), Some(Error::DimensionMismatch));
    assert_eq!(compose_v_mat(mat_2_2(), mat_2_3()).err(), Some(Error::DimensionMismatch));
}

#[test]
fn joining_refuses_unequal_heights() {
    assert_eq!(compose_h_mat(mat_3_3(), mat_2_3()).err(), Some(Error::DimensionMismatch));
    assert_eq!(compose_h_mat(mat_2_2(), mat_3_2()).err(), Some(Error::DimensionMismatch));
}

#[test]
fn empty_blocks_compose() {
    let none: Matrix<f64> = mat(0, 3, vec![]);
    assert_eq!(
        shape_and_cells(compose_v_mat(none, mat_2_3()).unwrap()),
        (2, 3, vec![1.23, 2.23, 3.23, 4.23, 5.23, 6.23])
    );
    let thin: Matrix<f64> = mat(2, 0, vec![]);
    assert_eq!(
        shape_and_cells(compose_h_mat(mat_2_2(), thin).unwrap()),
        (2, 2, vec![1.22, 2.22, 3.22, 4.22])
    );
    let empty: Vec<f64> = Vec::new();
    assert_eq!(compose_v_vec(empty, vec![1.5]), vec![1.5]);
}

#[test]
fn vertical_then_horizontal_is_the_block_matrix() {
    let left: Matrix<f64> = compose_v_mat(mat_3_3(), mat_2_3()).unwrap();
    let right: Matrix<f64> = compose_v_mat(mat_3_2(), mat_2_2()).unwrap();
    let by_steps: Matrix<f64> = compose_h_mat(left, right).unwrap();
    let at_once: Matrix<f64> =
        compose_sqr_mat(mat_3_3(), mat_3_2(), mat_2_3(), mat_2_2()).unwrap();
    assert_eq!(shape_and_cells(by_steps), shape_and_cells(at_once));
}

#[test]
fn matrix_from_cells_needs_the_right_count() {
    assert!(Matrix::from_row_major(2, 2, vec![1.0, 2.0, 3.0]).is_none());
    assert!(Matrix::from_row_major(2, 2, vec![1.0, 2.0, 3.0, 4.0]).is_some());
    assert!(Matrix::from_row_major(usize::MAX, 2, vec![1.0]).is_none());
}

#[test]
fn matrix_cells_are_read_row_by_row() {
    let m: Matrix<i64> = Matrix::from_row_major(2, 3, vec![1, 2, 3, 4, 5, 6]).unwrap();
    assert_eq!(m.nrows(), 2);
    assert_eq!(m.ncols(), 3);
    assert_eq!(m.get(0, 2), Some(3));
    assert_eq!(m.get(1, 0), Some(4));
    assert_eq!(m.get(2, 0), None);
    assert_eq!(m.get(0, 3), None);
}

#[test]
fn matrix_filled_and_set() {
    let mut m: Matrix<i64> = Matrix::filled(2, 2, 7).unwrap();
    assert_eq!(m.get(1, 1), Some(7));
    m.set_cell(0, 1, 9);
    assert_eq!(m.cell(0, 1), 9);
    assert_eq!(m.into_row_major(), vec![7, 9, 7, 7]);
    assert!(Matrix::filled(usize::MAX, 2, 0i64).is_none());
}

#[test]
fn more_rows_than_can_be_counted_are_refused() {
    let tall: Matrix<f64> = mat(usize::MAX, 0, vec![]);
    let one: Matrix<f64> = mat(1, 0, vec![]);
    assert_eq!(compose_v_mat(tall, one).err(), Some(Error::LimitExceeded));
    let wide: Matrix<f64> = mat(0, usize::MAX, vec![]);
    let other: Matrix<f64> = mat(0, 1, vec![]);
    assert_eq!(compose_h_mat(wide, other).err(), Some(Error::LimitExceeded));
    assert_eq!(
        compose_sqr_mat(
            mat(usize::MAX, 0, vec![]),
            mat(usize::MAX, 0, vec![]),
            mat(1, 0, vec![]),
            mat(1, 0, vec![])
        )
        .err(),
        Some(Error::LimitExceeded)
    );
    // a mismatch is reported first
    assert_eq!(
        compose_v_mat(mat(usize::MAX, 0, vec![]), mat_2_2()).err(),
        Some(Error::DimensionMismatch)
    );
}
