use gencov::error::Error;
use gencov::gen_cov::{a_mat, inv_a_mat, inv_a_mat_approx, ONE};
use gencov::inverse::Term;
use gencov::matrix::Matrix;
use gencov::pedigree::check_pedigree;

fn textbook() -> Vec<(i64, i64, i64)> {
    vec![(1, 0, 0), (2, 0, 0), (3, 1, 2), (4, 1, 0), (5, 4, 3), (6, 5, 2)]
}

fn as_floats(m: &Matrix<i128>) -> Vec<Vec<f64>> {
    let mut rows: Vec<Vec<f64>> = Vec::new();
    for i in 0..m.nrows() {
        let mut row: Vec<f64> = Vec::new();
        for j in 0..m.ncols() {
            row.push(m.get(i, j).unwrap() as f64 / ONE as f64);
        }
        rows.push(row);
    }
    rows
}

fn dense(n: usize, terms: &Vec<Term>) -> Vec<Vec<f64>> {
    let mut rows: Vec<Vec<f64>> = vec![vec![0.0; n]; n];
    for t in terms {
        rows[t.row][t.col] += t.num as f64 / t.den as f64;
    }
    rows
}

fn product(a: &Vec<Vec<f64>>, b: &Vec<Vec<f64>>) -> Vec<Vec<f64>> {
    let n: usize = a.len();
    let mut rows: Vec<Vec<f64>> = vec![vec![0.0; n]; n];
    for i in 0..n {
        for j in 0..n {
            for k in 0..n {
                rows[i][j] += a[i][k] * b[k][j];
            }
        }
    }
    rows
}

fn assert_close(got: &Vec<Vec<f64>>, want: &Vec<Vec<f64>>, tolerance: f64) {
    assert_eq!(got.len(), want.len());
    for i in 0..want.len() {
        assert_eq!(got[i].len(), want[i].len());
        for j in 0..want[i].len() {
            assert!(
                (got[i][j] - want[i][j]).abs() <= tolerance,
                "cell ({}, {}): got {}, want {}",
                i,
                j,
                got[i][j],
                want[i][j]
            );
        }
    }
}

fn identity(n: usize) -> Vec<Vec<f64>> {
    let mut rows: Vec<Vec<f64>> = vec![vec![0.0; n]; n];
    for i in 0..n {
        rows[i][i] = 1.0;
    }
    rows
}

#[test]
fn textbook_relationship_matrix() {
    let a: Matrix<i128> = a_mat(&textbook()).unwrap();
    assert_eq!(a.nrows(), 6);
    assert_eq!(a.ncols(), 6);
    let want: Vec<Vec<f64>> = vec![
        vec![1.0, 0.0, 0.5, 0.5, 0.5, 0.25],
        vec![0.0, 1.0, 0.5, 0.0, 0.25, 0.625],
        vec![0.5, 0.5, 1.0, 0.25, 0.625, 0.5625],
        vec![0.5, 0.0, 0.25, 1.0, 0.625, 0.3125],
        vec![0.5, 0.25, 0.625, 0.625, 1.125, 0.6875],
        vec![0.25, 0.625, 0.5625, 0.3125, 0.6875, 1.125],
    ];
    assert_eq!(as_floats(&a), want);
}

#[test]
fn textbook_cells_are_exact_multiples() {
    let a: Matrix<i128> = a_mat(&textbook()).unwrap();
    assert_eq!(ONE, 1i128 << 120);
    assert_eq!(a.get(2, 2), Some(ONE));
    assert_eq!(a.get(4, 4), Some(ONE + ONE / 8));
    assert_eq!(a.get(4, 4), Some(1495381495258030357016782942815387648));
    assert_eq!(a.get(5, 2), Some(ONE / 2 + ONE / 16));
    assert_eq!(a.get(0, 1), Some(0));
}

#[test]
fn textbook_inverse_times_matrix_is_identity() {
    let ped: Vec<(i64, i64, i64)> = textbook();
    let a: Vec<Vec<f64>> = as_floats(&a_mat(&ped).unwrap());
    let a_inv: Vec<Vec<f64>> = dense(6, &inv_a_mat(&ped).unwrap());
    assert_close(&product(&a_inv, &a), &identity(6), 1e-9);
    assert_close(&product(&a, &a_inv), &identity(6), 1e-9);
}

#[test]
fn textbook_inverse_entries() {
    let a_inv: Vec<Vec<f64>> = dense(6, &inv_a_mat(&textbook()).unwrap());
    let want: Vec<Vec<f64>> = vec![
        vec![11.0 / 6.0, 0.5, -1.0, -2.0 / 3.0, 0.0, 0.0],
        vec![0.5, 61.0 / 30.0, -1.0, 0.0, 8.0 / 15.0, -16.0 / 15.0],
        vec![-1.0, -1.0, 2.5, 0.5, -1.0, 0.0],
        vec![-2.0 / 3.0, 0.0, 0.5, 11.0 / 6.0, -1.0, 0.0],
        vec![0.0, 8.0 / 15.0, -1.0, -1.0, 38.0 / 15.0, -16.0 / 15.0],
        vec![0.0, -16.0 / 15.0, 0.0, 0.0, -16.0 / 15.0, 32.0 / 15.0],
    ];
    assert_close(&a_inv, &want, 1e-12);
}

#[test]
fn textbook_approximate_inverse_entries() {
    let a_inv: Vec<Vec<f64>> = dense(6, &inv_a_mat_approx(&textbook()).unwrap());
    let want: Vec<Vec<f64>> = vec![
        vec![11.0 / 6.0, 0.5, -1.0, -2.0 / 3.0, 0.0, 0.0],
        vec![0.5, 2.0, -1.0, 0.0, 0.5, -1.0],
        vec![-1.0, -1.0, 2.5, 0.5, -1.0, 0.0],
        vec![-2.0 / 3.0, 0.0, 0.5, 11.0 / 6.0, -1.0, 0.0],
        vec![0.0, 0.5, -1.0, -1.0, 2.5, -1.0],
        vec![0.0, -1.0, 0.0, 0.0, -1.0, 2.0],
    ];
    assert_close(&a_inv, &want, 1e-12);
}

#[test]
fn exact_inverse_terms_of_an_inbred_parent() {
    // Individual 6 has the inbred parent 5, whose relationship to itself is
    // 9/8: the sampling variance of 6 is 1 - (9/8 + 1)/4 = 15/32. Weights are
    // counted in quarters of ONE.
    let terms: Vec<Term> = inv_a_mat(&textbook()).unwrap();
    let whole: i128 = 4 * ONE;
    let variance: i128 = whole / 32 * 15;
    let tail: Vec<Term> = terms[terms.len() - 9..].to_vec();
    assert_eq!(
        tail,
        vec![
            Term { row: 5, col: 5, num: whole, den: variance },
            Term { row: 5, col: 4, num: -whole, den: 2 * variance },
            Term { row: 5, col: 1, num: -whole, den: 2 * variance },
            Term { row: 4, col: 5, num: -whole, den: 2 * variance },
            Term { row: 1, col: 5, num: -whole, den: 2 * variance },
            Term { row: 4, col: 4, num: whole, den: 4 * variance },
            Term { row: 1, col: 1, num: whole, den: 4 * variance },
            Term { row: 4, col: 1, num: whole, den: 4 * variance },
            Term { row: 1, col: 4, num: whole, den: 4 * variance },
        ]
    );
}

#[test]
fn approximate_inverse_terms_in_order() {
    let terms: Vec<Term> = inv_a_mat_approx(&vec![(1, 0, 0), (2, 0, 1), (3, 1, 2)]).unwrap();
    assert_eq!(
        terms,
        vec![
            Term { row: 0, col: 0, num: 1, den: 1 },
            Term { row: 1, col: 1, num: 4, den: 3 },
            Term { row: 1, col: 0, num: -4, den: 6 },
            Term { row: 0, col: 1, num: -4, den: 6 },
            Term { row: 0, col: 0, num: 4, den: 12 },
            Term { row: 2, col: 2, num: 2, den: 1 },
            Term { row: 2, col: 0, num: -2, den: 2 },
            Term { row: 2, col: 1, num: -2, den: 2 },
            Term { row: 0, col: 2, num: -2, den: 2 },
            Term { row: 1, col: 2, num: -2, den: 2 },
            Term { row: 0, col: 0, num: 2, den: 4 },
            Term { row: 1, col: 1, num: 2, den: 4 },
            Term { row: 0, col: 1, num: 2, den: 4 },
            Term { row: 1, col: 0, num: 2, den: 4 },
        ]
    );
}

#[test]
fn exact_inverse_terms_without_inbreeding() {
    let terms: Vec<Term> = inv_a_mat(&vec![(1, 0, 0), (2, 1, 0)]).unwrap();
    let whole: i128 = 4 * ONE;
    let variance: i128 = whole / 4 * 3;
    assert_eq!(
        terms,
        vec![
            Term { row: 0, col: 0, num: whole, den: whole },
            Term { row: 1, col: 1, num: whole, den: variance },
            Term { row: 1, col: 0, num: -whole, den: 2 * variance },
            Term { row: 0, col: 1, num: -whole, den: 2 * variance },
            Term { row: 0, col: 0, num: whole, den: 4 * variance },
        ]
    );
}

#[test]
fn relationship_matrix_is_symmetric_with_diagonal_of_at_least_one() {
    let ped: Vec<(i64, i64, i64)> = vec![
        (1, 0, 0),
        (2, 0, 0),
        (3, 1, 2),
        (4, 1, 2),
        (5, 3, 4),
        (6, 3, 4),
        (7, 5, 6),
        (8, 7, 5),
    ];
    let a: Matrix<i128> = a_mat(&ped).unwrap();
    for i in 0..8usize {
        assert!(a.get(i, i).unwrap() >= ONE);
        for j in 0..8usize {
            assert_eq!(a.get(i, j), a.get(j, i));
            assert!(a.get(i, j).unwrap() >= 0);
            assert!(a.get(i, j).unwrap() < 2 * ONE);
        }
    }
    // full sibs 3 and 4 are not inbred, their offspring 5 is
    assert_eq!(a.get(2, 2), Some(ONE));
    assert_eq!(a.get(4, 4), Some(ONE + ONE / 4));
    // 7 comes from the full sibs 5 and 6
    assert_eq!(a.get(6, 6), Some(ONE + ONE / 8 * 3));
}

#[test]
fn inbred_pedigree_round_trips() {
    let ped: Vec<(i64, i64, i64)> = vec![
        (1, 0, 0),
        (2, 0, 0),
        (3, 1, 2),
        (4, 1, 2),
        (5, 3, 4),
        (6, 3, 4),
        (7, 5, 6),
        (8, 7, 5),
    ];
    let a: Vec<Vec<f64>> = as_floats(&a_mat(&ped).unwrap());
    let a_inv: Vec<Vec<f64>> = dense(8, &inv_a_mat(&ped).unwrap());
    assert_close(&product(&a_inv, &a), &identity(8), 1e-9);
}

#[test]
fn variants_coincide_without_inbred_parents() {
    // 4 is inbred (its parents are half sibs) but has no offspring
    let ped: Vec<(i64, i64, i64)> = vec![(1, 0, 0), (2, 1, 0), (3, 1, 0), (4, 2, 3)];
    let exact: Vec<Vec<f64>> = dense(4, &inv_a_mat(&ped).unwrap());
    let approx: Vec<Vec<f64>> = dense(4, &inv_a_mat_approx(&ped).unwrap());
    assert_close(&exact, &approx, 0.0);
}

#[test]
fn variants_differ_with_an_inbred_parent() {
    let ped: Vec<(i64, i64, i64)> = vec![(1, 0, 0), (2, 1, 0), (3, 1, 0), (4, 2, 3), (5, 4, 0)];
    let exact: Vec<Vec<f64>> = dense(5, &inv_a_mat(&ped).unwrap());
    let approx: Vec<Vec<f64>> = dense(5, &inv_a_mat_approx(&ped).unwrap());
    // the parent 4 has a relationship of 9/8 to itself: 1 / (1 - 9/32) = 32/23
    assert!((exact[4][4] - 32.0 / 23.0).abs() < 1e-12);
    assert!((approx[4][4] - 4.0 / 3.0).abs() < 1e-12);
    let a: Vec<Vec<f64>> = as_floats(&a_mat(&ped).unwrap());
    assert_close(&product(&exact, &a), &identity(5), 1e-9);
}

#[test]
fn parent_after_offspring_is_refused() {
    let ped: Vec<(i64, i64, i64)> = vec![(1, 2, 0), (2, 0, 0)];
    assert_eq!(check_pedigree(&ped), Err(Error::InvalidPedigreeOrder));
    assert_eq!(a_mat(&ped).err(), Some(Error::InvalidPedigreeOrder));
    assert_eq!(inv_a_mat(&ped).err(), Some(Error::InvalidPedigreeOrder));
    assert_eq!(inv_a_mat_approx(&ped).err(), Some(Error::InvalidPedigreeOrder));
}

#[test]
fn own_parent_is_refused() {
    let ped: Vec<(i64, i64, i64)> = vec![(1, 0, 0), (2, 1, 2)];
    assert_eq!(a_mat(&ped).err(), Some(Error::InvalidPedigreeOrder));
}

#[test]
fn ids_out_of_sequence_are_refused() {
    assert_eq!(
        check_pedigree(&vec![(1, 0, 0), (3, 0, 0)]),
        Err(Error::InvalidPedigreeOrder)
    );
    assert_eq!(check_pedigree(&vec![(0, 0, 0)]), Err(Error::InvalidPedigreeOrder));
    assert_eq!(check_pedigree(&vec![(2, 0, 0), (1, 0, 0)]), Err(Error::InvalidPedigreeOrder));
}

#[test]
fn parent_outside_the_pedigree_is_refused() {
    let ped: Vec<(i64, i64, i64)> = vec![(1, 0, 0), (2, 1, 5)];
    assert_eq!(check_pedigree(&ped), Err(Error::UnknownIndividual));
    assert_eq!(a_mat(&ped).err(), Some(Error::UnknownIndividual));
    assert_eq!(inv_a_mat(&ped).err(), Some(Error::UnknownIndividual));
    assert_eq!(inv_a_mat_approx(&ped).err(), Some(Error::UnknownIndividual));
    assert_eq!(check_pedigree(&vec![(1, -1, 0)]), Err(Error::UnknownIndividual));
}

#[test]
fn first_fault_is_reported() {
    // entry 2 is out of order, entry 3 names nobody
    let ped: Vec<(i64, i64, i64)> = vec![(1, 0, 0), (2, 2, 0), (3, 9, 0)];
    assert_eq!(check_pedigree(&ped), Err(Error::InvalidPedigreeOrder));
    // the other way round
    let ped: Vec<(i64, i64, i64)> = vec![(1, 0, 0), (2, 9, 0), (3, 3, 0)];
    assert_eq!(check_pedigree(&ped), Err(Error::UnknownIndividual));
}

#[test]
fn empty_pedigree_gives_empty_results() {
    let ped: Vec<(i64, i64, i64)> = Vec::new();
    assert_eq!(check_pedigree(&ped), Ok(()));
    let a: Matrix<i128> = a_mat(&ped).unwrap();
    assert_eq!(a.nrows(), 0);
    assert_eq!(a.ncols(), 0);
    assert_eq!(inv_a_mat(&ped).unwrap(), Vec::new());
    assert_eq!(inv_a_mat_approx(&ped).unwrap(), Vec::new());
}

fn chain(generations: usize) -> Vec<(i64, i64, i64)> {
    let mut ped: Vec<(i64, i64, i64)> = vec![(1, 0, 0)];
    for g in 1..=generations {
        ped.push((g as i64 + 1, g as i64, 0));
    }
    ped
}

#[test]
fn chain_of_thirty_two_is_answered_by_every_function() {
    // 31 generations below the founder, and nobody inbred
    let ped: Vec<(i64, i64, i64)> = chain(31);
    assert_eq!(ped.len(), 32);
    let a: Matrix<i128> = a_mat(&ped).unwrap();
    assert_eq!(a.get(31, 0), Some(ONE >> 31));
    assert_eq!(a.get(31, 31), Some(ONE));
    let exact: Vec<Vec<f64>> = dense(32, &inv_a_mat(&ped).unwrap());
    let approx: Vec<Vec<f64>> = dense(32, &inv_a_mat_approx(&ped).unwrap());
    assert_close(&exact, &approx, 0.0);
    assert_close(&product(&exact, &as_floats(&a)), &identity(32), 1e-9);
}

#[test]
fn deepest_chain_that_a_cell_holds() {
    let ped: Vec<(i64, i64, i64)> = chain(120);
    let a: Matrix<i128> = a_mat(&ped).unwrap();
    // the last individual carries 1 / 2^120 of the founder: the last bit
    assert_eq!(a.get(120, 0), Some(1));
    assert_eq!(a.get(120, 119), Some(ONE / 2));
    let exact: Vec<Vec<f64>> = dense(121, &inv_a_mat(&ped).unwrap());
    let approx: Vec<Vec<f64>> = dense(121, &inv_a_mat_approx(&ped).unwrap());
    assert_close(&exact, &approx, 0.0);
    assert_close(&product(&exact, &as_floats(&a)), &identity(121), 1e-9);
}

#[test]
fn relationship_below_the_last_bit_is_refused() {
    // the last individual carries 1 / 2^121 of the founder
    let ped: Vec<(i64, i64, i64)> = chain(121);
    assert_eq!(check_pedigree(&ped), Ok(()));
    assert_eq!(a_mat(&ped).err(), Some(Error::LimitExceeded));
}

#[test]
fn inverse_of_a_chain_of_any_depth() {
    // nobody is inbred, so every weight is 1 or 4/3 however deep the chain
    for generations in [121usize, 200, 500] {
        let ped: Vec<(i64, i64, i64)> = chain(generations);
        let n: usize = ped.len();
        let exact: Vec<Vec<f64>> = dense(n, &inv_a_mat(&ped).unwrap());
        let approx: Vec<Vec<f64>> = dense(n, &inv_a_mat_approx(&ped).unwrap());
        assert_close(&exact, &approx, 0.0);
        assert_eq!(exact[0][0], 1.0 + 1.0 / 3.0);
        assert_eq!(exact[n - 1][n - 1], 4.0 / 3.0);
    }
}

#[test]
fn inbreeding_below_the_last_bit_is_refused() {
    // 127 comes from the founder and its descendant 125 generations on, so
    // its inbreeding is 1 / 2^126: no cell holds its relationship to itself
    let mut ped: Vec<(i64, i64, i64)> = chain(125);
    ped.push((127, 126, 1));
    // as long as 127 is nobody's parent, no weight needs that relationship
    let lone: Vec<Vec<f64>> = dense(127, &inv_a_mat(&ped).unwrap());
    assert_eq!(lone[126][126], 2.0);
    assert_eq!(a_mat(&ped).err(), Some(Error::LimitExceeded));
    ped.push((128, 127, 0));
    assert_eq!(check_pedigree(&ped), Ok(()));
    assert_eq!(inv_a_mat(&ped).err(), Some(Error::LimitExceeded));
    assert!(inv_a_mat_approx(&ped).is_ok());
}

#[test]
fn deep_inbreeding_is_exact() {
    // full sibs mated to each other for 40 generations
    let mut ped: Vec<(i64, i64, i64)> = vec![(1, 0, 0), (2, 0, 0)];
    for g in 1..=40i64 {
        ped.push((2 * g + 1, 2 * g - 1, 2 * g));
        ped.push((2 * g + 2, 2 * g - 1, 2 * g));
    }
    let a: Matrix<i128> = a_mat(&ped).unwrap();
    let cells: Vec<Vec<f64>> = as_floats(&a);
    let n: usize = ped.len();
    // the inbreeding of full-sib lines rises towards one
    assert!(cells[n - 1][n - 1] > 1.99);
    assert!(a.get(n - 1, n - 1).unwrap() < 2 * ONE);
    let a_inv: Vec<Vec<f64>> = dense(n, &inv_a_mat(&ped).unwrap());
    assert_close(&product(&a_inv, &cells), &identity(n), 1e-6);
}

#[test]
fn quadratic_form_is_never_negative() {
    let a: Vec<Vec<f64>> = as_floats(&a_mat(&textbook()).unwrap());
    let vectors: Vec<Vec<f64>> = vec![
        vec![1.0, 0.0, 0.0, 0.0, 0.0, 0.0],
        vec![1.0, -1.0, 1.0, -1.0, 1.0, -1.0],
        vec![0.5, 0.5, -1.0, 0.0, 0.0, 0.0],
        vec![0.0, -0.5, 0.0, 0.0, -0.5, 1.0],
        vec![-3.0, 2.0, 0.25, 7.0, -1.5, 0.125],
    ];
    for x in &vectors {
        let mut form: f64 = 0.0;
        for i in 0..6usize {
            for j in 0..6usize {
                form += x[i] * a[i][j] * x[j];
            }
        }
        assert!(form >= 0.0, "x = {:?} gives {}", x, form);
    }
    // 3 less the mean of its parents 1 and 2 leaves its sampling variance
    let x: &Vec<f64> = &vectors[2];
    let mut form: f64 = 0.0;
    for i in 0..6usize {
        for j in 0..6usize {
            form += x[i] * a[i][j] * x[j];
        }
    }
    assert_eq!(form, 0.5);
}

#[test]
fn inverse_is_symmetric() {
    let ped: Vec<(i64, i64, i64)> = vec![
        (1, 0, 0),
        (2, 0, 0),
        (3, 1, 2),
        (4, 1, 2),
        (5, 3, 4),
        (6, 3, 4),
        (7, 5, 6),
        (8, 7, 5),
    ];
    let exact: Vec<Vec<f64>> = dense(8, &inv_a_mat(&ped).unwrap());
    let approx: Vec<Vec<f64>> = dense(8, &inv_a_mat_approx(&ped).unwrap());
    for i in 0..8usize {
        for j in 0..8usize {
            assert_eq!(exact[i][j], exact[j][i]);
            assert_eq!(approx[i][j], approx[j][i]);
        }
    }
}

#[test]
fn same_individual_as_sire_and_dam() {
    // a selfed plant: both parents are individual 1
    let ped: Vec<(i64, i64, i64)> = vec![(1, 0, 0), (2, 1, 1)];
    let a: Matrix<i128> = a_mat(&ped).unwrap();
    assert_eq!(a.get(1, 0), Some(ONE));
    assert_eq!(a.get(1, 1), Some(ONE + ONE / 2));
    let a_inv: Vec<Vec<f64>> = dense(2, &inv_a_mat(&ped).unwrap());
    assert_close(&a_inv, &vec![vec![3.0, -2.0], vec![-2.0, 2.0]], 1e-12);
    assert_close(&product(&a_inv, &as_floats(&a)), &identity(2), 1e-12);
}
