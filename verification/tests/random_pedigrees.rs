use gencov::gen_cov::{a_mat, inv_a_mat, inv_a_mat_approx, ONE};
use gencov::inverse::Term;
use gencov::matrix::Matrix;

/// A small linear congruential generator, so that the pedigrees are the same
/// in every run.
struct Lcg(u64);

impl Lcg {
    fn below(&mut self, bound: u64) -> u64 {
        self.0 = self.0.wrapping_mul(6364136223846793005).wrapping_add(1442695040888963407);
        (self.0 >> 33) % bound
    }
}

/// A pedigree of `n` individuals in overlapping generations: each one after
/// the first few picks its parents among the ten before it, and now and then
/// has one parent or none.
fn herd(n: usize, seed: u64) -> Vec<(i64, i64, i64)> {
    let mut rng: Lcg = Lcg(seed);
    let mut ped: Vec<(i64, i64, i64)> = Vec::new();
    for i in 0..n {
        let id: i64 = i as i64 + 1;
        let span: u64 = if i < 10 { i as u64 } else { 10 };
        let mut pick = |rng: &mut Lcg| -> i64 {
            if span == 0 || rng.below(5) == 0 {
                0
            } else {
                id - 1 - rng.below(span) as i64
            }
        };
        let sire: i64 = pick(&mut rng);
        let dam: i64 = pick(&mut rng);
        ped.push((id, sire, dam));
    }
    ped
}

/// The relationship matrix in floating point, by the tabular method.
fn tabular(ped: &Vec<(i64, i64, i64)>) -> Vec<Vec<f64>> {
    let n: usize = ped.len();
    let mut a: Vec<Vec<f64>> = vec![vec![0.0; n]; n];
    for &(id, sire, dam) in ped {
        let i: usize = (id - 1) as usize;
        for j in 0..i {
            let mut sum: f64 = 0.0;
            if sire > 0 {
                sum += a[j][(sire - 1) as usize];
            }
            if dam > 0 {
                sum += a[j][(dam - 1) as usize];
            }
            a[i][j] = 0.5 * sum;
            a[j][i] = a[i][j];
        }
        a[i][i] = if sire > 0 && dam > 0 {
            1.0 + 0.5 * a[(sire - 1) as usize][(dam - 1) as usize]
        } else {
            1.0
        };
    }
    a
}

fn as_floats(m: &Matrix<i128>) -> Vec<Vec<f64>> {
    let mut rows: Vec<Vec<f64>> = Vec::new();
    for i in 0..m.nrows() {
        let mut row: Vec<f64> = Vec::new();
        for j in 0..m.ncols() {
            row.push(m.get(i, j).unwrap() as f64 / ONE as f64);
        }
        rows.push(row);
    }
    rows
}

fn dense(n: usize, terms: &Vec<Term>) -> Vec<Vec<f64>> {
    let mut rows: Vec<Vec<f64>> = vec![vec![0.0; n]; n];
    for t in terms {
        rows[t.row][t.col] += t.num as f64 / t.den as f64;
    }
    rows
}

fn furthest_from_identity(a: &Vec<Vec<f64>>, b: &Vec<Vec<f64>>) -> f64 {
    let n: usize = a.len();
    let mut worst: f64 = 0.0;
    for i in 0..n {
        for j in 0..n {
            let mut cell: f64 = 0.0;
            for k in 0..n {
                cell += a[i][k] * b[k][j];
            }
            let want: f64 = if i == j { 1.0 } else { 0.0 };
            worst = worst.max((cell - want).abs());
        }
    }
    worst
}

#[test]
fn herds_agree_with_the_tabular_method() {
    for seed in 1..=20u64 {
        let ped: Vec<(i64, i64, i64)> = herd(40, seed);
        let exact: Vec<Vec<f64>> = as_floats(&a_mat(&ped).unwrap());
        let floating: Vec<Vec<f64>> = tabular(&ped);
        for i in 0..40usize {
            for j in 0..40usize {
                assert!(
                    (exact[i][j] - floating[i][j]).abs() <= 1e-12,
                    "seed {}, cell ({}, {}): {} against {}",
                    seed,
                    i,
                    j,
                    exact[i][j],
                    floating[i][j]
                );
            }
        }
    }
}

#[test]
fn herds_round_trip() {
    let mut inbred: usize = 0;
    for seed in 21..=40u64 {
        let ped: Vec<(i64, i64, i64)> = herd(40, seed);
        let a: Vec<Vec<f64>> = as_floats(&a_mat(&ped).unwrap());
        let a_inv: Vec<Vec<f64>> = dense(40, &inv_a_mat(&ped).unwrap());
        let worst: f64 = furthest_from_identity(&a_inv, &a);
        assert!(worst <= 1e-9, "seed {}: off by {}", seed, worst);
        if (0..40usize).any(|i| a[i][i] > 1.0) {
            inbred += 1;
        }
    }
    assert!(inbred >= 5);
}

#[test]
fn herds_with_inbred_parents_need_the_exact_inverse() {
    for seed in 41..=60u64 {
        let ped: Vec<(i64, i64, i64)> = herd(40, seed);
        let a: Vec<Vec<f64>> = as_floats(&a_mat(&ped).unwrap());
        let exact: Vec<Vec<f64>> = dense(40, &inv_a_mat(&ped).unwrap());
        let approx: Vec<Vec<f64>> = dense(40, &inv_a_mat_approx(&ped).unwrap());
        let inbred_parent: bool = ped.iter().any(|&(_, sire, dam)| {
            (sire > 0 && a[(sire - 1) as usize][(sire - 1) as usize] > 1.0)
                || (dam > 0 && a[(dam - 1) as usize][(dam - 1) as usize] > 1.0)
        });
        assert_eq!(exact != approx, inbred_parent, "seed {}", seed);
    }
}
