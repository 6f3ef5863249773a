use crate::factor::{
    flow, gram, lemma_gram_is_rel, lemma_gram_of_offspring, lemma_mendel_by_parents, mendel,
};
use crate::inverse::{
    coefficient, inverse_entry, inverse_terms, lemma_inverse_terms_sum, term_sum, variances_held,
    weight_value, Term,
};
use crate::kinship::rel;
use crate::pedigree::{dam, sire};
use vstd::prelude::*;

verus! {

/// What is left of the relationship between `c` and `j` after half of the
/// relationships of the known parents of `c` to `j` is taken away.
pub open spec fn residual(p: Seq<(i64, i64, i64)>, c: int, j: int) -> real {
    let s = sire(p, c);
    let d = dam(p, c);
    rel(p, c, j) - (if 0 <= s < c {
        rel(p, s, j) / 2real
    } else {
        0real
    }) - (if 0 <= d < c {
        rel(p, d, j) / 2real
    } else {
        0real
    })
}

/// The sum over the individuals `k` before `upto` of the coefficient of `k`
/// in the terms of `c` times the relationship between `k` and `j`.
pub open spec fn coefficient_row(p: Seq<(i64, i64, i64)>, c: int, j: int, upto: int) -> real
    decreases upto,
{
    if upto <= 0 {
        0real
    } else {
        coefficient_row(p, c, j, upto - 1) + coefficient(p, c, upto - 1) * rel(p, upto - 1, j)
    }
}

/// The terms of one individual, applied to a column of the relationship
/// matrix, leave the residual of that individual.
proof fn lemma_coefficient_row(p: Seq<(i64, i64, i64)>, c: int, j: int, upto: int)
    requires
        0 <= c,
    ensures
        coefficient_row(p, c, j, upto) == (if upto > c {
            rel(p, c, j)
        } else {
            0real
        }) - (if 0 <= sire(p, c) < c && upto > sire(p, c) {
            rel(p, sire(p, c), j) / 2real
        } else {
            0real
        }) - (if 0 <= dam(p, c) < c && upto > dam(p, c) {
            rel(p, dam(p, c), j) / 2real
        } else {
            0real
        }),
    decreases upto,
{
    if upto > 0 {
        let k = upto - 1;
        lemma_coefficient_row(p, c, j, k);
        let s = sire(p, c);
        let d = dam(p, c);
        let q = coefficient(p, c, k);
        let r = rel(p, k, j);
        let one = if k == c {
            1real
        } else {
            0real
        };
        let hs = if 0 <= s < c && k == s {
            1real / 2real
        } else {
            0real
        };
        let hd = if 0 <= d < c && k == d {
            1real / 2real
        } else {
            0real
        };
        assert(q == one - hs - hd);
        assert(q * r == one * r - hs * r - hd * r) by (nonlinear_arith)
            requires
                q == one - hs - hd,
        ;
        assert(one * r == (if k == c {
            r
        } else {
            0real
        })) by (nonlinear_arith)
            requires
                one == (if k == c {
                    1real
                } else {
                    0real
                }),
        ;
        assert(hs * r == (if 0 <= s < c && k == s {
            r / 2real
        } else {
            0real
        })) by (nonlinear_arith)
            requires
                hs == (if 0 <= s < c && k == s {
                    1real / 2real
                } else {
                    0real
                }),
        ;
        assert(hd * r == (if 0 <= d < c && k == d {
            r / 2real
        } else {
            0real
        })) by (nonlinear_arith)
            requires
                hd == (if 0 <= d < c && k == d {
                    1real / 2real
                } else {
                    0real
                }),
        ;
    }
}

/// Past the position of `x`, the row of `x` has nothing more to add to a
/// product of rows.
proof fn lemma_gram_row_ends(p: Seq<(i64, i64, i64)>, x: int, y: int, upto: int)
    requires
        0 <= x < upto,
    ensures
        gram(p, x, y, upto) == gram(p, x, y, x + 1),
    decreases upto,
{
    if upto > x + 1 {
        lemma_gram_row_ends(p, x, y, upto - 1);
        let a = flow(p, x, upto - 1);
        let b = flow(p, y, upto - 1);
        let m = mendel(p, upto - 1);
        assert(a * b * m == 0real) by (nonlinear_arith)
            requires
                a == 0real,
        ;
    }
}

/// The residual of `c` against `j` is the Mendelian sampling variance of `c`
/// times the share of `c` that `j` carries: `(I - P) A = D T^T`.
pub proof fn lemma_residual(p: Seq<(i64, i64, i64)>, c: int, j: int)
    requires
        0 <= c < p.len(),
        0 <= j < p.len(),
    ensures
        residual(p, c, j) == mendel(p, c) * flow(p, j, c),
{
    let n = p.len() as int;
    let s = sire(p, c);
    let d = dam(p, c);
    lemma_gram_is_rel(p, c, j, n);
    lemma_gram_row_ends(p, c, j, n);
    lemma_gram_of_offspring(p, c, j, c);
    if 0 <= s < c {
        lemma_gram_is_rel(p, s, j, n);
        lemma_gram_row_ends(p, s, j, n);
        lemma_gram_row_ends(p, s, j, c);
    }
    if 0 <= d < c {
        lemma_gram_is_rel(p, d, j, n);
        lemma_gram_row_ends(p, d, j, n);
        lemma_gram_row_ends(p, d, j, c);
    }
    let f = flow(p, j, c);
    let v = mendel(p, c);
    assert(flow(p, c, c) == 1real);
    assert(1real * f * v == v * f) by (nonlinear_arith);
    assert(gram(p, c, j, c + 1) == gram(p, c, j, c) + flow(p, c, c) * f * v);
}

/// The sum over the individuals `c` before `upto` of the share of `c` that
/// `j` carries times the coefficient of `i` in the terms of `c`.
pub open spec fn flow_row(p: Seq<(i64, i64, i64)>, j: int, i: int, upto: int) -> real
    decreases upto,
{
    if upto <= 0 {
        0real
    } else {
        flow_row(p, j, i, upto - 1) + flow(p, j, upto - 1) * coefficient(p, upto - 1, i)
    }
}

/// `flow_row(p, x, i, upto)` for a known individual `x`, and zero for an
/// unknown one.
pub open spec fn flow_row_known(p: Seq<(i64, i64, i64)>, below: int, x: int, i: int, upto: int) -> real {
    if 0 <= x < below {
        flow_row(p, x, i, upto)
    } else {
        0real
    }
}

/// Before its own position an individual carries the mean of what its
/// parents carry.
proof fn lemma_flow_row_of_offspring(p: Seq<(i64, i64, i64)>, j: int, i: int, upto: int)
    requires
        0 <= j < p.len(),
        upto <= j,
    ensures
        flow_row(p, j, i, upto) == (flow_row_known(p, j, sire(p, j), i, upto) + flow_row_known(
            p,
            j,
            dam(p, j),
            i,
            upto,
        )) / 2real,
    decreases upto,
{
    if upto > 0 {
        lemma_flow_row_of_offspring(p, j, i, upto - 1);
        let s = sire(p, j);
        let d = dam(p, j);
        let c = upto - 1;
        let fs = if 0 <= s < j {
            flow(p, s, c)
        } else {
            0real
        };
        let fd = if 0 <= d < j {
            flow(p, d, c)
        } else {
            0real
        };
        let q = coefficient(p, c, i);
        assert(flow(p, j, c) == (fs + fd) / 2real);
        assert(((fs + fd) / 2real) * q == (fs * q + fd * q) / 2real) by (nonlinear_arith);
        assert(0real * q == 0real) by (nonlinear_arith);
    }
}

/// Past the position of `j` there is nothing more that `j` carries.
proof fn lemma_flow_row_ends(p: Seq<(i64, i64, i64)>, j: int, i: int, upto: int)
    requires
        0 <= j < upto,
    ensures
        flow_row(p, j, i, upto) == flow_row(p, j, i, j + 1),
    decreases upto,
{
    if upto > j + 1 {
        lemma_flow_row_ends(p, j, i, upto - 1);
        let q = coefficient(p, upto - 1, i);
        assert(0real * q == 0real) by (nonlinear_arith);
    }
}

/// The shares undo the coefficients: `T (I - P) = I`.
pub proof fn lemma_flow_row(p: Seq<(i64, i64, i64)>, j: int, i: int, upto: int)
    requires
        0 <= j < upto,
        j < p.len(),
    ensures
        flow_row(p, j, i, upto) == (if i == j {
            1real
        } else {
            0real
        }),
    decreases j,
{
    let s = sire(p, j);
    let d = dam(p, j);
    lemma_flow_row_ends(p, j, i, upto);
    lemma_flow_row_of_offspring(p, j, i, j);
    if 0 <= s < j {
        lemma_flow_row(p, s, i, j);
    }
    if 0 <= d < j {
        lemma_flow_row(p, d, i, j);
    }
    let q = coefficient(p, j, i);
    assert(flow(p, j, j) == 1real);
    assert(1real * q == q) by (nonlinear_arith);
    assert(flow_row(p, j, i, j + 1) == flow_row(p, j, i, j) + flow(p, j, j) * q);
}

/// The entry in row `i`, column `j` of the product of the exact inverse, as
/// far as the first `upto_c` individuals make it up, with the relationship
/// matrix, summed over the first `upto_k` places.
pub open spec fn product_entry(
    p: Seq<(i64, i64, i64)>,
    i: int,
    j: int,
    upto_c: int,
    upto_k: int,
) -> real
    decreases upto_k,
{
    if upto_k <= 0 {
        0real
    } else {
        product_entry(p, i, j, upto_c, upto_k - 1) + inverse_entry(p, true, upto_c, i, upto_k - 1)
            * rel(p, upto_k - 1, j)
    }
}

/// The same product, summed individual by individual: the weight of `c`,
/// its coefficient of `i`, and its terms applied to column `j` of the
/// relationship matrix.
pub open spec fn product_by_individual(
    p: Seq<(i64, i64, i64)>,
    i: int,
    j: int,
    upto_c: int,
    upto_k: int,
) -> real
    decreases upto_c,
{
    if upto_c <= 0 {
        0real
    } else {
        product_by_individual(p, i, j, upto_c - 1, upto_k) + weight_value(p, true, upto_c - 1)
            * coefficient(p, upto_c - 1, i) * coefficient_row(p, upto_c - 1, j, upto_k)
    }
}

/// One more individual adds its own part to the product.
proof fn lemma_product_step(p: Seq<(i64, i64, i64)>, i: int, j: int, upto_c: int, upto_k: int)
    requires
        upto_c > 0,
    ensures
        product_entry(p, i, j, upto_c, upto_k) == product_entry(p, i, j, upto_c - 1, upto_k)
            + weight_value(p, true, upto_c - 1) * coefficient(p, upto_c - 1, i) * coefficient_row(
            p,
            upto_c - 1,
            j,
            upto_k,
        ),
    decreases upto_k,
{
    if upto_k > 0 {
        let k = upto_k - 1;
        let c = upto_c - 1;
        lemma_product_step(p, i, j, upto_c, k);
        let w = weight_value(p, true, c);
        let qi = coefficient(p, c, i);
        let qk = coefficient(p, c, k);
        let r = rel(p, k, j);
        let before = inverse_entry(p, true, c, i, k);
        let row = coefficient_row(p, c, j, k);
        assert((before + w * qi * qk) * r == before * r + w * qi * (qk * r)) by (nonlinear_arith);
        assert(w * qi * (row + qk * r) == w * qi * row + w * qi * (qk * r)) by (nonlinear_arith);
    } else {
        let w = weight_value(p, true, upto_c - 1);
        let qi = coefficient(p, upto_c - 1, i);
        assert(w * qi * 0real == 0real) by (nonlinear_arith);
    }
}

/// The product can be summed place by place or individual by individual.
proof fn lemma_product_by_individual(
    p: Seq<(i64, i64, i64)>,
    i: int,
    j: int,
    upto_c: int,
    upto_k: int,
)
    ensures
        product_entry(p, i, j, upto_c, upto_k) == product_by_individual(p, i, j, upto_c, upto_k),
    decreases upto_c,
{
    if upto_c > 0 {
        lemma_product_by_individual(p, i, j, upto_c - 1, upto_k);
        lemma_product_step(p, i, j, upto_c, upto_k);
    } else {
        lemma_product_empty(p, i, j, upto_c, upto_k);
    }
}

/// With no individual, the product is zero.
proof fn lemma_product_empty(p: Seq<(i64, i64, i64)>, i: int, j: int, upto_c: int, upto_k: int)
    requires
        upto_c <= 0,
    ensures
        product_entry(p, i, j, upto_c, upto_k) == 0real,
    decreases upto_k,
{
    if upto_k > 0 {
        lemma_product_empty(p, i, j, upto_c, upto_k - 1);
        let r = rel(p, upto_k - 1, j);
        assert(0real * r == 0real) by (nonlinear_arith);
    }
}

/// Summed individual by individual, the product is what `j` carries of each
/// individual times that individual's coefficient of `i`.
proof fn lemma_product_is_flow_row(p: Seq<(i64, i64, i64)>, i: int, j: int, upto_c: int)
    requires
        0 <= j < p.len(),
        upto_c <= p.len(),
    ensures
        product_by_individual(p, i, j, upto_c, p.len() as int) == flow_row(p, j, i, upto_c),
    decreases upto_c,
{
    if upto_c > 0 {
        let c = upto_c - 1;
        let n = p.len() as int;
        lemma_product_is_flow_row(p, i, j, c);
        lemma_coefficient_row(p, c, j, n);
        lemma_residual(p, c, j);
        lemma_mendel_by_parents(p, c);
        let v = mendel(p, c);
        let w = weight_value(p, true, c);
        let f = flow(p, j, c);
        let q = coefficient(p, c, i);
        assert(coefficient_row(p, c, j, n) == residual(p, c, j));
        assert(w * v == 1real) by (nonlinear_arith)
            requires
                w == 1real / v,
                v > 0real,
        ;
        assert(w * q * (v * f) == f * q) by (nonlinear_arith)
            requires
                w * v == 1real,
        ;
    }
}

/// The exact inverse times the relationship matrix is the identity: the
/// entry in row `i`, column `j` of the product is one on the diagonal and
/// zero off it.
pub proof fn lemma_inverse_times_matrix(p: Seq<(i64, i64, i64)>, i: int, j: int)
    requires
        0 <= i < p.len(),
        0 <= j < p.len(),
    ensures
        product_entry(p, i, j, p.len() as int, p.len() as int) == (if i == j {
            1real
        } else {
            0real
        }),
{
    let n = p.len() as int;
    lemma_product_by_individual(p, i, j, n, n);
    lemma_product_is_flow_row(p, i, j, n);
    lemma_flow_row(p, j, i, n);
}

/// The entry in row `i`, column `j` of the product of the matrix that the
/// terms `ts` stand for with the relationship matrix, summed over the first
/// `upto` places.
pub open spec fn terms_product(
    p: Seq<(i64, i64, i64)>,
    ts: Seq<Term>,
    i: int,
    j: int,
    upto: int,
) -> real
    decreases upto,
{
    if upto <= 0 {
        0real
    } else {
        terms_product(p, ts, i, j, upto - 1) + term_sum(ts, i, upto - 1) * rel(p, upto - 1, j)
    }
}

/// Place by place, the terms of the exact inverse give the same product
/// with the relationship matrix as its entries do.
proof fn lemma_terms_product(p: Seq<(i64, i64, i64)>, i: int, j: int, upto: int)
    requires
        variances_held(p),
        p.len() <= usize::MAX,
    ensures
        terms_product(p, inverse_terms(p, true, p.len() as int), i, j, upto) == product_entry(
            p,
            i,
            j,
            p.len() as int,
            upto,
        ),
    decreases upto,
{
    if upto > 0 {
        lemma_terms_product(p, i, j, upto - 1);
        lemma_inverse_terms_sum(p, true, p.len() as int, i, upto - 1);
    }
}

/// What `inv_a_mat` returns for a pedigree is the inverse of what `a_mat`
/// returns for it: the terms of the exact inverse, summed place by place and
/// multiplied with the relationship matrix, give the identity matrix.
pub proof fn lemma_terms_times_matrix(p: Seq<(i64, i64, i64)>, i: int, j: int)
    requires
        variances_held(p),
        p.len() <= usize::MAX,
        0 <= i < p.len(),
        0 <= j < p.len(),
    ensures
        terms_product(p, inverse_terms(p, true, p.len() as int), i, j, p.len() as int) == (if i
            == j {
            1real
        } else {
            0real
        }),
{
    lemma_terms_product(p, i, j, p.len() as int);
    lemma_inverse_times_matrix(p, i, j);
}

} // verus!
