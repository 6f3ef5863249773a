use crate::factor::{flow, gram, lemma_gram_is_rel, lemma_mendel_by_parents, mendel};
use crate::kinship::rel;
use vstd::prelude::*;

verus! {

/// The part of the quadratic form `x^T A x` that row `i` of the relationship
/// matrix and the first `upto` entries of `x` make up.
pub open spec fn quadratic_row(p: Seq<(i64, i64, i64)>, x: Seq<real>, i: int, upto: int) -> real
    decreases upto,
{
    if upto <= 0 {
        0real
    } else {
        quadratic_row(p, x, i, upto - 1) + x[i] * x[upto - 1] * rel(p, i, upto - 1)
    }
}

/// The quadratic form `x^T A x` of the relationship matrix, as far as its
/// first `upto` rows make it up.
pub open spec fn quadratic_form(p: Seq<(i64, i64, i64)>, x: Seq<real>, upto: int) -> real
    decreases upto,
{
    if upto <= 0 {
        0real
    } else {
        quadratic_form(p, x, upto - 1) + quadratic_row(p, x, upto - 1, p.len() as int)
    }
}

/// What the first `upto` entries of `x` carry of the individual at position
/// `m`: the entry `m` of `T^T x`.
pub open spec fn carried(p: Seq<(i64, i64, i64)>, x: Seq<real>, m: int, upto: int) -> real
    decreases upto,
{
    if upto <= 0 {
        0real
    } else {
        carried(p, x, m, upto - 1) + x[upto - 1] * flow(p, upto - 1, m)
    }
}

/// The quadratic form of `D` at `T^T x`, as far as the first `upto`
/// individuals make it up.
pub open spec fn sampling_form(p: Seq<(i64, i64, i64)>, x: Seq<real>, upto: int) -> real
    decreases upto,
{
    if upto <= 0 {
        0real
    } else {
        sampling_form(p, x, upto - 1) + mendel(p, upto - 1) * carried(
            p,
            x,
            upto - 1,
            p.len() as int,
        ) * carried(p, x, upto - 1, p.len() as int)
    }
}

/// A row of the quadratic form with the products of rows of `L`, cut off at
/// `k`, in the place of the relationships.
spec fn cut_row(p: Seq<(i64, i64, i64)>, x: Seq<real>, i: int, k: int, upto: int) -> real
    decreases upto,
{
    if upto <= 0 {
        0real
    } else {
        cut_row(p, x, i, k, upto - 1) + x[i] * x[upto - 1] * gram(p, i, upto - 1, k)
    }
}

/// The quadratic form with the products of rows of `L`, cut off at `k`, in
/// the place of the relationships.
spec fn cut_form(p: Seq<(i64, i64, i64)>, x: Seq<real>, k: int, upto: int) -> real
    decreases upto,
{
    if upto <= 0 {
        0real
    } else {
        cut_form(p, x, k, upto - 1) + cut_row(p, x, upto - 1, k, p.len() as int)
    }
}

/// Taking one more individual `k` into the products of rows adds, to row
/// `i` of the quadratic form, the variance of `k` times what `x[i]` and the
/// entries of `x` before `upto` carry of `k`.
proof fn lemma_cut_row_step(p: Seq<(i64, i64, i64)>, x: Seq<real>, i: int, k: int, upto: int)
    requires
        k >= 0,
    ensures
        cut_row(p, x, i, k + 1, upto) == cut_row(p, x, i, k, upto) + mendel(p, k) * (x[i] * flow(
            p,
            i,
            k,
        )) * carried(p, x, k, upto),
    decreases upto,
{
    let v = mendel(p, k);
    let xi = x[i];
    let fi = flow(p, i, k);
    let a = xi * fi;
    let w = v * a;
    let all = carried(p, x, k, upto);
    if upto > 0 {
        let j = upto - 1;
        lemma_cut_row_step(p, x, i, k, j);
        let xj = x[j];
        let fj = flow(p, j, k);
        let b = xj * fj;
        let pair = xi * xj;
        let both = fi * fj;
        let t = both * v;
        let g1 = gram(p, i, j, k + 1);
        let g0 = gram(p, i, j, k);
        let before = carried(p, x, k, j);
        assert(g1 == g0 + t);
        assert(all == before + b);
        assert(pair * both == a * b) by (nonlinear_arith)
            requires
                pair == xi * xj,
                both == fi * fj,
                a == xi * fi,
                b == xj * fj,
        ;
        assert(pair * t == w * b) by (nonlinear_arith)
            requires
                pair * both == a * b,
                t == both * v,
                w == v * a,
        ;
        assert(pair * g1 == pair * g0 + pair * t) by (nonlinear_arith)
            requires
                g1 == g0 + t,
        ;
        assert(w * all == w * before + w * b) by (nonlinear_arith)
            requires
                all == before + b,
        ;
    } else {
        assert(w * all == 0real) by (nonlinear_arith)
            requires
                all == 0real,
        ;
    }
}

/// Taking one more individual `k` into the products of rows adds, to the
/// first `upto` rows of the quadratic form, the variance of `k` times what
/// those rows and what all of `x` carry of `k`.
proof fn lemma_cut_form_step(p: Seq<(i64, i64, i64)>, x: Seq<real>, k: int, upto: int)
    requires
        k >= 0,
    ensures
        cut_form(p, x, k + 1, upto) == cut_form(p, x, k, upto) + mendel(p, k) * carried(
            p,
            x,
            k,
            upto,
        ) * carried(p, x, k, p.len() as int),
    decreases upto,
{
    let v = mendel(p, k);
    let whole = carried(p, x, k, p.len() as int);
    let all = carried(p, x, k, upto);
    if upto > 0 {
        let i = upto - 1;
        lemma_cut_form_step(p, x, k, i);
        lemma_cut_row_step(p, x, i, k, p.len() as int);
        let a = x[i] * flow(p, i, k);
        let before = carried(p, x, k, i);
        assert(all == before + a);
        assert(v * all * whole == v * before * whole + v * a * whole) by (nonlinear_arith)
            requires
                all == before + a,
        ;
    } else {
        assert(v * all * whole == 0real) by (nonlinear_arith)
            requires
                all == 0real,
        ;
    }
}

/// With no individual taken into the products of rows, a row of the
/// quadratic form is zero.
proof fn lemma_cut_row_empty(p: Seq<(i64, i64, i64)>, x: Seq<real>, i: int, upto: int)
    ensures
        cut_row(p, x, i, 0, upto) == 0real,
    decreases upto,
{
    if upto > 0 {
        lemma_cut_row_empty(p, x, i, upto - 1);
        let pair = x[i] * x[upto - 1];
        assert(pair * 0real == 0real) by (nonlinear_arith);
    }
}

/// With no individual taken into the products of rows, the quadratic form
/// is zero.
proof fn lemma_cut_form_empty(p: Seq<(i64, i64, i64)>, x: Seq<real>, upto: int)
    ensures
        cut_form(p, x, 0, upto) == 0real,
    decreases upto,
{
    if upto > 0 {
        lemma_cut_form_empty(p, x, upto - 1);
        lemma_cut_row_empty(p, x, upto - 1, p.len() as int);
    }
}

/// With the first `k` individuals taken into the products of rows, the
/// quadratic form is the quadratic form of `D` over those individuals.
proof fn lemma_cut_form_is_sampling_form(p: Seq<(i64, i64, i64)>, x: Seq<real>, k: int)
    requires
        0 <= k,
    ensures
        cut_form(p, x, k, p.len() as int) == sampling_form(p, x, k),
    decreases k,
{
    if k > 0 {
        lemma_cut_form_is_sampling_form(p, x, k - 1);
        lemma_cut_form_step(p, x, k - 1, p.len() as int);
    } else {
        lemma_cut_form_empty(p, x, p.len() as int);
    }
}

/// With every individual taken in, the products of rows are the
/// relationships, and so are the rows of the two quadratic forms.
proof fn lemma_cut_row_whole(p: Seq<(i64, i64, i64)>, x: Seq<real>, i: int, upto: int)
    requires
        0 <= i < p.len(),
        upto <= p.len(),
    ensures
        cut_row(p, x, i, p.len() as int, upto) == quadratic_row(p, x, i, upto),
    decreases upto,
{
    if upto > 0 {
        lemma_cut_row_whole(p, x, i, upto - 1);
        lemma_gram_is_rel(p, i, upto - 1, p.len() as int);
    }
}

/// With every individual taken in, the two quadratic forms are the same.
proof fn lemma_cut_form_whole(p: Seq<(i64, i64, i64)>, x: Seq<real>, upto: int)
    requires
        upto <= p.len(),
    ensures
        cut_form(p, x, p.len() as int, upto) == quadratic_form(p, x, upto),
    decreases upto,
{
    if upto > 0 {
        lemma_cut_form_whole(p, x, upto - 1);
        lemma_cut_row_whole(p, x, upto - 1, p.len() as int);
    }
}

/// The quadratic form of `D` is a sum of squares with positive weights.
proof fn lemma_sampling_form_nonnegative(p: Seq<(i64, i64, i64)>, x: Seq<real>, upto: int)
    requires
        upto <= p.len(),
    ensures
        sampling_form(p, x, upto) >= 0real,
    decreases upto,
{
    if upto > 0 {
        lemma_sampling_form_nonnegative(p, x, upto - 1);
        lemma_mendel_by_parents(p, upto - 1);
        let v = mendel(p, upto - 1);
        let c = carried(p, x, upto - 1, p.len() as int);
        assert(v * c * c >= 0real) by (nonlinear_arith)
            requires
                v > 0real,
        ;
    }
}

/// With `A = T D T^T`, the quadratic form of `A` at `x` is the quadratic
/// form of `D` at `T^T x`.
pub proof fn lemma_quadratic_form_factors(p: Seq<(i64, i64, i64)>, x: Seq<real>)
    ensures
        quadratic_form(p, x, p.len() as int) == sampling_form(p, x, p.len() as int),
{
    lemma_cut_form_whole(p, x, p.len() as int);
    lemma_cut_form_is_sampling_form(p, x, p.len() as int);
}

/// The relationship matrix is positive semi-definite: its quadratic form is
/// negative at no vector.
pub proof fn lemma_positive_semidefinite(p: Seq<(i64, i64, i64)>, x: Seq<real>)
    ensures
        quadratic_form(p, x, p.len() as int) >= 0real,
{
    lemma_quadratic_form_factors(p, x);
    lemma_sampling_form_nonnegative(p, x, p.len() as int);
}

} // verus!
