use crate::kinship::{lemma_rel_bounds, lemma_rel_symmetric, rel};
use crate::pedigree::{dam, sire};
use vstd::prelude::*;

verus! {

/// The share of the genes of the individual at position `j` that the one at
/// position `i` is expected to carry by descent: the entry `(i, j)` of the
/// unit lower triangular factor `T` of the relationship matrix. Each parent
/// hands down half of its own shares.
pub open spec fn flow(p: Seq<(i64, i64, i64)>, i: int, j: int) -> real
    decreases i,
{
    if !(0 <= j <= i < p.len()) {
        0real
    } else if i == j {
        1real
    } else {
        let s = sire(p, i);
        let d = dam(p, i);
        ((if 0 <= s < i {
            flow(p, s, j)
        } else {
            0real
        }) + (if 0 <= d < i {
            flow(p, d, j)
        } else {
            0real
        })) / 2real
    }
}

/// The sum over the individuals `m` before position `upto` of
/// `flow(x, m) * flow(y, m) * mendel(m)`: the entry `(x, y)` of `T D T^T`
/// cut off at `upto`. With `L = T sqrt(D)` it is the product of the rows `x`
/// and `y` of `L`.
pub open spec fn gram(p: Seq<(i64, i64, i64)>, x: int, y: int, upto: int) -> real
    decreases upto, 1int,
{
    if upto <= 0 {
        0real
    } else {
        gram(p, x, y, upto - 1) + flow(p, x, upto - 1) * flow(p, y, upto - 1) * mendel(
            p,
            upto - 1,
        )
    }
}

/// The Mendelian sampling variance of the individual at position `i`, as a
/// share of the additive variance: the entry `i` of the diagonal factor `D`,
/// and the square of the diagonal entry of `L`. It is one less a quarter of
/// the squared lengths of the parents' rows of `L`.
pub open spec fn mendel(p: Seq<(i64, i64, i64)>, i: int) -> real
    decreases i + 1, 0int,
{
    if !(0 <= i < p.len()) {
        1real
    } else {
        let s = sire(p, i);
        let d = dam(p, i);
        1real - ((if 0 <= s < i {
            gram(p, s, s, s + 1)
        } else {
            0real
        }) + (if 0 <= d < i {
            gram(p, d, d, d + 1)
        } else {
            0real
        })) / 4real
    }
}

/// `gram(p, x, y, upto)` for a known individual `x`, and zero for an unknown
/// one.
pub open spec fn gram_known(p: Seq<(i64, i64, i64)>, below: int, x: int, y: int, upto: int) -> real {
    if 0 <= x < below {
        gram(p, x, y, upto)
    } else {
        0real
    }
}

/// The product of two rows does not depend on their order.
pub proof fn lemma_gram_symmetric(p: Seq<(i64, i64, i64)>, x: int, y: int, upto: int)
    ensures
        gram(p, x, y, upto) == gram(p, y, x, upto),
    decreases upto,
{
    if upto > 0 {
        lemma_gram_symmetric(p, x, y, upto - 1);
        let a = flow(p, x, upto - 1);
        let b = flow(p, y, upto - 1);
        let m = mendel(p, upto - 1);
        assert(a * b * m == b * a * m) by (nonlinear_arith);
    }
}

/// Nothing flows to an individual from a later one, so the terms past the
/// earlier of `x` and `y` add nothing.
pub proof fn lemma_gram_stops(p: Seq<(i64, i64, i64)>, x: int, y: int, upto: int)
    requires
        upto > x || upto > y,
        0 <= x,
        0 <= y,
    ensures
        gram(p, x, y, upto) == gram(
            p,
            x,
            y,
            if x <= y {
                x + 1
            } else {
                y + 1
            },
        ),
    decreases upto,
{
    let first = if x <= y {
        x
    } else {
        y
    };
    if upto > first + 1 {
        lemma_gram_stops(p, x, y, upto - 1);
        let a = flow(p, x, upto - 1);
        let b = flow(p, y, upto - 1);
        let m = mendel(p, upto - 1);
        assert(a == 0real || b == 0real);
        assert(a * b * m == 0real) by (nonlinear_arith)
            requires
                a == 0real || b == 0real,
        ;
    }
}

/// Before the position of `i`, the row of `i` is the mean of its parents'
/// rows, and so is its product with any other row.
pub proof fn lemma_gram_of_offspring(p: Seq<(i64, i64, i64)>, i: int, y: int, upto: int)
    requires
        0 <= i < p.len(),
        upto <= i,
    ensures
        gram(p, i, y, upto) == (gram_known(p, i, sire(p, i), y, upto) + gram_known(
            p,
            i,
            dam(p, i),
            y,
            upto,
        )) / 2real,
    decreases upto,
{
    if upto > 0 {
        lemma_gram_of_offspring(p, i, y, upto - 1);
        let s = sire(p, i);
        let d = dam(p, i);
        let m = upto - 1;
        let fs = if 0 <= s < i {
            flow(p, s, m)
        } else {
            0real
        };
        let fd = if 0 <= d < i {
            flow(p, d, m)
        } else {
            0real
        };
        let b = flow(p, y, m);
        let v = mendel(p, m);
        assert(flow(p, i, m) == (fs + fd) / 2real);
        assert(((fs + fd) / 2real) * b * v == (fs * b * v + fd * b * v) / 2real)
            by (nonlinear_arith);
        assert(0real * b * v == 0real) by (nonlinear_arith);
    }
}

/// The relationship matrix is `T D T^T`: the relationship between `x` and
/// `y` is the product of their rows of `L`, taken as far as the earlier of
/// the two or further.
pub proof fn lemma_gram_is_rel(p: Seq<(i64, i64, i64)>, x: int, y: int, upto: int)
    requires
        0 <= x < p.len(),
        0 <= y < p.len(),
        upto > x || upto > y,
    ensures
        gram(p, x, y, upto) == rel(p, x, y),
    decreases
            (if x >= y {
                x
            } else {
                y
            }),
            (if x < y {
                1int
            } else {
                0int
            }),
{
    if x < y {
        lemma_gram_symmetric(p, x, y, upto);
        lemma_gram_is_rel(p, y, x, upto);
    } else {
        lemma_gram_stops(p, x, y, upto);
        let s = sire(p, x);
        let d = dam(p, x);
        if x == y {
            // the row of x before its own position, in terms of its parents' rows
            lemma_gram_of_offspring(p, x, x, x);
            if 0 <= s < x {
                lemma_gram_symmetric(p, s, x, x);
                lemma_gram_of_offspring(p, x, s, x);
                lemma_gram_is_rel(p, s, s, x);
                lemma_gram_is_rel(p, s, s, s + 1);
                if 0 <= d < x {
                    lemma_gram_is_rel(p, d, s, x);
                    lemma_rel_symmetric(p, d, s);
                }
            }
            if 0 <= d < x {
                lemma_gram_symmetric(p, d, x, x);
                lemma_gram_of_offspring(p, x, d, x);
                lemma_gram_is_rel(p, d, d, x);
                lemma_gram_is_rel(p, d, d, d + 1);
                if 0 <= s < x {
                    lemma_gram_is_rel(p, s, d, x);
                }
            }
            let own = mendel(p, x);
            assert(flow(p, x, x) == 1real);
            assert(1real * 1real * own == own) by (nonlinear_arith);
            assert(gram(p, x, x, x + 1) == gram(p, x, x, x) + own);
        } else {
            lemma_gram_of_offspring(p, x, y, y + 1);
            if 0 <= s < x {
                lemma_gram_is_rel(p, s, y, y + 1);
                lemma_rel_symmetric(p, s, y);
            }
            if 0 <= d < x {
                lemma_gram_is_rel(p, d, y, y + 1);
                lemma_rel_symmetric(p, d, y);
            }
        }
    }
}

/// The Mendelian sampling variance is what is left of one after a quarter of
/// each known parent's relationship to itself is taken away.
pub proof fn lemma_mendel_by_parents(p: Seq<(i64, i64, i64)>, i: int)
    requires
        0 <= i < p.len(),
    ensures
        mendel(p, i) == 1real - ((if 0 <= sire(p, i) < i {
            rel(p, sire(p, i), sire(p, i))
        } else {
            0real
        }) + (if 0 <= dam(p, i) < i {
            rel(p, dam(p, i), dam(p, i))
        } else {
            0real
        })) / 4real,
        0real < mendel(p, i) <= 1real,
{
    let s = sire(p, i);
    let d = dam(p, i);
    if 0 <= s < i {
        lemma_gram_is_rel(p, s, s, s + 1);
        lemma_rel_bounds(p, s, s);
    }
    if 0 <= d < i {
        lemma_gram_is_rel(p, d, d, d + 1);
        lemma_rel_bounds(p, d, d);
    }
}

} // verus!
