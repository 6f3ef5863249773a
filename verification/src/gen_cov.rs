use crate::error::Error;
use crate::factor::mendel;
use crate::inverse::{
    add_terms, inverse_terms, lemma_exact_weight, lemma_inverse_terms_sum, lemma_variants_agree,
    parents_not_inbred, term_sum, variances_held, Term,
};
use crate::kinship::{
    lemma_cell_range, lemma_rel_bounds, lemma_rel_symmetric, real_of, rel, representable, unit,
    whole,
};
use crate::matrix::Matrix;
use crate::pedigree::{check_pedigree, dam, first_fault, lemma_parents_precede, sire, valid_pedigree};
use vstd::prelude::*;

verus! {

/// The number of binary places behind the point in a cell of a relationship
/// matrix.
pub const FRACTION_BITS: usize = 120;

/// The cell value that stands for one: two to the power `FRACTION_BITS`.
pub const ONE: i128 = 0x1_0000_0000_0000_0000_0000_0000_0000_00;

/// Whether `a_mat` holds the relationship matrix of the pedigree exactly on
/// this machine: every relationship is a whole multiple of `1 / ONE`, and
/// the matrix has no more cells than a `usize` counts.
pub open spec fn within_limits(p: Seq<(i64, i64, i64)>) -> bool {
    representable(p) && p.len() * p.len() <= usize::MAX
}

/// The mean of the cells `x` and `y`, or the gap `-1` where it is no cell.
pub open spec fn mean_of(x: int, y: int) -> int {
    if mean_held(x, y) {
        (x + y) / 2
    } else {
        -1
    }
}

/// One and half the cell `x`, or the gap `-1` where that is no cell.
pub open spec fn diagonal_of(x: int) -> int {
    if mean_held(x, 0) {
        ONE + x / 2
    } else {
        -1
    }
}

/// The cell that the machine holds for the relationship between the
/// individuals at positions `a` and `b`: the relationship in units of
/// `1 / ONE`, worked out by the recurrence of `rel` in whole numbers, or the
/// gap `-1` where a halving on the way to it loses a bit.
pub open spec fn cell_of(p: Seq<(i64, i64, i64)>, a: int, b: int) -> int
    decreases
            (if a >= b {
                a
            } else {
                b
            }),
            (if a < b {
                1int
            } else {
                0int
            }),
{
    if !(0 <= a < p.len() && 0 <= b < p.len()) {
        0
    } else if a < b {
        cell_of(p, b, a)
    } else {
        let s = sire(p, a);
        let d = dam(p, a);
        if a == b {
            diagonal_of(
                if 0 <= s < a && 0 <= d < a {
                    cell_of(p, s, d)
                } else {
                    0
                },
            )
        } else {
            mean_of(
                if 0 <= s < a {
                    cell_of(p, b, s)
                } else {
                    0
                },
                if 0 <= d < a {
                    cell_of(p, b, d)
                } else {
                    0
                },
            )
        }
    }
}

/// Whether the machine holds the squared lengths of the rows of `L` of the
/// known parents of the individual at position `i`: their relationships to
/// themselves.
pub open spec fn parents_held(p: Seq<(i64, i64, i64)>, i: int) -> bool {
    &&& 0 <= sire(p, i) < i ==> cell_of(p, sire(p, i), sire(p, i)) >= 0
    &&& 0 <= dam(p, i) < i ==> cell_of(p, dam(p, i), dam(p, i)) >= 0
}

/// Whether `inv_a_mat` holds the exact inverse for the pedigree on this
/// machine: the relationship of every parent to itself is held, and the
/// factor matrix has no more cells than a `usize` counts.
pub open spec fn inverse_within_limits(p: Seq<(i64, i64, i64)>) -> bool {
    (forall|i: int| 0 <= i < p.len() ==> #[trigger] parents_held(p, i)) && p.len() * p.len()
        <= usize::MAX
}

/// The cell of the lower triangle of `m` that belongs to the individuals at
/// positions `a` and `b`, whichever comes first, and zero where one of them
/// is unknown.
pub open spec fn low(m: Matrix<i128>, a: int, b: int) -> int {
    if a < 0 || b < 0 {
        0
    } else if a >= b {
        m.at(a, b) as int
    } else {
        m.at(b, a) as int
    }
}

/// Whether the mean of the cells `x` and `y` is a cell: both lie between
/// zero and two, and no bit is lost in halving their sum.
pub open spec fn mean_held(x: int, y: int) -> bool {
    0 <= x <= 2 * ONE && 0 <= y <= 2 * ONE && (x + y) % 2 == 0
}

/// Whether the row of the individual at position `i`, with parents at `s`
/// and `d` (`-1` for an unknown one), can be worked out exactly from the
/// rows above it in `m`.
pub open spec fn row_held(m: Matrix<i128>, i: int, s: int, d: int) -> bool {
    &&& forall|j: int| 0 <= j < i ==> mean_held(#[trigger] low(m, j, s), low(m, j, d))
    &&& mean_held(between(m, s, d), 0)
}

/// The cell between the parents at `s` and `d`, and zero unless both are
/// known.
pub open spec fn between(m: Matrix<i128>, s: int, d: int) -> int {
    if s >= 0 && d >= 0 {
        low(m, s, d)
    } else {
        0
    }
}

/// Whether a cell outside the row of position `i`, up to its diagonal, is in
/// `after` as it was in `before`.
pub open spec fn row_framed(before: Matrix<i128>, after: Matrix<i128>, i: int) -> bool {
    forall|a: int, b: int|
        0 <= a < before.spec_nrows() && 0 <= b < before.spec_ncols() && !(a == i && b <= i)
            ==> #[trigger] after.at(a, b) == before.at(a, b)
}

/// Whether the row of position `i` of `after`, up to its diagonal, is what
/// the rows above it in `before` give: each cell the mean of the cells that
/// the parents share with that individual, and the diagonal one and half the
/// cell between the parents, with a gap where that is no cell.
pub open spec fn row_filled(
    before: Matrix<i128>,
    after: Matrix<i128>,
    i: int,
    s: int,
    d: int,
) -> bool {
    &&& forall|j: int|
        0 <= j < i ==> #[trigger] after.at(i, j) == mean_of(low(before, j, s), low(before, j, d))
    &&& after.at(i, i) == diagonal_of(between(before, s, d))
}

/// The cell of the lower triangle for the individuals at `a` and `b`.
fn low_cell(mat: &Matrix<i128>, a: usize, b: usize) -> (v: i128)
    requires
        a < mat.spec_nrows(),
        b < mat.spec_nrows(),
        mat.spec_nrows() == mat.spec_ncols(),
    ensures
        v == low(*mat, a as int, b as int),
{
    if a >= b {
        mat.cell(a, b)
    } else {
        mat.cell(b, a)
    }
}

/// The mean of the cells `x` and `y`, or the gap where it is no cell.
fn mean(x: i128, y: i128) -> (r: i128)
    ensures
        r == mean_of(x as int, y as int),
        r >= 0 <==> mean_held(x as int, y as int),
{
    if x < 0 || x > 2 * ONE || y < 0 || y > 2 * ONE {
        return -1;
    }
    let sum: i128 = x + y;
    if sum % 2 != 0 {
        -1
    } else {
        sum / 2
    }
}

/// Fills in the row of the individual with id `ind` and parents `sire_id`
/// and `dam_id`, up to its diagonal, from the rows above it, leaving a gap
/// where a cell cannot be worked out exactly, and tells whether it left
/// none. Whatever `mat` holds, nothing outside that row is touched.
fn fill_row(ind: i64, sire_id: i64, dam_id: i64, mat: &mut Matrix<i128>) -> (held: bool)
    requires
        1 <= ind <= old(mat).spec_nrows(),
        old(mat).spec_nrows() == old(mat).spec_ncols(),
        0 <= sire_id < ind,
        0 <= dam_id < ind,
    ensures
        final(mat).spec_nrows() == old(mat).spec_nrows(),
        final(mat).spec_ncols() == old(mat).spec_ncols(),
        row_framed(*old(mat), *final(mat), ind - 1),
        row_filled(*old(mat), *final(mat), ind - 1, sire_id - 1, dam_id - 1),
        held == row_held(*old(mat), ind - 1, sire_id - 1, dam_id - 1),
{
    let ghost before = *mat;
    let ghost s = sire_id - 1;
    let ghost d = dam_id - 1;
    let i_idx: usize = (ind - 1) as usize;
    let mut held: bool = true;
    let mut j_idx: usize = 0;
    while j_idx < i_idx
        invariant
            j_idx <= i_idx,
            i_idx == ind - 1,
            i_idx < before.spec_nrows(),
            before == *old(mat),
            s == sire_id - 1,
            d == dam_id - 1,
            -1 <= s < i_idx,
            -1 <= d < i_idx,
            mat.spec_nrows() == before.spec_nrows(),
            mat.spec_ncols() == before.spec_ncols(),
            before.spec_nrows() == before.spec_ncols(),
            row_framed(before, *mat, i_idx as int),
            held == (forall|j: int|
                0 <= j < j_idx ==> mean_held(#[trigger] low(before, j, s), low(before, j, d))),
            forall|j: int|
                0 <= j < j_idx ==> #[trigger] mat.at(i_idx as int, j) == mean_of(
                    low(before, j, s),
                    low(before, j, d),
                ),
        decreases i_idx - j_idx,
    {
        let l_sj: i128 = if sire_id > 0 {
            low_cell(mat, j_idx, (sire_id - 1) as usize)
        } else {
            0
        };
        let l_dj: i128 = if dam_id > 0 {
            low_cell(mat, j_idx, (dam_id - 1) as usize)
        } else {
            0
        };
        assert(l_sj == low(before, j_idx as int, s));
        assert(l_dj == low(before, j_idx as int, d));
        let shared: i128 = mean(l_sj, l_dj);
        if shared < 0 {
            held = false;
        }
        mat.set_cell(i_idx, j_idx, shared);
        j_idx = j_idx + 1;
    }
    let l_sd: i128 = if sire_id > 0 && dam_id > 0 {
        low_cell(mat, (sire_id - 1) as usize, (dam_id - 1) as usize)
    } else {
        0
    };
    assert(l_sd == between(before, s, d));
    let half: i128 = mean(l_sd, 0);
    if half < 0 {
        mat.set_cell(i_idx, i_idx, -1);
        false
    } else {
        mat.set_cell(i_idx, i_idx, ONE + half);
        held
    }
}

/// Works out the row of the factor matrix for the individual with id `ind`
/// and parents `sire_id` and `dam_id`, and returns the square of its
/// diagonal entry in `L`, the individual's Mendelian sampling variance, in
/// units of `1 / (4 ONE)`: four less the squared lengths of the parents'
/// rows of `L`.
///
/// With `L = T sqrt(D)` the relationship matrix is `L L^T`. The entries of
/// `L` are irrational, so the matrix keeps `L` by the products of its rows:
/// the cell `(i, j)`, `j <= i`, holds the product of the rows `i` and `j` in
/// units of `1 / ONE`, and the diagonal the squared length of a row. A row
/// is the mean of the parents' rows, and so are its products; where a mean
/// is no cell, the row has a gap.
///
/// Whatever `mat` holds, nothing outside the row of `ind` is touched, and
/// the result is `None` just where the squared length of a parent's row is
/// no cell between zero and two, or the two leave nothing.
fn upd_l_mat(ind: i64, sire_id: i64, dam_id: i64, mat: &mut Matrix<i128>) -> (l_ii_sqr: Option<
    i128,
>)
    requires
        1 <= ind <= old(mat).spec_nrows(),
        old(mat).spec_nrows() == old(mat).spec_ncols(),
        0 <= sire_id < ind,
        0 <= dam_id < ind,
    ensures
        final(mat).spec_nrows() == old(mat).spec_nrows(),
        final(mat).spec_ncols() == old(mat).spec_ncols(),
        row_framed(*old(mat), *final(mat), ind - 1),
        row_filled(*old(mat), *final(mat), ind - 1, sire_id - 1, dam_id - 1),
        l_ii_sqr is Some <==> lengths_held(*old(mat), sire_id - 1, dam_id - 1),
        l_ii_sqr is Some ==> l_ii_sqr->0 == 4 * ONE - (low(*old(mat), sire_id - 1, sire_id - 1)
            + low(*old(mat), dam_id - 1, dam_id - 1)),
{
    let ghost before = *mat;
    let _ = fill_row(ind, sire_id, dam_id, mat);
    let sum_s: i128 = if sire_id > 0 {
        low_cell(mat, (sire_id - 1) as usize, (sire_id - 1) as usize)
    } else {
        0
    };
    let sum_d: i128 = if dam_id > 0 {
        low_cell(mat, (dam_id - 1) as usize, (dam_id - 1) as usize)
    } else {
        0
    };
    assert(sum_s == low(before, sire_id - 1, sire_id - 1));
    assert(sum_d == low(before, dam_id - 1, dam_id - 1));
    if sum_s < 0 || sum_s > 2 * ONE || sum_d < 0 || sum_d > 2 * ONE {
        return None;
    }
    if sum_s + sum_d >= 4 * ONE {
        return None;
    }
    Some(4 * ONE - (sum_s + sum_d))
}

/// Whether the squared lengths of the rows of the parents at `s` and `d`
/// are cells between zero and two that leave a variance above zero.
pub open spec fn lengths_held(m: Matrix<i128>, s: int, d: int) -> bool {
    &&& 0 <= low(m, s, s) <= 2 * ONE
    &&& 0 <= low(m, d, d) <= 2 * ONE
    &&& low(m, s, s) + low(m, d, d) < 4 * ONE
}

/// Whether the rows before `upto` of `mat`, each up to its diagonal, hold the
/// cells of the pedigree.
pub open spec fn table_rows(p: Seq<(i64, i64, i64)>, mat: Matrix<i128>, upto: int) -> bool {
    forall|a: int, b: int| 0 <= b <= a < upto ==> #[trigger] mat.at(a, b) == cell_of(p, a, b)
}

/// A cell that is held stands for the relationship between its two
/// individuals, and lies between zero and two, two left out.
pub proof fn lemma_cell_sound(p: Seq<(i64, i64, i64)>, a: int, b: int)
    requires
        0 <= a < p.len(),
        0 <= b < p.len(),
        cell_of(p, a, b) >= 0,
    ensures
        real_of(cell_of(p, a, b)) == rel(p, a, b) * unit(),
        cell_of(p, a, b) < 2 * ONE,
        a == b ==> cell_of(p, a, b) >= ONE,
    decreases
            (if a >= b {
                a
            } else {
                b
            }),
            (if a < b {
                1int
            } else {
                0int
            }),
{
    if a < b {
        lemma_cell_sound(p, b, a);
        lemma_rel_symmetric(p, a, b);
    } else {
        let s = sire(p, a);
        let d = dam(p, a);
        if a == b {
            if 0 <= s < a && 0 <= d < a {
                lemma_cell_sound(p, s, d);
            }
        } else {
            if 0 <= s < a {
                lemma_cell_sound(p, b, s);
            }
            if 0 <= d < a {
                lemma_cell_sound(p, b, d);
            }
        }
        lemma_cell_range(p, a, b, cell_of(p, a, b));
    }
}

/// Where every relationship is a whole multiple of `1 / ONE`, every cell is
/// held.
pub proof fn lemma_cell_complete(p: Seq<(i64, i64, i64)>, a: int, b: int)
    requires
        0 <= a < p.len(),
        0 <= b < p.len(),
        representable(p),
    ensures
        cell_of(p, a, b) >= 0,
    decreases
            (if a >= b {
                a
            } else {
                b
            }),
            (if a < b {
                1int
            } else {
                0int
            }),
{
    if a < b {
        lemma_cell_complete(p, b, a);
    } else {
        let s = sire(p, a);
        let d = dam(p, a);
        assert(whole(rel(p, a, b) * unit()));
        let k = choose|k: int| #[trigger] real_of(k) == rel(p, a, b) * unit();
        if a == b {
            if 0 <= s < a && 0 <= d < a {
                lemma_cell_complete(p, s, d);
                lemma_cell_sound(p, s, d);
                assert(2 * (k - ONE) == cell_of(p, s, d));
            }
        } else {
            let x = if 0 <= s < a {
                cell_of(p, b, s)
            } else {
                0
            };
            let y = if 0 <= d < a {
                cell_of(p, b, d)
            } else {
                0
            };
            if 0 <= s < a {
                lemma_cell_complete(p, b, s);
                lemma_cell_sound(p, b, s);
            }
            if 0 <= d < a {
                lemma_cell_complete(p, b, d);
                lemma_cell_sound(p, b, d);
            }
            assert(2 * k == x + y);
        }
    }
}

/// Unrelated individuals have the cell zero, however deep the pedigree.
pub proof fn lemma_cell_zero(p: Seq<(i64, i64, i64)>, a: int, b: int)
    requires
        0 <= a < p.len(),
        0 <= b < p.len(),
        rel(p, a, b) == 0real,
    ensures
        cell_of(p, a, b) == 0,
    decreases
            (if a >= b {
                a
            } else {
                b
            }),
            (if a < b {
                1int
            } else {
                0int
            }),
{
    if a < b {
        lemma_rel_symmetric(p, a, b);
        lemma_cell_zero(p, b, a);
    } else {
        let s = sire(p, a);
        let d = dam(p, a);
        lemma_rel_bounds(p, a, a);
        if 0 <= s < a {
            lemma_rel_bounds(p, b, s);
        }
        if 0 <= d < a {
            lemma_rel_bounds(p, b, d);
        }
        if 0 <= s < a {
            lemma_cell_zero(p, b, s);
        }
        if 0 <= d < a {
            lemma_cell_zero(p, b, d);
        }
    }
}

/// Where every relationship is a whole multiple of `1 / ONE`, the exact
/// inverse is held.
pub proof fn lemma_representable_inverse(p: Seq<(i64, i64, i64)>)
    requires
        representable(p),
    ensures
        forall|i: int| 0 <= i < p.len() ==> #[trigger] parents_held(p, i),
{
    assert forall|i: int| 0 <= i < p.len() implies #[trigger] parents_held(p, i) by {
        if 0 <= sire(p, i) < i {
            lemma_cell_complete(p, sire(p, i), sire(p, i));
        }
        if 0 <= dam(p, i) < i {
            lemma_cell_complete(p, dam(p, i), dam(p, i));
        }
    }
}

/// Where no individual has an inbred parent, the exact inverse is held,
/// however deep the pedigree.
pub proof fn lemma_uninbred_inverse(p: Seq<(i64, i64, i64)>)
    requires
        forall|i: int| 0 <= i < p.len() ==> #[trigger] parents_not_inbred(p, i),
    ensures
        forall|i: int| 0 <= i < p.len() ==> #[trigger] parents_held(p, i),
{
    assert forall|i: int| 0 <= i < p.len() implies #[trigger] parents_held(p, i) by {
        assert(parents_not_inbred(p, i));
        if 0 <= sire(p, i) < i {
            lemma_uninbred_cell(p, sire(p, i));
        }
        if 0 <= dam(p, i) < i {
            lemma_uninbred_cell(p, dam(p, i));
        }
    }
}

/// The cell of an individual that is not inbred, taken with itself, is one.
pub proof fn lemma_uninbred_cell(p: Seq<(i64, i64, i64)>, x: int)
    requires
        0 <= x < p.len(),
        rel(p, x, x) == 1real,
    ensures
        cell_of(p, x, x) == ONE,
{
    let s = sire(p, x);
    let d = dam(p, x);
    if 0 <= s < x && 0 <= d < x {
        lemma_cell_zero(p, s, d);
    }
}

/// Where the exact inverse is held, every Mendelian sampling variance is a
/// whole multiple of `1 / (4 ONE)`.
pub proof fn lemma_held_variances(p: Seq<(i64, i64, i64)>)
    requires
        forall|i: int| 0 <= i < p.len() ==> #[trigger] parents_held(p, i),
    ensures
        variances_held(p),
{
    assert forall|i: int| 0 <= i < p.len() implies whole(
        4real * (#[trigger] mendel(p, i) * unit()),
    ) by {
        assert(parents_held(p, i));
        let s = sire(p, i);
        let d = dam(p, i);
        let cs = if 0 <= s < i {
            cell_of(p, s, s)
        } else {
            0
        };
        let cd = if 0 <= d < i {
            cell_of(p, d, d)
        } else {
            0
        };
        if 0 <= s < i {
            lemma_cell_sound(p, s, s);
        }
        if 0 <= d < i {
            lemma_cell_sound(p, d, d);
        }
        lemma_exact_weight(p, i, 4 * ONE - (cs + cd));
    }
}

/// Where no individual has an inbred parent, the terms of the exact inverse
/// are held and add up, at every place, to what the terms of the approximate
/// inverse add up to.
pub proof fn lemma_uninbred_terms(p: Seq<(i64, i64, i64)>, r: int, c: int)
    requires
        p.len() <= usize::MAX,
        forall|i: int| 0 <= i < p.len() ==> #[trigger] parents_not_inbred(p, i),
    ensures
        forall|i: int| 0 <= i < p.len() ==> #[trigger] parents_held(p, i),
        term_sum(inverse_terms(p, true, p.len() as int), r, c) == term_sum(
            inverse_terms(p, false, p.len() as int),
            r,
            c,
        ),
{
    lemma_uninbred_inverse(p);
    lemma_held_variances(p);
    lemma_inverse_terms_sum(p, true, p.len() as int, r, c);
    lemma_inverse_terms_sum(p, false, p.len() as int, r, c);
    lemma_variants_agree(p, p.len() as int, r, c);
}

/// Where the rows above hold the cells of the pedigree, a cell of the lower
/// triangle is the cell of its two individuals.
proof fn lemma_low_is_cell(p: Seq<(i64, i64, i64)>, mat: Matrix<i128>, upto: int, a: int, b: int)
    requires
        table_rows(p, mat, upto),
        upto <= p.len(),
        -1 <= a < upto,
        -1 <= b < upto,
    ensures
        low(mat, a, b) == (if a >= 0 && b >= 0 {
            cell_of(p, a, b)
        } else {
            0
        }),
{
    if a >= 0 && b >= 0 {
        if a >= b {
            assert(mat.at(a, b) == cell_of(p, a, b));
        } else {
            assert(mat.at(b, a) == cell_of(p, b, a));
        }
    }
}

/// Where the rows above hold the cells of the pedigree, a row that is filled
/// in holds them too, and has a gap just where the pedigree has one.
proof fn lemma_row_filled(
    p: Seq<(i64, i64, i64)>,
    before: Matrix<i128>,
    after: Matrix<i128>,
    i: int,
)
    requires
        valid_pedigree(p),
        0 <= i < p.len(),
        table_rows(p, before, i),
        before.spec_nrows() == p.len(),
        before.spec_ncols() == p.len(),
        row_framed(before, after, i),
        row_filled(before, after, i, sire(p, i), dam(p, i)),
    ensures
        table_rows(p, after, i + 1),
        row_held(before, i, sire(p, i), dam(p, i)) <==> forall|j: int|
            0 <= j <= i ==> #[trigger] cell_of(p, i, j) >= 0,
        lengths_held(before, sire(p, i), dam(p, i)) <==> parents_held(p, i),
{
    let s = sire(p, i);
    let d = dam(p, i);
    lemma_parents_precede(p, i);
    lemma_low_is_cell(p, before, i, s, d);
    lemma_low_is_cell(p, before, i, s, s);
    lemma_low_is_cell(p, before, i, d, d);
    if 0 <= s {
        if cell_of(p, s, s) >= 0 {
            lemma_cell_sound(p, s, s);
        }
    }
    if 0 <= d {
        if cell_of(p, d, d) >= 0 {
            lemma_cell_sound(p, d, d);
        }
    }
    assert forall|j: int| 0 <= j < i implies low(before, j, s) == (if 0 <= s {
        cell_of(p, j, s)
    } else {
        0
    }) && low(before, j, d) == (if 0 <= d {
        cell_of(p, j, d)
    } else {
        0
    }) && #[trigger] cell_of(p, i, j) == mean_of(low(before, j, s), low(before, j, d)) by {
        lemma_low_is_cell(p, before, i, j, s);
        lemma_low_is_cell(p, before, i, j, d);
    }
    assert(cell_of(p, i, i) == diagonal_of(between(before, s, d)));
    assert forall|a: int, b: int| 0 <= b <= a < i + 1 implies #[trigger] after.at(a, b) == cell_of(
        p,
        a,
        b,
    ) by {
        if a < i {
            assert(after.at(a, b) == before.at(a, b));
        } else if b < i {
            assert(cell_of(p, i, b) == mean_of(low(before, b, s), low(before, b, d)));
        }
    }
    if row_held(before, i, s, d) {
        assert forall|j: int| 0 <= j <= i implies #[trigger] cell_of(p, i, j) >= 0 by {
            if j < i {
                assert(mean_held(low(before, j, s), low(before, j, d)));
            }
        }
    } else {
        if mean_held(between(before, s, d), 0) {
            let j = choose|j: int|
                0 <= j < i && !mean_held(#[trigger] low(before, j, s), low(before, j, d));
            assert(cell_of(p, i, j) == -1);
        } else {
            assert(cell_of(p, i, i) == -1);
        }
    }
}

/// Builds the numerator relationship matrix of a pedigree. The cell `(i, j)`
/// holds the additive relationship between the individuals with ids `i + 1`
/// and `j + 1` as a multiple of `1 / ONE`, exactly.
///
/// A faulty pedigree is refused with the fault of its first faulty entry. A
/// sound one is refused, with `LimitExceeded`, only where the machine cannot
/// hold the result: some relationship is no whole multiple of `1 / ONE`, or
/// the matrix has more cells than a `usize` counts.
pub fn a_mat(std_ped_vec: &Vec<(i64, i64, i64)>) -> (r: Result<Matrix<i128>, Error>)
    ensures
        match first_fault(std_ped_vec@, std_ped_vec@.len()) {
            Some(e) => r == Err::<Matrix<i128>, Error>(e),
            None => if within_limits(std_ped_vec@) {
                &&& r is Ok
                &&& r->Ok_0.spec_nrows() == std_ped_vec@.len()
                &&& r->Ok_0.spec_ncols() == std_ped_vec@.len()
                &&& forall|i: int, j: int|
                    0 <= i < std_ped_vec@.len() && 0 <= j < std_ped_vec@.len() ==> (
                    #[trigger] r->Ok_0.at(i, j)) as real == rel(std_ped_vec@, i, j) * unit()
                &&& forall|i: int, j: int|
                    0 <= i < std_ped_vec@.len() && 0 <= j < std_ped_vec@.len() ==> (
                    #[trigger] r->Ok_0.at(i, j)) == r->Ok_0.at(j, i)
                &&& forall|i: int|
                    0 <= i < std_ped_vec@.len() ==> ONE <= (#[trigger] r->Ok_0.at(i, i)) < 2 * ONE
            } else {
                r == Err::<Matrix<i128>, Error>(Error::LimitExceeded)
            },
        },
{
    match check_pedigree(std_ped_vec) {
        Err(e) => {
            return Err(e);
        },
        Ok(_) => {},
    }
    let n: usize = std_ped_vec.len();
    let mut mat: Matrix<i128> = match Matrix::filled(n, n, 0i128) {
        Some(m) => m,
        None => {
            return Err(Error::LimitExceeded);
        },
    };
    let ghost p = std_ped_vec@;
    let mut i: usize = 0;
    while i < n
        invariant
            i <= n,
            n == p.len(),
            p == std_ped_vec@,
            valid_pedigree(p),
            first_fault(p, p.len()) is None,
            mat.spec_nrows() == n,
            mat.spec_ncols() == n,
            table_rows(p, mat, i as int),
            forall|a: int, b: int| 0 <= b <= a < i ==> #[trigger] cell_of(p, a, b) >= 0,
            forall|a: int, b: int| 0 <= a < b < i ==> #[trigger] mat.at(a, b) == mat.at(b, a),
        decreases n - i,
    {
        let (ind, sire_id, dam_id) = std_ped_vec[i];
        let ghost before = mat;
        proof {
            lemma_parents_precede(p, i as int);
        }
        let held: bool = fill_row(ind, sire_id, dam_id, &mut mat);
        proof {
            lemma_row_filled(p, before, mat, i as int);
        }
        if !held {
            proof {
                if representable(p) {
                    assert forall|j: int| 0 <= j <= i implies #[trigger] cell_of(p, i as int, j)
                        >= 0 by {
                        lemma_cell_complete(p, i as int, j);
                    }
                }
            }
            return Err(Error::LimitExceeded);
        }
        let ghost filled = mat;
        let mut j: usize = 0;
        while j < i
            invariant
                j <= i,
                i < n,
                mat.spec_nrows() == n,
                mat.spec_ncols() == n,
                filled.spec_nrows() == n,
                filled.spec_ncols() == n,
                forall|a: int, b: int|
                    0 <= a < n && 0 <= b < n && !(b == i && a < j) ==> #[trigger] mat.at(a, b)
                        == filled.at(a, b),
                forall|a: int| 0 <= a < j ==> #[trigger] mat.at(a, i as int) == filled.at(i as int, a),
            decreases i - j,
        {
            let shared: i128 = mat.cell(i, j);
            mat.set_cell(j, i, shared);
            j = j + 1;
        }
        proof {
            assert forall|a: int, b: int| 0 <= b <= a < i + 1 implies #[trigger] mat.at(a, b)
                == cell_of(p, a, b) by {
                assert(mat.at(a, b) == filled.at(a, b));
            }
            assert forall|a: int, b: int| 0 <= a < b < i + 1 implies #[trigger] mat.at(a, b)
                == mat.at(b, a) by {
                if b < i {
                    assert(mat.at(a, b) == filled.at(a, b));
                    assert(mat.at(b, a) == filled.at(b, a));
                    assert(filled.at(a, b) == before.at(a, b));
                    assert(filled.at(b, a) == before.at(b, a));
                }
            }
        }
        i = i + 1;
    }
    proof {
        assert forall|a: int, b: int| 0 <= a < n && 0 <= b < n implies (#[trigger] mat.at(a, b))
            as real == rel(p, a, b) * unit() by {
            lemma_rel_symmetric(p, a, b);
            if a >= b {
                assert(mat.at(a, b) == cell_of(p, a, b));
                lemma_cell_sound(p, a, b);
            } else {
                assert(mat.at(a, b) == mat.at(b, a));
                assert(mat.at(b, a) == cell_of(p, b, a));
                lemma_cell_sound(p, b, a);
            }
        }
        assert forall|a: int, b: int| 0 <= a < n && 0 <= b < n implies whole(
            #[trigger] rel(p, a, b) * unit(),
        ) by {
            assert(real_of(mat.at(a, b) as int) == rel(p, a, b) * unit());
        }
        assert forall|a: int, b: int| 0 <= a < n && 0 <= b < n implies (#[trigger] mat.at(a, b))
            == mat.at(b, a) by {
            if a > b {
                assert(mat.at(b, a) == mat.at(a, b));
            }
        }
        assert forall|a: int| 0 <= a < n implies ONE <= (#[trigger] mat.at(a, a)) < 2 * ONE by {
            assert(mat.at(a, a) == cell_of(p, a, a));
            lemma_cell_sound(p, a, a);
        }
    }
    Ok(mat)
}

/// Builds the inverse of the numerator relationship matrix straight from the
/// pedigree, without inverting anything. Each individual adds its terms with
/// the weight one over its Mendelian sampling variance, which is worked out
/// exactly from the squared lengths of its parents' rows of `L`, whatever
/// their inbreeding.
///
/// The inverse comes in coordinate form: its entry at a place is the sum of
/// the terms listed for that place. A faulty pedigree is refused with the
/// fault of its first faulty entry. A sound one is refused, with
/// `LimitExceeded`, only where the machine cannot hold what a weight is made
/// of: the relationship of some parent to itself takes a halving that loses
/// a bit below `1 / ONE`, or the factor matrix has more cells than a `usize`
/// counts. A pedigree without an inbred parent is never refused for its
/// depth.
pub fn inv_a_mat(std_ped_vec: &Vec<(i64, i64, i64)>) -> (r: Result<Vec<Term>, Error>)
    ensures
        match first_fault(std_ped_vec@, std_ped_vec@.len()) {
            Some(e) => r == Err::<Vec<Term>, Error>(e),
            None => if inverse_within_limits(std_ped_vec@) {
                r is Ok && r->Ok_0@ == inverse_terms(std_ped_vec@, true, std_ped_vec@.len() as int)
            } else {
                r == Err::<Vec<Term>, Error>(Error::LimitExceeded)
            },
        },
{
    match check_pedigree(std_ped_vec) {
        Err(e) => {
            return Err(e);
        },
        Ok(_) => {},
    }
    let n: usize = std_ped_vec.len();
    // With L = T sqrt(D), the relationship matrix is L L^T.
    let mut l_mat: Matrix<i128> = match Matrix::filled(n, n, 0i128) {
        Some(m) => m,
        None => {
            return Err(Error::LimitExceeded);
        },
    };
    let ghost p = std_ped_vec@;
    let mut terms: Vec<Term> = Vec::new();
    let mut i: usize = 0;
    while i < n
        invariant
            i <= n,
            n == p.len(),
            p == std_ped_vec@,
            valid_pedigree(p),
            first_fault(p, p.len()) is None,
            l_mat.spec_nrows() == n,
            l_mat.spec_ncols() == n,
            table_rows(p, l_mat, i as int),
            forall|k: int| 0 <= k < i ==> #[trigger] parents_held(p, k),
            terms@ == inverse_terms(p, true, i as int),
        decreases n - i,
    {
        let (ind, sire_id, dam_id) = std_ped_vec[i];
        let ghost before = l_mat;
        proof {
            lemma_parents_precede(p, i as int);
        }
        // The diagonal entry of the inverse of D is one over l_ii squared.
        let l_ii_sqr: i128 = match upd_l_mat(ind, sire_id, dam_id, &mut l_mat) {
            Some(l) => l,
            None => {
                proof {
                    lemma_row_filled(p, before, l_mat, i as int);
                    assert(!parents_held(p, i as int));
                }
                return Err(Error::LimitExceeded);
            },
        };
        proof {
            lemma_row_filled(p, before, l_mat, i as int);
            let s = sire(p, i as int);
            let d = dam(p, i as int);
            lemma_low_is_cell(p, before, i as int, s, s);
            lemma_low_is_cell(p, before, i as int, d, d);
            if s >= 0 {
                lemma_cell_sound(p, s, s);
            }
            if d >= 0 {
                lemma_cell_sound(p, d, d);
            }
            lemma_exact_weight(p, i as int, l_ii_sqr as int);
        }
        add_terms(&mut terms, i, sire_id, dam_id, 4 * ONE, l_ii_sqr, Ghost(p));
        i = i + 1;
    }
    Ok(terms)
}

/// Builds the inverse of the numerator relationship matrix as `inv_a_mat`
/// does, but with a fixed weight for each individual in place of one over its
/// Mendelian sampling variance: two where both parents are known, four
/// thirds where one is, one where none is. These are the exact weights only
/// where no parent is inbred; elsewhere the result is an approximation.
pub fn inv_a_mat_approx(std_ped_vec: &Vec<(i64, i64, i64)>) -> (r: Result<Vec<Term>, Error>)
    ensures
        match first_fault(std_ped_vec@, std_ped_vec@.len()) {
            Some(e) => r == Err::<Vec<Term>, Error>(e),
            None => r is Ok && r->Ok_0@ == inverse_terms(
                std_ped_vec@,
                false,
                std_ped_vec@.len() as int,
            ),
        },
{
    match check_pedigree(std_ped_vec) {
        Err(e) => {
            return Err(e);
        },
        Ok(_) => {},
    }
    let n: usize = std_ped_vec.len();
    let ghost p = std_ped_vec@;
    let mut terms: Vec<Term> = Vec::new();
    let mut i: usize = 0;
    while i < n
        invariant
            i <= n,
            n == p.len(),
            p == std_ped_vec@,
            valid_pedigree(p),
            terms@ == inverse_terms(p, false, i as int),
        decreases n - i,
    {
        let (ind, sire_id, dam_id) = std_ped_vec[i];
        proof {
            lemma_parents_precede(p, i as int);
        }
        if sire_id > 0 && dam_id > 0 {
            add_terms(&mut terms, i, sire_id, dam_id, 2, 1, Ghost(p));
        } else if sire_id > 0 || dam_id > 0 {
            add_terms(&mut terms, i, sire_id, dam_id, 4, 3, Ghost(p));
        } else {
            add_terms(&mut terms, i, sire_id, dam_id, 1, 1, Ghost(p));
        }
        i = i + 1;
    }
    Ok(terms)
}

} // verus!
