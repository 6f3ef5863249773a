use crate::factor::{lemma_mendel_by_parents, mendel};
use crate::kinship::{count, lemma_count, lemma_rel_bounds, real_of, rel, unit, whole};
use crate::pedigree::{dam, sire};
use vstd::prelude::*;

verus! {

/// One term of an inverse relationship matrix kept in coordinate form: the
/// fraction `num / den`, to be added to the cell in row `row`, column `col`.
/// The entry of the matrix at a place is the sum of the terms listed for it.
#[derive(Clone, Copy, Debug, PartialEq, Eq, Structural)]
pub struct Term {
    pub row: usize,
    pub col: usize,
    pub num: i128,
    pub den: i128,
}

impl Term {
    /// The fraction that the term adds to its cell.
    pub open spec fn value(self) -> real {
        self.num as real / self.den as real
    }
}

/// The weight of the individual at position `i` in the approximate inverse,
/// as numerator and denominator: two with both parents known, four thirds
/// with one, one with none.
pub open spec fn approx_weight(p: Seq<(i64, i64, i64)>, i: int) -> (int, int) {
    let s = sire(p, i);
    let d = dam(p, i);
    if 0 <= s < i && 0 <= d < i {
        (2, 1)
    } else if 0 <= s < i || 0 <= d < i {
        (4, 3)
    } else {
        (1, 1)
    }
}

/// The weight of the individual at position `i` in the exact inverse, as
/// numerator and denominator: one over its Mendelian sampling variance, both
/// counted in units of `1 / 2^122`.
pub open spec fn exact_weight(p: Seq<(i64, i64, i64)>, i: int) -> (int, int) {
    (0x4_0000_0000_0000_0000_0000_0000_0000_00int, count(4real * (mendel(p, i) * unit())))
}

/// The weight of the individual at position `i`, in the exact inverse or in
/// the approximate one.
pub open spec fn weight(p: Seq<(i64, i64, i64)>, exact: bool, i: int) -> (int, int) {
    if exact {
        exact_weight(p, i)
    } else {
        approx_weight(p, i)
    }
}

/// The term `num / den` at `(row, col)`.
pub open spec fn term(row: int, col: int, num: int, den: int) -> Term {
    Term { row: row as usize, col: col as usize, num: num as i128, den: den as i128 }
}

/// The terms that the individual at position `i` adds to the inverse, given
/// its weight `w`: the weight on its own diagonal cell, minus half the weight
/// on the cells it shares with each known parent, and a quarter of the weight
/// on the cells among its known parents.
pub open spec fn individual_terms(p: Seq<(i64, i64, i64)>, i: int, w: (int, int)) -> Seq<Term> {
    let s = sire(p, i);
    let d = dam(p, i);
    let (wn, wd) = w;
    let own = seq![term(i, i, wn, wd)];
    if 0 <= s < i && 0 <= d < i {
        own + seq![
            term(i, s, -wn, 2 * wd),
            term(i, d, -wn, 2 * wd),
            term(s, i, -wn, 2 * wd),
            term(d, i, -wn, 2 * wd),
            term(s, s, wn, 4 * wd),
            term(d, d, wn, 4 * wd),
            term(s, d, wn, 4 * wd),
            term(d, s, wn, 4 * wd),
        ]
    } else if 0 <= s < i || 0 <= d < i {
        let q = if 0 <= s < i {
            s
        } else {
            d
        };
        own + seq![term(i, q, -wn, 2 * wd), term(q, i, -wn, 2 * wd), term(q, q, wn, 4 * wd)]
    } else {
        own
    }
}

/// The terms of the inverse relationship matrix that the first `upto`
/// individuals add, in the order of the pedigree.
pub open spec fn inverse_terms(p: Seq<(i64, i64, i64)>, exact: bool, upto: int) -> Seq<Term>
    decreases upto,
{
    if upto <= 0 {
        Seq::empty()
    } else {
        inverse_terms(p, exact, upto - 1) + individual_terms(
            p,
            upto - 1,
            weight(p, exact, upto - 1),
        )
    }
}

/// The sum of the terms of `ts` that are listed for row `r`, column `c`.
pub open spec fn term_sum(ts: Seq<Term>, r: int, c: int) -> real
    decreases ts.len(),
{
    if ts.len() == 0 {
        0real
    } else {
        term_sum(ts.drop_last(), r, c) + (if ts.last().row == r && ts.last().col == c {
            ts.last().value()
        } else {
            0real
        })
    }
}

/// Adds to `terms` what the individual at position `i`, with parent ids
/// `sire` and `dam` and weight `wn / wd`, contributes to the inverse.
pub(crate) fn add_terms(
    terms: &mut Vec<Term>,
    i: usize,
    sire_id: i64,
    dam_id: i64,
    wn: i128,
    wd: i128,
    Ghost(p): Ghost<Seq<(i64, i64, i64)>>,
)
    requires
        0 <= i < p.len(),
        i < i64::MAX,
        sire_id == p[i as int].1,
        dam_id == p[i as int].2,
        0 <= sire_id <= i,
        0 <= dam_id <= i,
        0 < wn,
        0 < wd,
        4 * wd <= i128::MAX,
    ensures
        final(terms)@ == old(terms)@ + individual_terms(p, i as int, (wn as int, wd as int)),
{
    let ghost before = terms@;
    terms.push(Term { row: i, col: i, num: wn, den: wd });
    if sire_id > 0 && dam_id > 0 {
        let s_idx: usize = (sire_id - 1) as usize;
        let d_idx: usize = (dam_id - 1) as usize;
        terms.push(Term { row: i, col: s_idx, num: -wn, den: 2 * wd });
        terms.push(Term { row: i, col: d_idx, num: -wn, den: 2 * wd });
        terms.push(Term { row: s_idx, col: i, num: -wn, den: 2 * wd });
        terms.push(Term { row: d_idx, col: i, num: -wn, den: 2 * wd });
        terms.push(Term { row: s_idx, col: s_idx, num: wn, den: 4 * wd });
        terms.push(Term { row: d_idx, col: d_idx, num: wn, den: 4 * wd });
        terms.push(Term { row: s_idx, col: d_idx, num: wn, den: 4 * wd });
        terms.push(Term { row: d_idx, col: s_idx, num: wn, den: 4 * wd });
    } else if sire_id > 0 || dam_id > 0 {
        let q: i64 = if sire_id > 0 {
            sire_id
        } else {
            dam_id
        };
        let q_idx: usize = (q - 1) as usize;
        terms.push(Term { row: i, col: q_idx, num: -wn, den: 2 * wd });
        terms.push(Term { row: q_idx, col: i, num: -wn, den: 2 * wd });
        terms.push(Term { row: q_idx, col: q_idx, num: wn, den: 4 * wd });
    }
    assert(terms@ =~= before + individual_terms(p, i as int, (wn as int, wd as int)));
}

/// What the individual at position `i` puts in front of row or column `r`
/// of its terms: one for itself, minus a half for each time `r` is one of
/// its known parents.
pub open spec fn coefficient(p: Seq<(i64, i64, i64)>, i: int, r: int) -> real {
    let s = sire(p, i);
    let d = dam(p, i);
    (if r == i {
        1real
    } else {
        0real
    }) - (if 0 <= s < i && r == s {
        1real / 2real
    } else {
        0real
    }) - (if 0 <= d < i && r == d {
        1real / 2real
    } else {
        0real
    })
}

/// The weight of the individual at position `i` as a number: one over its
/// Mendelian sampling variance in the exact inverse, and two, four thirds or
/// one in the approximate inverse.
pub open spec fn weight_value(p: Seq<(i64, i64, i64)>, exact: bool, i: int) -> real {
    if exact {
        1real / mendel(p, i)
    } else {
        let s = sire(p, i);
        let d = dam(p, i);
        if 0 <= s < i && 0 <= d < i {
            2real
        } else if 0 <= s < i || 0 <= d < i {
            4real / 3real
        } else {
            1real
        }
    }
}

/// The entry in row `r`, column `c` of the inverse relationship matrix, as
/// far as the first `upto` individuals make it up: the sum over them of
/// weight times coefficient of `r` times coefficient of `c`.
pub open spec fn inverse_entry(
    p: Seq<(i64, i64, i64)>,
    exact: bool,
    upto: int,
    r: int,
    c: int,
) -> real
    decreases upto,
{
    if upto <= 0 {
        0real
    } else {
        inverse_entry(p, exact, upto - 1, r, c) + weight_value(p, exact, upto - 1) * coefficient(
            p,
            upto - 1,
            r,
        ) * coefficient(p, upto - 1, c)
    }
}

/// What one term adds to the cell in row `r`, column `c`.
pub open spec fn term_at(t: Term, r: int, c: int) -> real {
    if t.row == r && t.col == c {
        t.value()
    } else {
        0real
    }
}

/// The sum over two lists of terms is the sum of their sums.
pub proof fn lemma_term_sum_concat(a: Seq<Term>, b: Seq<Term>, r: int, c: int)
    ensures
        term_sum(a + b, r, c) == term_sum(a, r, c) + term_sum(b, r, c),
    decreases b.len(),
{
    if b.len() == 0 {
        assert(a + b =~= a);
    } else {
        lemma_term_sum_concat(a, b.drop_last(), r, c);
        assert((a + b).drop_last() =~= a + b.drop_last());
        assert((a + b).last() == b.last());
    }
}

/// One more term adds what it holds for the cell.
pub proof fn lemma_term_sum_push(ts: Seq<Term>, t: Term, r: int, c: int)
    ensures
        term_sum(ts.push(t), r, c) == term_sum(ts, r, c) + term_at(t, r, c),
{
    assert(ts.push(t).drop_last() =~= ts);
    assert(ts.push(t).last() == t);
}

/// A half and a quarter of a fraction, taken in its denominator.
pub proof fn lemma_weight_parts(wn: real, wd: real)
    requires
        wd > 0real,
    ensures
        (-wn) / (2real * wd) == -(wn / wd) / 2real,
        wn / (4real * wd) == (wn / wd) / 4real,
{
    let w = wn / wd;
    assert(w * wd == wn) by (nonlinear_arith)
        requires
            w == wn / wd,
            wd > 0real,
    ;
    let h = (-wn) / (2real * wd);
    assert(h * (2real * wd) == -wn) by (nonlinear_arith)
        requires
            h == (-wn) / (2real * wd),
            wd > 0real,
    ;
    assert(h == -w / 2real) by (nonlinear_arith)
        requires
            h * (2real * wd) == -wn,
            w * wd == wn,
            wd > 0real,
    ;
    let q = wn / (4real * wd);
    assert(q * (4real * wd) == wn) by (nonlinear_arith)
        requires
            q == wn / (4real * wd),
            wd > 0real,
    ;
    assert(q == w / 4real) by (nonlinear_arith)
        requires
            q * (4real * wd) == wn,
            w * wd == wn,
            wd > 0real,
    ;
}

/// The terms of one individual add up, at each place, to its weight times
/// its coefficients of the row and of the column.
pub proof fn lemma_individual_terms_sum(
    p: Seq<(i64, i64, i64)>,
    i: int,
    wn: int,
    wd: int,
    r: int,
    c: int,
)
    requires
        0 <= i <= usize::MAX,
        0 < wn <= i128::MAX,
        0 < wd,
        4 * wd <= i128::MAX,
    ensures
        term_sum(individual_terms(p, i, (wn, wd)), r, c) == (wn as real / wd as real) * coefficient(
            p,
            i,
            r,
        ) * coefficient(p, i, c),
{
    let s = sire(p, i);
    let d = dam(p, i);
    let w = wn as real / wd as real;
    lemma_weight_parts(wn as real, wd as real);
    let t0 = term(i, i, wn, wd);
    let e = Seq::<Term>::empty();
    lemma_term_sum_push(e, t0, r, c);
    assert(seq![t0] =~= e.push(t0));
    assert(term_sum(e, r, c) == 0real);
    let kr = coefficient(p, i, r);
    let kc = coefficient(p, i, c);
    if 0 <= s < i && 0 <= d < i {
        let t1 = term(i, s, -wn, 2 * wd);
        let t2 = term(i, d, -wn, 2 * wd);
        let t3 = term(s, i, -wn, 2 * wd);
        let t4 = term(d, i, -wn, 2 * wd);
        let t5 = term(s, s, wn, 4 * wd);
        let t6 = term(d, d, wn, 4 * wd);
        let t7 = term(s, d, wn, 4 * wd);
        let t8 = term(d, s, wn, 4 * wd);
        let l0 = seq![t0];
        let l1 = l0.push(t1);
        let l2 = l1.push(t2);
        let l3 = l2.push(t3);
        let l4 = l3.push(t4);
        let l5 = l4.push(t5);
        let l6 = l5.push(t6);
        let l7 = l6.push(t7);
        let l8 = l7.push(t8);
        lemma_term_sum_push(l0, t1, r, c);
        lemma_term_sum_push(l1, t2, r, c);
        lemma_term_sum_push(l2, t3, r, c);
        lemma_term_sum_push(l3, t4, r, c);
        lemma_term_sum_push(l4, t5, r, c);
        lemma_term_sum_push(l5, t6, r, c);
        lemma_term_sum_push(l6, t7, r, c);
        lemma_term_sum_push(l7, t8, r, c);
        assert(individual_terms(p, i, (wn, wd)) =~= l8);
        let total = term_at(t0, r, c) + term_at(t1, r, c) + term_at(t2, r, c) + term_at(t3, r, c)
            + term_at(t4, r, c) + term_at(t5, r, c) + term_at(t6, r, c) + term_at(t7, r, c)
            + term_at(t8, r, c);
        assert(term_sum(l8, r, c) == total);
        assert(total == w * kr * kc) by (nonlinear_arith)
            requires
                total == (if r == i && c == i {
                    w
                } else {
                    0real
                }) + (if r == i && c == s {
                    -w / 2real
                } else {
                    0real
                }) + (if r == i && c == d {
                    -w / 2real
                } else {
                    0real
                }) + (if r == s && c == i {
                    -w / 2real
                } else {
                    0real
                }) + (if r == d && c == i {
                    -w / 2real
                } else {
                    0real
                }) + (if r == s && c == s {
                    w / 4real
                } else {
                    0real
                }) + (if r == d && c == d {
                    w / 4real
                } else {
                    0real
                }) + (if r == s && c == d {
                    w / 4real
                } else {
                    0real
                }) + (if r == d && c == s {
                    w / 4real
                } else {
                    0real
                }),
                kr == (if r == i {
                    1real
                } else {
                    0real
                }) - (if r == s {
                    1real / 2real
                } else {
                    0real
                }) - (if r == d {
                    1real / 2real
                } else {
                    0real
                }),
                kc == (if c == i {
                    1real
                } else {
                    0real
                }) - (if c == s {
                    1real / 2real
                } else {
                    0real
                }) - (if c == d {
                    1real / 2real
                } else {
                    0real
                }),
                s < i,
                d < i,
        ;
    } else if 0 <= s < i || 0 <= d < i {
        let q = if 0 <= s < i {
            s
        } else {
            d
        };
        let t1 = term(i, q, -wn, 2 * wd);
        let t2 = term(q, i, -wn, 2 * wd);
        let t3 = term(q, q, wn, 4 * wd);
        let l0 = seq![t0];
        let l1 = l0.push(t1);
        let l2 = l1.push(t2);
        let l3 = l2.push(t3);
        lemma_term_sum_push(l0, t1, r, c);
        lemma_term_sum_push(l1, t2, r, c);
        lemma_term_sum_push(l2, t3, r, c);
        assert(individual_terms(p, i, (wn, wd)) =~= l3);
        let total = term_at(t0, r, c) + term_at(t1, r, c) + term_at(t2, r, c) + term_at(t3, r, c);
        assert(term_sum(l3, r, c) == total);
        assert(total == w * kr * kc) by (nonlinear_arith)
            requires
                total == (if r == i && c == i {
                    w
                } else {
                    0real
                }) + (if r == i && c == q {
                    -w / 2real
                } else {
                    0real
                }) + (if r == q && c == i {
                    -w / 2real
                } else {
                    0real
                }) + (if r == q && c == q {
                    w / 4real
                } else {
                    0real
                }),
                kr == (if r == i {
                    1real
                } else {
                    0real
                }) - (if r == q {
                    1real / 2real
                } else {
                    0real
                }),
                kc == (if c == i {
                    1real
                } else {
                    0real
                }) - (if c == q {
                    1real / 2real
                } else {
                    0real
                }),
                q < i,
        ;
    } else {
        assert(individual_terms(p, i, (wn, wd)) =~= seq![t0]);
        assert(term_at(t0, r, c) == w * kr * kc) by (nonlinear_arith)
            requires
                term_at(t0, r, c) == (if r == i && c == i {
                    w
                } else {
                    0real
                }),
                kr == (if r == i {
                    1real
                } else {
                    0real
                }),
                kc == (if c == i {
                    1real
                } else {
                    0real
                }),
        ;
    }
}

/// Whether the Mendelian sampling variance of every individual is a whole
/// multiple of `1 / 2^122`, so that a term holds its weight.
pub open spec fn variances_held(p: Seq<(i64, i64, i64)>) -> bool {
    forall|i: int| 0 <= i < p.len() ==> whole(4real * (#[trigger] mendel(p, i) * unit()))
}

/// An integer that stands for four times the variance of the individual at
/// position `i` is the denominator of its exact weight.
pub proof fn lemma_exact_weight(p: Seq<(i64, i64, i64)>, i: int, l: int)
    requires
        0 <= i < p.len(),
        real_of(l) == 4real * unit() - ((if 0 <= sire(p, i) < i {
            rel(p, sire(p, i), sire(p, i)) * unit()
        } else {
            0real
        }) + (if 0 <= dam(p, i) < i {
            rel(p, dam(p, i), dam(p, i)) * unit()
        } else {
            0real
        })),
    ensures
        exact_weight(p, i) == (0x4_0000_0000_0000_0000_0000_0000_0000_00int, l),
        whole(4real * (mendel(p, i) * unit())),
{
    lemma_mendel_by_parents(p, i);
    lemma_count(l, 4real * (mendel(p, i) * unit()));
}

/// The weight that the terms carry as a fraction is the weight as a number.
pub proof fn lemma_weight_fraction(p: Seq<(i64, i64, i64)>, exact: bool, i: int)
    requires
        0 <= i < p.len(),
        exact ==> whole(4real * (mendel(p, i) * unit())),
    ensures
        weight(p, exact, i).0 as real / weight(p, exact, i).1 as real == weight_value(p, exact, i),
        0 < weight(p, exact, i).0 <= i128::MAX,
        0 < weight(p, exact, i).1,
        4 * weight(p, exact, i).1 <= i128::MAX,
{
    if exact {
        lemma_mendel_by_parents(p, i);
        let v = mendel(p, i);
        let four = 5316911983139663491615228241121378304real;
        let l = count(4real * (v * unit()));
        assert(real_of(l) == 4real * (v * unit()));
        let den = l as real;
        assert(den == v * four);
        assert(0real < den <= four);
        let w = four / den;
        assert(w * den == four) by (nonlinear_arith)
            requires
                w == four / den,
                den > 0real,
        ;
        let u = 1real / v;
        assert(u * v == 1real) by (nonlinear_arith)
            requires
                u == 1real / v,
                v > 0real,
        ;
        assert(w == u) by (nonlinear_arith)
            requires
                w * den == four,
                u * v == 1real,
                den == v * four,
                four > 0real,
                v > 0real,
        ;
        assert(weight(p, exact, i) == (0x4_0000_0000_0000_0000_0000_0000_0000_00int, l));
        assert(weight(p, exact, i).0 as real / weight(p, exact, i).1 as real == w);
    } else {
        let s = sire(p, i);
        let d = dam(p, i);
        if 0 <= s < i && 0 <= d < i {
            assert(weight(p, exact, i) == (2int, 1int));
            assert(2int as real / 1int as real == 2real);
        } else if 0 <= s < i || 0 <= d < i {
            assert(weight(p, exact, i) == (4int, 3int));
            assert(4int as real / 3int as real == 4real / 3real);
        } else {
            assert(weight(p, exact, i) == (1int, 1int));
            assert(1int as real / 1int as real == 1real);
        }
    }
}

/// The terms of the inverse add up, at each place, to the entry of the
/// inverse there.
pub proof fn lemma_inverse_terms_sum(
    p: Seq<(i64, i64, i64)>,
    exact: bool,
    upto: int,
    r: int,
    c: int,
)
    requires
        upto <= p.len() <= usize::MAX,
        exact ==> variances_held(p),
    ensures
        term_sum(inverse_terms(p, exact, upto), r, c) == inverse_entry(p, exact, upto, r, c),
    decreases upto,
{
    if upto > 0 {
        let i = upto - 1;
        lemma_inverse_terms_sum(p, exact, i, r, c);
        if exact {
            assert(whole(4real * (mendel(p, i) * unit())));
        }
        lemma_weight_fraction(p, exact, i);
        let w = weight(p, exact, i);
        lemma_individual_terms_sum(p, i, w.0, w.1, r, c);
        lemma_term_sum_concat(inverse_terms(p, exact, i), individual_terms(p, i, w), r, c);
    }
}

/// The inverse relationship matrix is symmetric.
pub proof fn lemma_inverse_symmetric(
    p: Seq<(i64, i64, i64)>,
    exact: bool,
    upto: int,
    r: int,
    c: int,
)
    ensures
        inverse_entry(p, exact, upto, r, c) == inverse_entry(p, exact, upto, c, r),
    decreases upto,
{
    if upto > 0 {
        lemma_inverse_symmetric(p, exact, upto - 1, r, c);
        let w = weight_value(p, exact, upto - 1);
        let kr = coefficient(p, upto - 1, r);
        let kc = coefficient(p, upto - 1, c);
        assert(w * kr * kc == w * kc * kr) by (nonlinear_arith);
    }
}

/// Whether no known parent of the individual at position `i` is inbred.
pub open spec fn parents_not_inbred(p: Seq<(i64, i64, i64)>, i: int) -> bool {
    &&& 0 <= sire(p, i) < i ==> rel(p, sire(p, i), sire(p, i)) == 1real
    &&& 0 <= dam(p, i) < i ==> rel(p, dam(p, i), dam(p, i)) == 1real
}

/// The exact and the approximate weight of an individual are the same just
/// when none of its known parents is inbred.
pub proof fn lemma_weights_agree(p: Seq<(i64, i64, i64)>, i: int)
    requires
        0 <= i < p.len(),
    ensures
        weight_value(p, true, i) == weight_value(p, false, i) <==> parents_not_inbred(p, i),
{
    let s = sire(p, i);
    let d = dam(p, i);
    lemma_mendel_by_parents(p, i);
    if 0 <= s < i {
        lemma_rel_bounds(p, s, s);
    }
    if 0 <= d < i {
        lemma_rel_bounds(p, d, d);
    }
    let v = mendel(p, i);
    let u = 1real / v;
    assert(u * v == 1real) by (nonlinear_arith)
        requires
            u == 1real / v,
            v > 0real,
    ;
    let a = weight_value(p, false, i);
    assert(u == a <==> v * a == 1real) by (nonlinear_arith)
        requires
            u * v == 1real,
            v > 0real,
    ;
}

/// Where no parent among the first `upto` individuals' parents is inbred,
/// the exact and the approximate inverse, as far as those individuals make
/// them up, are the same matrix.
pub proof fn lemma_variants_agree(p: Seq<(i64, i64, i64)>, upto: int, r: int, c: int)
    requires
        upto <= p.len(),
        forall|i: int| 0 <= i < upto ==> parents_not_inbred(p, i),
    ensures
        inverse_entry(p, true, upto, r, c) == inverse_entry(p, false, upto, r, c),
    decreases upto,
{
    if upto > 0 {
        lemma_variants_agree(p, upto - 1, r, c);
        lemma_weights_agree(p, upto - 1);
    }
}

/// On the diagonal cell of the individual at position `i`, the exact and the
/// approximate inverse differ by what the weights of `i` differ by, where no
/// later individual has an inbred parent.
proof fn lemma_diagonal_gap(p: Seq<(i64, i64, i64)>, i: int, upto: int)
    requires
        0 <= i < p.len(),
        upto <= p.len(),
        forall|k: int| i < k < p.len() ==> parents_not_inbred(p, k),
    ensures
        inverse_entry(p, true, upto, i, i) - inverse_entry(p, false, upto, i, i) == (if upto > i {
            weight_value(p, true, i) - weight_value(p, false, i)
        } else {
            0real
        }),
    decreases upto,
{
    if upto > 0 {
        let k = upto - 1;
        lemma_diagonal_gap(p, i, k);
        let we = weight_value(p, true, k);
        let wa = weight_value(p, false, k);
        let q = coefficient(p, k, i);
        if k < i {
            assert(q == 0real);
            assert(we * q * q == 0real && wa * q * q == 0real) by (nonlinear_arith)
                requires
                    q == 0real,
            ;
        } else if k == i {
            assert(q == 1real);
            assert(we * q * q == we && wa * q * q == wa) by (nonlinear_arith)
                requires
                    q == 1real,
            ;
        } else {
            lemma_weights_agree(p, k);
        }
    }
}

/// The last individual, among the first `upto`, that has an inbred parent.
proof fn last_with_inbred_parent(p: Seq<(i64, i64, i64)>, upto: int) -> (i: int)
    requires
        exists|k: int| 0 <= k < upto && !parents_not_inbred(p, k),
    ensures
        0 <= i < upto,
        !parents_not_inbred(p, i),
        forall|k: int| i < k < upto ==> parents_not_inbred(p, k),
    decreases upto,
{
    if !parents_not_inbred(p, upto - 1) {
        upto - 1
    } else {
        last_with_inbred_parent(p, upto - 1)
    }
}

/// The exact and the approximate inverse are the same matrix just when no
/// individual has an inbred parent.
pub proof fn lemma_variants_coincide(p: Seq<(i64, i64, i64)>)
    ensures
        (forall|r: int, c: int|
            0 <= r < p.len() && 0 <= c < p.len() ==> inverse_entry(p, true, p.len() as int, r, c)
                == inverse_entry(p, false, p.len() as int, r, c)) <==> (forall|i: int|
            0 <= i < p.len() ==> parents_not_inbred(p, i)),
{
    let n = p.len() as int;
    if forall|i: int| 0 <= i < n ==> parents_not_inbred(p, i) {
        assert forall|r: int, c: int| 0 <= r < n && 0 <= c < n implies inverse_entry(
            p,
            true,
            n,
            r,
            c,
        ) == inverse_entry(p, false, n, r, c) by {
            lemma_variants_agree(p, n, r, c);
        }
    } else {
        let i = last_with_inbred_parent(p, n);
        lemma_diagonal_gap(p, i, n);
        lemma_weights_agree(p, i);
        assert(inverse_entry(p, true, n, i, i) != inverse_entry(p, false, n, i, i));
    }
}

} // verus!
