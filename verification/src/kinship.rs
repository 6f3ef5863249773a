use crate::pedigree::{dam, depth, sire};
use vstd::arithmetic::power2::{lemma_pow2_pos, lemma_pow2_unfold, pow2};
use vstd::prelude::*;

verus! {

/// The additive relationship between the individuals at positions `i` and
/// `j`: the entry `(i, j)` of the numerator relationship matrix. An
/// individual is related to an earlier one by half of what its parents are,
/// and to itself by one plus half the relationship between its parents. An
/// unknown parent is taken to be unrelated to everybody.
pub open spec fn rel(p: Seq<(i64, i64, i64)>, i: int, j: int) -> real
    decreases
            (if i >= j {
                i
            } else {
                j
            }),
            (if i < j {
                1int
            } else {
                0int
            }),
{
    if !(0 <= i < p.len() && 0 <= j < p.len()) {
        0real
    } else if i < j {
        rel(p, j, i)
    } else {
        let s = sire(p, i);
        let d = dam(p, i);
        if i == j {
            if 0 <= s < i && 0 <= d < i {
                1real + rel(p, s, d) / 2real
            } else {
                1real
            }
        } else {
            ((if 0 <= s < i {
                rel(p, j, s)
            } else {
                0real
            }) + (if 0 <= d < i {
                rel(p, j, d)
            } else {
                0real
            })) / 2real
        }
    }
}

/// The relationship `rel(p, i, j)` counted in units of `1 / 2^k`. It is the
/// same recurrence with the halving taken out of the unit, and is exact
/// where `k` is at least the depths of `i` and `j` added up.
pub open spec fn rel_num(p: Seq<(i64, i64, i64)>, k: nat, i: int, j: int) -> int
    decreases
            (if i >= j {
                i
            } else {
                j
            }),
            (if i < j {
                1int
            } else {
                0int
            }),
{
    if !(0 <= i < p.len() && 0 <= j < p.len()) {
        0
    } else if i < j {
        rel_num(p, k, j, i)
    } else {
        let s = sire(p, i);
        let d = dam(p, i);
        if i == j {
            if 0 <= s < i && 0 <= d < i && k >= 1 {
                pow2(k) + rel_num(p, (k - 1) as nat, s, d)
            } else {
                pow2(k) as int
            }
        } else if k >= 1 {
            (if 0 <= s < i {
                rel_num(p, (k - 1) as nat, j, s)
            } else {
                0
            }) + (if 0 <= d < i {
                rel_num(p, (k - 1) as nat, j, d)
            } else {
                0
            })
        } else {
            0
        }
    }
}

/// The relationship matrix is symmetric.
pub proof fn lemma_rel_symmetric(p: Seq<(i64, i64, i64)>, i: int, j: int)
    ensures
        rel(p, i, j) == rel(p, j, i),
        forall|k: nat| rel_num(p, k, i, j) == rel_num(p, k, j, i),
{
}

/// A known parent is at least one generation above its offspring.
pub proof fn lemma_parent_depth(p: Seq<(i64, i64, i64)>, i: int)
    requires
        0 <= i < p.len(),
    ensures
        0 <= sire(p, i) < i ==> depth(p, sire(p, i)) + 1 <= depth(p, i),
        0 <= dam(p, i) < i ==> depth(p, dam(p, i)) + 1 <= depth(p, i),
{
}

/// No relationship is negative, and none exceeds two.
pub proof fn lemma_rel_num_bounds(p: Seq<(i64, i64, i64)>, k: nat, i: int, j: int)
    ensures
        0 <= rel_num(p, k, i, j) <= 2 * pow2(k),
    decreases
            (if i >= j {
                i
            } else {
                j
            }),
            (if i < j {
                1int
            } else {
                0int
            }),
{
    lemma_pow2_pos(k);
    if !(0 <= i < p.len() && 0 <= j < p.len()) {
    } else if i < j {
        lemma_rel_num_bounds(p, k, j, i);
    } else {
        let s = sire(p, i);
        let d = dam(p, i);
        if k >= 1 {
            lemma_pow2_unfold(k);
            let k1 = (k - 1) as nat;
            if i == j {
                if 0 <= s < i && 0 <= d < i {
                    lemma_rel_num_bounds(p, k1, s, d);
                }
            } else {
                if 0 <= s < i {
                    lemma_rel_num_bounds(p, k1, j, s);
                }
                if 0 <= d < i {
                    lemma_rel_num_bounds(p, k1, j, d);
                }
            }
        }
    }
}

/// Where the unit `1 / 2^k` is fine enough for `i` and `j`, the count is the
/// relationship itself times `2^k`.
pub proof fn lemma_rel_num_exact(p: Seq<(i64, i64, i64)>, k: nat, i: int, j: int)
    requires
        0 <= i < p.len(),
        0 <= j < p.len(),
        k >= depth(p, i) + depth(p, j),
    ensures
        rel_num(p, k, i, j) as real == rel(p, i, j) * (pow2(k) as real),
    decreases
            (if i >= j {
                i
            } else {
                j
            }),
            (if i < j {
                1int
            } else {
                0int
            }),
{
    if i < j {
        lemma_rel_num_exact(p, k, j, i);
    } else {
        let s = sire(p, i);
        let d = dam(p, i);
        lemma_parent_depth(p, i);
        let unit = pow2(k) as real;
        if i == j {
            if 0 <= s < i && 0 <= d < i {
                let k1 = (k - 1) as nat;
                lemma_pow2_unfold(k);
                lemma_rel_num_exact(p, k1, s, d);
                let half_unit = pow2(k1) as real;
                let r = rel(p, s, d);
                assert(unit == 2real * half_unit);
                assert((1real + r / 2real) * unit == unit + r * half_unit) by (nonlinear_arith)
                    requires
                        unit == 2real * half_unit,
                ;
            } else {
                assert(1real * unit == unit);
            }
        } else {
            let rs = if 0 <= s < i {
                rel(p, j, s)
            } else {
                0real
            };
            let rd = if 0 <= d < i {
                rel(p, j, d)
            } else {
                0real
            };
            if k >= 1 {
                let k1 = (k - 1) as nat;
                lemma_pow2_unfold(k);
                let half_unit = pow2(k1) as real;
                if 0 <= s < i {
                    lemma_rel_num_exact(p, k1, j, s);
                }
                if 0 <= d < i {
                    lemma_rel_num_exact(p, k1, j, d);
                }
                assert(unit == 2real * half_unit);
                assert(((rs + rd) / 2real) * unit == rs * half_unit + rd * half_unit)
                    by (nonlinear_arith)
                    requires
                        unit == 2real * half_unit,
                ;
                assert(0real * half_unit == 0real);
            } else {
                assert(!(0 <= s < i) && !(0 <= d < i));
                assert(((0real + 0real) / 2real) * unit == 0real) by (nonlinear_arith);
            }
        }
    }
}

/// An individual that descends from founders is related to nobody, not even
/// to itself, by as much as two.
pub proof fn lemma_rel_num_below_two(p: Seq<(i64, i64, i64)>, k: nat, i: int, j: int)
    requires
        0 <= i < p.len(),
        0 <= j < p.len(),
        k >= depth(p, i) + depth(p, j),
    ensures
        rel_num(p, k, i, j) <= 2 * pow2(k) - 1,
    decreases
            (if i >= j {
                i
            } else {
                j
            }),
            (if i < j {
                1int
            } else {
                0int
            }),
{
    lemma_pow2_pos(k);
    if i < j {
        lemma_rel_num_below_two(p, k, j, i);
    } else {
        let s = sire(p, i);
        let d = dam(p, i);
        lemma_parent_depth(p, i);
        if k >= 1 {
            lemma_pow2_unfold(k);
            let k1 = (k - 1) as nat;
            if i == j {
                if 0 <= s < i && 0 <= d < i {
                    lemma_rel_num_below_two(p, k1, s, d);
                }
            } else {
                if 0 <= s < i {
                    lemma_rel_num_below_two(p, k1, j, s);
                }
                if 0 <= d < i {
                    lemma_rel_num_below_two(p, k1, j, d);
                }
            }
        }
    }
}

/// Every relationship lies between zero and two, two left out, and that of
/// an individual to itself is at least one.
pub proof fn lemma_rel_bounds(p: Seq<(i64, i64, i64)>, i: int, j: int)
    requires
        0 <= i < p.len(),
        0 <= j < p.len(),
    ensures
        0real <= rel(p, i, j) < 2real,
        rel(p, i, i) >= 1real,
{
    let k = depth(p, i) + depth(p, j);
    lemma_rel_num_exact(p, k, i, j);
    lemma_rel_num_bounds(p, k, i, j);
    lemma_rel_num_below_two(p, k, i, j);
    lemma_pow2_pos(k);
    let unit = pow2(k) as real;
    let count = rel_num(p, k, i, j) as real;
    let r = rel(p, i, j);
    assert(0real <= r < 2real) by (nonlinear_arith)
        requires
            unit >= 1real,
            count == r * unit,
            0real <= count <= 2real * unit - 1real,
    ;
    let s = sire(p, i);
    let d = dam(p, i);
    if 0 <= s < i && 0 <= d < i {
        let ks = depth(p, s) + depth(p, d);
        lemma_rel_num_exact(p, ks, s, d);
        lemma_rel_num_bounds(p, ks, s, d);
        lemma_pow2_pos(ks);
        let unit_s = pow2(ks) as real;
        let count_s = rel_num(p, ks, s, d) as real;
        let rs = rel(p, s, d);
        assert(0real <= rs) by (nonlinear_arith)
            requires
                unit_s >= 1real,
                count_s == rs * unit_s,
                0real <= count_s,
        ;
    }
}

/// An individual is related to itself by exactly one where it is not
/// inbred, that is unless both its parents are known and related to each
/// other, and by more than one where it is.
pub proof fn lemma_rel_diagonal(p: Seq<(i64, i64, i64)>, i: int)
    requires
        0 <= i < p.len(),
    ensures
        rel(p, i, i) >= 1real,
        rel(p, i, i) == 1real <==> !(0 <= sire(p, i) < i && 0 <= dam(p, i) < i && rel(
            p,
            sire(p, i),
            dam(p, i),
        ) > 0real),
{
    let s = sire(p, i);
    let d = dam(p, i);
    lemma_rel_bounds(p, i, i);
    if 0 <= s < i && 0 <= d < i {
        lemma_rel_bounds(p, s, d);
    }
}

/// One in the unit of the fixed-point cells: `2^120`.
pub open spec fn unit() -> real {
    1329227995784915872903807060280344576real
}

/// The integer `k` as a real number.
pub open spec fn real_of(k: int) -> real {
    k as real
}

/// Whether `x` is a whole number.
pub open spec fn whole(x: real) -> bool {
    exists|k: int| #[trigger] real_of(k) == x
}

/// The whole number that `x` is, where it is one.
pub open spec fn count(x: real) -> int {
    choose|k: int| #[trigger] real_of(k) == x
}

/// Whether every relationship in the pedigree is a whole multiple of
/// `1 / 2^120`, so that a fixed-point cell holds it exactly.
pub open spec fn representable(p: Seq<(i64, i64, i64)>) -> bool {
    forall|i: int, j: int|
        0 <= i < p.len() && 0 <= j < p.len() ==> whole(#[trigger] rel(p, i, j) * unit())
}

/// A number that an integer stands for is whole, and that integer is its
/// count.
pub proof fn lemma_count(k: int, x: real)
    requires
        k as real == x,
    ensures
        whole(x),
        count(x) == k,
{
    assert(real_of(k) == x);
    let c = count(x);
    assert(real_of(c) == x);
}

/// The cell that stands for a relationship lies between zero and two, two
/// left out.
pub proof fn lemma_cell_range(p: Seq<(i64, i64, i64)>, i: int, j: int, c: int)
    requires
        0 <= i < p.len(),
        0 <= j < p.len(),
        c as real == rel(p, i, j) * unit(),
    ensures
        0 <= c < 2 * 1329227995784915872903807060280344576,
        i == j ==> c >= 1329227995784915872903807060280344576,
{
    lemma_rel_bounds(p, i, j);
    if i == j {
        lemma_rel_bounds(p, i, i);
    }
}

} // verus!
