use crate::error::Error;
use crate::matrix::{lemma_cell_in_storage, Matrix};
use vstd::prelude::*;

verus! {

/// The rows of `top` followed by the rows of `bottom`.
pub open spec fn stacked<T>(top: Seq<Seq<T>>, bottom: Seq<Seq<T>>) -> Seq<Seq<T>> {
    top + bottom
}

/// Each row of `left` followed by the row of `right` at the same height.
pub open spec fn side_by_side<T>(left: Seq<Seq<T>>, right: Seq<Seq<T>>) -> Seq<Seq<T>> {
    Seq::new(left.len(), |i: int| left[i] + right[i])
}

/// The block matrix with `a` and `b` above `c` and `d`.
pub open spec fn blocks<T>(a: Seq<Seq<T>>, b: Seq<Seq<T>>, c: Seq<Seq<T>>, d: Seq<Seq<T>>) -> Seq<
    Seq<T>,
> {
    side_by_side(stacked(a, c), stacked(b, d))
}

/// Whether a matrix of `nrows` rows and `ncols` columns has no more rows,
/// columns and cells than a `usize` counts.
pub open spec fn countable(nrows: int, ncols: int) -> bool {
    nrows <= usize::MAX && ncols <= usize::MAX && nrows * ncols <= usize::MAX
}

/// Stacks `block_a` on top of `block_c`. The two must have as many columns as
/// each other, or the composition fails with `DimensionMismatch`; blocks that
/// fit but have more rows or cells together than a `usize` counts are refused
/// with `LimitExceeded`.
pub fn compose_v_mat<T>(block_a: Matrix<T>, block_c: Matrix<T>) -> (r: Result<Matrix<T>, Error>)
    ensures
        block_a.ncols() != block_c.ncols() ==> r == Err::<Matrix<T>, Error>(
            Error::DimensionMismatch,
        ),
        block_a.ncols() == block_c.ncols() && !countable(
            block_a.nrows() + block_c.nrows(),
            block_a.ncols() as int,
        ) ==> r == Err::<Matrix<T>, Error>(Error::LimitExceeded),
        block_a.ncols() == block_c.ncols() && countable(
            block_a.nrows() + block_c.nrows(),
            block_a.ncols() as int,
        ) ==> {
            &&& r is Ok
            &&& r->Ok_0.nrows() == block_a.nrows() + block_c.nrows()
            &&& r->Ok_0.ncols() == block_a.ncols()
            &&& r->Ok_0@ == stacked(block_a@, block_c@)
        },
{
    if block_a.ncols() != block_c.ncols() {
        return Err(Error::DimensionMismatch);
    }
    let ncols: usize = block_a.ncols();
    let upper: usize = block_a.nrows();
    let lower: usize = block_c.nrows();
    let nrows: usize = match upper.checked_add(lower) {
        Some(sum) => sum,
        None => {
            return Err(Error::LimitExceeded);
        },
    };
    if nrows.checked_mul(ncols).is_none() {
        return Err(Error::LimitExceeded);
    }
    let mut cells: Vec<T> = block_a.into_row_major();
    let mut rest: Vec<T> = block_c.into_row_major();
    let ghost head = cells@;
    let ghost tail = rest@;
    cells.append(&mut rest);
    proof {
        assert(nrows * ncols == upper * ncols + lower * ncols) by (nonlinear_arith)
            requires
                nrows == upper + lower,
        ;
    }
    let m: Matrix<T> = Matrix::from_cells(nrows, ncols, cells);
    proof {
        assert forall|i: int, j: int| 0 <= i < nrows && 0 <= j < ncols implies m.at(i, j)
            == stacked(block_a@, block_c@)[i][j] by {
            lemma_cell_in_storage(i, j, nrows as int, ncols as int);
            if i < upper {
                lemma_cell_in_storage(i, j, upper as int, ncols as int);
                assert(m.at(i, j) == head[i * ncols + j]);
            } else {
                lemma_cell_in_storage(i - upper, j, lower as int, ncols as int);
                assert(i * ncols + j - upper * ncols == (i - upper) * ncols + j)
                    by (nonlinear_arith);
                assert(m.at(i, j) == tail[(i - upper) * ncols + j]);
                assert(block_c@[i - upper][j] == block_c.at(i - upper, j));
            }
        }
        assert(m@ =~~= stacked(block_a@, block_c@));
    }
    Ok(m)
}

/// The cell `(p, q)` of `left` and `right` set side by side.
pub open spec fn side_by_side_cell<T>(left: Matrix<T>, right: Matrix<T>, p: int, q: int) -> T {
    if q < left.spec_ncols() {
        left.at(p, q)
    } else {
        right.at(p, q - left.spec_ncols())
    }
}

/// Sets `block_b` to the right of `block_a`. The two must have as many rows
/// as each other, or the composition fails with `DimensionMismatch`; blocks
/// that fit but have more columns or cells together than a `usize` counts
/// are refused with `LimitExceeded`.
pub fn compose_h_mat<T: Copy>(block_a: Matrix<T>, block_b: Matrix<T>) -> (r: Result<
    Matrix<T>,
    Error,
>)
    ensures
        block_a.nrows() != block_b.nrows() ==> r == Err::<Matrix<T>, Error>(
            Error::DimensionMismatch,
        ),
        block_a.nrows() == block_b.nrows() && !countable(
            block_a.nrows() as int,
            block_a.ncols() + block_b.ncols(),
        ) ==> r == Err::<Matrix<T>, Error>(Error::LimitExceeded),
        block_a.nrows() == block_b.nrows() && countable(
            block_a.nrows() as int,
            block_a.ncols() + block_b.ncols(),
        ) ==> {
            &&& r is Ok
            &&& r->Ok_0.nrows() == block_a.nrows()
            &&& r->Ok_0.ncols() == block_a.ncols() + block_b.ncols()
            &&& r->Ok_0@ == side_by_side(block_a@, block_b@)
        },
{
    if block_a.nrows() != block_b.nrows() {
        return Err(Error::DimensionMismatch);
    }
    let nrows: usize = block_a.nrows();
    let left: usize = block_a.ncols();
    let right: usize = block_b.ncols();
    let ncols: usize = match left.checked_add(right) {
        Some(sum) => sum,
        None => {
            return Err(Error::LimitExceeded);
        },
    };
    if nrows.checked_mul(ncols).is_none() {
        return Err(Error::LimitExceeded);
    }
    let mut cells: Vec<T> = Vec::new();
    let mut i: usize = 0;
    while i < nrows
        invariant
            i <= nrows,
            nrows == block_a.spec_nrows(),
            nrows == block_b.spec_nrows(),
            left == block_a.spec_ncols(),
            right == block_b.spec_ncols(),
            ncols == left + right,
            cells@.len() == i * ncols,
            forall|p: int, q: int|
                0 <= p < i && 0 <= q < ncols ==> cells@[p * ncols + q] == #[trigger] side_by_side_cell(
                    block_a,
                    block_b,
                    p,
                    q,
                ),
        decreases nrows - i,
    {
        let ghost done = cells@;
        proof {
            assert((i + 1) * ncols == i * ncols + ncols) by (nonlinear_arith);
        }
        let mut j: usize = 0;
        while j < left
            invariant
                j <= left,
                i < nrows,
                nrows == block_a.spec_nrows(),
                left == block_a.spec_ncols(),
                cells@.len() == i * ncols + j,
                cells@.subrange(0, i * ncols) == done,
                forall|q: int| 0 <= q < j ==> cells@[i * ncols + q] == block_a.at(i as int, q),
            decreases left - j,
        {
            cells.push(block_a.cell(i, j));
            j = j + 1;
            assert(cells@.subrange(0, i * ncols) =~= done);
        }
        let mut k: usize = 0;
        while k < right
            invariant
                k <= right,
                i < nrows,
                nrows == block_b.spec_nrows(),
                right == block_b.spec_ncols(),
                cells@.len() == i * ncols + left + k,
                cells@.subrange(0, i * ncols) == done,
                forall|q: int| 0 <= q < left ==> cells@[i * ncols + q] == block_a.at(i as int, q),
                forall|q: int|
                    0 <= q < k ==> cells@[i * ncols + left + q] == block_b.at(i as int, q),
            decreases right - k,
        {
            cells.push(block_b.cell(i, k));
            k = k + 1;
            assert(cells@.subrange(0, i * ncols) =~= done);
        }
        proof {
            assert forall|p: int, q: int| 0 <= p < i + 1 && 0 <= q < ncols implies cells@[p
                * ncols + q] == #[trigger] side_by_side_cell(block_a, block_b, p, q) by {
                if p < i {
                    lemma_cell_in_storage(p, q, i as int, ncols as int);
                    assert(cells@[p * ncols + q] == cells@.subrange(0, i * ncols)[p * ncols + q]);
                    assert(done[p * ncols + q] == side_by_side_cell(block_a, block_b, p, q));
                } else if q >= left {
                    assert(cells@[i * ncols + left + (q - left)] == block_b.at(i as int, q - left));
                }
            }
        }
        i = i + 1;
    }
    let m: Matrix<T> = Matrix::from_cells(nrows, ncols, cells);
    proof {
        assert forall|p: int, q: int| 0 <= p < nrows && 0 <= q < ncols implies m.at(p, q)
            == side_by_side(block_a@, block_b@)[p][q] by {
            assert(m.at(p, q) == side_by_side_cell(block_a, block_b, p, q));
        }
        assert(m@ =~~= side_by_side(block_a@, block_b@));
    }
    Ok(m)
}

/// Builds the block matrix
///
/// ```text
/// A B
/// C D
/// ```
///
/// by stacking `block_a` on `block_c` and `block_b` on `block_d`, then
/// setting the two stacks side by side. Blocks in one row of the picture
/// must have as many rows as each other, blocks in one column as many
/// columns, or the composition fails with `DimensionMismatch`; blocks that
/// fit but have more rows, columns or cells together than a `usize` counts
/// are refused with `LimitExceeded`.
pub fn compose_sqr_mat<T: Copy>(
    block_a: Matrix<T>,
    block_b: Matrix<T>,
    block_c: Matrix<T>,
    block_d: Matrix<T>,
) -> (r: Result<Matrix<T>, Error>)
    ensures
        !blocks_fit(block_a, block_b, block_c, block_d) ==> r == Err::<Matrix<T>, Error>(
            Error::DimensionMismatch,
        ),
        blocks_fit(block_a, block_b, block_c, block_d) && !blocks_countable(block_a, block_d) ==> r
            == Err::<Matrix<T>, Error>(Error::LimitExceeded),
        blocks_fit(block_a, block_b, block_c, block_d) && blocks_countable(block_a, block_d) ==> {
            &&& r is Ok
            &&& r->Ok_0.nrows() == block_a.nrows() + block_d.nrows()
            &&& r->Ok_0.ncols() == block_a.ncols() + block_d.ncols()
            &&& r->Ok_0@ == blocks(block_a@, block_b@, block_c@, block_d@)
            &&& forall|i: int, j: int|
                0 <= i < block_a.nrows() && 0 <= j < block_a.ncols() ==> r->Ok_0.at(i, j)
                    == #[trigger] block_a.at(i, j)
            &&& forall|i: int, j: int|
                0 <= i < block_b.nrows() && 0 <= j < block_b.ncols() ==> r->Ok_0.at(
                    i,
                    block_a.ncols() + j,
                ) == #[trigger] block_b.at(i, j)
            &&& forall|i: int, j: int|
                0 <= i < block_c.nrows() && 0 <= j < block_c.ncols() ==> r->Ok_0.at(
                    block_a.nrows() + i,
                    j,
                ) == #[trigger] block_c.at(i, j)
            &&& forall|i: int, j: int|
                0 <= i < block_d.nrows() && 0 <= j < block_d.ncols() ==> r->Ok_0.at(
                    block_a.nrows() + i,
                    block_a.ncols() + j,
                ) == #[trigger] block_d.at(i, j)
        },
{
    if block_a.nrows() != block_b.nrows() || block_c.nrows() != block_d.nrows() || block_a.ncols()
        != block_c.ncols() || block_b.ncols() != block_d.ncols() {
        return Err(Error::DimensionMismatch);
    }
    let nrows: usize = match block_a.nrows().checked_add(block_d.nrows()) {
        Some(sum) => sum,
        None => {
            return Err(Error::LimitExceeded);
        },
    };
    let ncols: usize = match block_a.ncols().checked_add(block_d.ncols()) {
        Some(sum) => sum,
        None => {
            return Err(Error::LimitExceeded);
        },
    };
    if nrows.checked_mul(ncols).is_none() {
        return Err(Error::LimitExceeded);
    }
    proof {
        let left = block_a.ncols() as int;
        let right = block_d.ncols() as int;
        assert(nrows * left <= nrows * ncols && nrows * right <= nrows * ncols)
            by (nonlinear_arith)
            requires
                ncols == left + right,
                0 <= left,
                0 <= right,
                0 <= nrows,
        ;
    }
    let block_l: Matrix<T> = match compose_v_mat(block_a, block_c) {
        Ok(m) => m,
        Err(e) => {
            return Err(e);
        },
    };
    let block_r: Matrix<T> = match compose_v_mat(block_b, block_d) {
        Ok(m) => m,
        Err(e) => {
            return Err(e);
        },
    };
    proof {
        assert(block_l@.len() == block_l.nrows());
        assert(block_r@.len() == block_r.nrows());
        assert(block_a@.len() == block_a.nrows() && block_c@.len() == block_c.nrows());
        assert(block_b@.len() == block_b.nrows() && block_d@.len() == block_d.nrows());
    }
    let r = compose_h_mat(block_l, block_r);
    proof {
        let m = r->Ok_0;
        let top = block_a.nrows() as nat;
        let bottom = block_d.nrows() as nat;
        let left = block_a.ncols() as nat;
        let right = block_d.ncols() as nat;
        lemma_blocks_quadrants(
            block_a@,
            block_b@,
            block_c@,
            block_d@,
            top,
            bottom,
            left,
            right,
        );
        assert(m@.len() == m.nrows());
        assert forall|i: int, j: int| 0 <= i < top && 0 <= j < left implies m.at(i, j)
            == #[trigger] block_a.at(i, j) by {
            assert(m@[i][j] == block_a@[i][j]);
        }
        assert forall|i: int, j: int| 0 <= i < top && 0 <= j < right implies m.at(i, left + j)
            == #[trigger] block_b.at(i, j) by {
            assert(m@[i][left + j] == block_b@[i][j]);
        }
        assert forall|i: int, j: int| 0 <= i < bottom && 0 <= j < left implies m.at(top + i, j)
            == #[trigger] block_c.at(i, j) by {
            assert(m@[top + i][j] == block_c@[i][j]);
        }
        assert forall|i: int, j: int| 0 <= i < bottom && 0 <= j < right implies m.at(
            top + i,
            left + j,
        ) == #[trigger] block_d.at(i, j) by {
            assert(m@[top + i][left + j] == block_d@[i][j]);
        }
    }
    r
}

/// Whether a block matrix with `a` at the top left and `d` at the bottom
/// right has no more rows, columns and cells than a `usize` counts.
pub open spec fn blocks_countable<T>(a: Matrix<T>, d: Matrix<T>) -> bool {
    countable(a.spec_nrows() + d.spec_nrows(), a.spec_ncols() + d.spec_ncols())
}

/// Whether four blocks can form one block matrix.
pub open spec fn blocks_fit<T>(a: Matrix<T>, b: Matrix<T>, c: Matrix<T>, d: Matrix<T>) -> bool {
    &&& a.spec_nrows() == b.spec_nrows()
    &&& c.spec_nrows() == d.spec_nrows()
    &&& a.spec_ncols() == c.spec_ncols()
    &&& b.spec_ncols() == d.spec_ncols()
}

/// Whether `m` is a rectangle of `nrows` rows of `ncols` cells each.
pub open spec fn rectangular<T>(m: Seq<Seq<T>>, nrows: nat, ncols: nat) -> bool {
    m.len() == nrows && forall|i: int| 0 <= i < nrows ==> (#[trigger] m[i]).len() == ncols
}

/// Each block is found again, cell for cell, in its quarter of the composed
/// matrix: `a` at the top left, `b` at the top right, `c` at the bottom left
/// and `d` at the bottom right. Nothing else is in it.
pub proof fn lemma_blocks_quadrants<T>(
    a: Seq<Seq<T>>,
    b: Seq<Seq<T>>,
    c: Seq<Seq<T>>,
    d: Seq<Seq<T>>,
    top: nat,
    bottom: nat,
    left: nat,
    right: nat,
)
    requires
        rectangular(a, top, left),
        rectangular(b, top, right),
        rectangular(c, bottom, left),
        rectangular(d, bottom, right),
    ensures
        rectangular(blocks(a, b, c, d), top + bottom, left + right),
        forall|i: int, j: int|
            0 <= i < top && 0 <= j < left ==> blocks(a, b, c, d)[i][j] == #[trigger] a[i][j],
        forall|i: int, j: int|
            0 <= i < top && 0 <= j < right ==> blocks(a, b, c, d)[i][left + j]
                == #[trigger] b[i][j],
        forall|i: int, j: int|
            0 <= i < bottom && 0 <= j < left ==> blocks(a, b, c, d)[top + i][j]
                == #[trigger] c[i][j],
        forall|i: int, j: int|
            0 <= i < bottom && 0 <= j < right ==> blocks(a, b, c, d)[top + i][left + j]
                == #[trigger] d[i][j],
{
    let m = blocks(a, b, c, d);
    assert forall|i: int| 0 <= i < top + bottom implies (#[trigger] m[i]).len() == left
        + right by {
        if i < top {
            assert(stacked(a, c)[i] == a[i]);
            assert(stacked(b, d)[i] == b[i]);
        } else {
            assert(stacked(a, c)[i] == c[i - top]);
            assert(stacked(b, d)[i] == d[i - top]);
        }
    }
    assert forall|i: int, j: int| 0 <= i < bottom && 0 <= j < left implies m[top + i][j]
        == #[trigger] c[i][j] by {
        assert(stacked(a, c)[top + i] == c[i]);
    }
    assert forall|i: int, j: int| 0 <= i < bottom && 0 <= j < right implies m[top + i][left + j]
        == #[trigger] d[i][j] by {
        assert(stacked(a, c)[top + i] == c[i]);
        assert(stacked(b, d)[top + i] == d[i]);
    }
}

/// Joins two column vectors, `vec_a` above `vec_c`.
pub fn compose_v_vec<T>(vec_a: Vec<T>, vec_c: Vec<T>) -> (r: Vec<T>)
    ensures
        r@ == vec_a@ + vec_c@,
{
    let mut joined: Vec<T> = vec_a;
    let mut rest: Vec<T> = vec_c;
    joined.append(&mut rest);
    joined
}

/// Joins two row vectors, `vec_a` to the left of `vec_b`.
pub fn compose_h_vec<T>(vec_a: Vec<T>, vec_b: Vec<T>) -> (r: Vec<T>)
    ensures
        r@ == vec_a@ + vec_b@,
{
    let mut joined: Vec<T> = vec_a;
    let mut rest: Vec<T> = vec_b;
    joined.append(&mut rest);
    joined
}

/// Assembles the mixed-model equations from the cross products of the
/// design matrices: the coefficient matrix
///
/// ```text
/// X'X  X'Z
/// Z'X  Z'Z + alpha A^-1
/// ```
///
/// and the right-hand side `X'y` above `Z'y`. The blocks must fit together,
/// and each half of the right-hand side must be as long as its blocks are
/// high, or the assembly fails with `DimensionMismatch`; a system with more
/// rows, columns or cells than a `usize` counts is refused with
/// `LimitExceeded`.
pub fn normal_equations<T: Copy>(
    x_t_x: Matrix<T>,
    x_t_z: Matrix<T>,
    z_t_x: Matrix<T>,
    z_t_z: Matrix<T>,
    x_t_y: Vec<T>,
    z_t_y: Vec<T>,
) -> (r: Result<(Matrix<T>, Vec<T>), Error>)
    ensures
        !equations_fit(x_t_x, x_t_z, z_t_x, z_t_z, x_t_y@, z_t_y@) ==> r == Err::<
            (Matrix<T>, Vec<T>),
            Error,
        >(Error::DimensionMismatch),
        equations_fit(x_t_x, x_t_z, z_t_x, z_t_z, x_t_y@, z_t_y@) && !blocks_countable(x_t_x, z_t_z)
            ==> r == Err::<(Matrix<T>, Vec<T>), Error>(Error::LimitExceeded),
        equations_fit(x_t_x, x_t_z, z_t_x, z_t_z, x_t_y@, z_t_y@) && blocks_countable(x_t_x, z_t_z)
            ==> {
            &&& r is Ok
            &&& r->Ok_0.0.nrows() == x_t_x.nrows() + z_t_z.nrows()
            &&& r->Ok_0.0.ncols() == x_t_x.ncols() + z_t_z.ncols()
            &&& r->Ok_0.0@ == blocks(x_t_x@, x_t_z@, z_t_x@, z_t_z@)
            &&& r->Ok_0.1@ == x_t_y@ + z_t_y@
        },
{
    if x_t_y.len() != x_t_x.nrows() || z_t_y.len() != z_t_z.nrows() {
        return Err(Error::DimensionMismatch);
    }
    match compose_sqr_mat(x_t_x, x_t_z, z_t_x, z_t_z) {
        Ok(r_mat) => Ok((r_mat, compose_v_vec(x_t_y, z_t_y))),
        Err(e) => Err(e),
    }
}

/// Whether the six parts of the mixed-model equations fit together.
pub open spec fn equations_fit<T>(
    x_t_x: Matrix<T>,
    x_t_z: Matrix<T>,
    z_t_x: Matrix<T>,
    z_t_z: Matrix<T>,
    x_t_y: Seq<T>,
    z_t_y: Seq<T>,
) -> bool {
    &&& blocks_fit(x_t_x, x_t_z, z_t_x, z_t_z)
    &&& x_t_y.len() == x_t_x.spec_nrows()
    &&& z_t_y.len() == z_t_z.spec_nrows()
}

} // verus!
