use vstd::prelude::*;

verus! {

/// A dense matrix, stored row by row in one allocation.
#[derive(Debug, PartialEq)]
pub struct Matrix<T> {
    nrows: usize,
    ncols: usize,
    data: Vec<T>,
}

/// The cell `(i, j)` of an `nrows` by `ncols` matrix has a place in its
/// row-major storage.
pub proof fn lemma_cell_in_storage(i: int, j: int, nrows: int, ncols: int)
    requires
        0 <= i < nrows,
        0 <= j < ncols,
    ensures
        0 <= i * ncols + j < nrows * ncols,
        i * ncols + j < (i + 1) * ncols,
        (i + 1) * ncols <= nrows * ncols,
{
    assert(i * ncols >= 0) by (nonlinear_arith)
        requires
            0 <= i,
            0 <= ncols,
    ;
    assert((i + 1) * ncols == i * ncols + ncols) by (nonlinear_arith);
    assert((i + 1) * ncols <= nrows * ncols) by (nonlinear_arith)
        requires
            i + 1 <= nrows,
            0 <= ncols,
    ;
}

impl<T> Matrix<T> {
    #[verifier::type_invariant]
    spec fn storage_fits(self) -> bool {
        &&& self.data@.len() == self.nrows * self.ncols
        &&& self.nrows * self.ncols <= usize::MAX
    }

    /// The number of rows.
    pub closed spec fn spec_nrows(&self) -> usize {
        self.nrows
    }

    /// The number of columns.
    pub closed spec fn spec_ncols(&self) -> usize {
        self.ncols
    }

    /// The value in row `i`, column `j`.
    pub closed spec fn at(&self, i: int, j: int) -> T {
        self.data@[i * self.ncols + j]
    }

    /// The matrix as the sequence of its rows.
    pub open spec fn view(&self) -> Seq<Seq<T>> {
        Seq::new(
            self.spec_nrows() as nat,
            |i: int| Seq::new(self.spec_ncols() as nat, |j: int| self.at(i, j)),
        )
    }

    /// The number of rows.
    #[verifier::when_used_as_spec(spec_nrows)]
    pub fn nrows(&self) -> (n: usize)
        ensures
            n == self.spec_nrows(),
    {
        self.nrows
    }

    /// The number of columns.
    #[verifier::when_used_as_spec(spec_ncols)]
    pub fn ncols(&self) -> (n: usize)
        ensures
            n == self.spec_ncols(),
    {
        self.ncols
    }

    /// Builds a matrix from its cells listed row by row.
    pub fn from_cells(nrows: usize, ncols: usize, cells: Vec<T>) -> (m: Matrix<T>)
        requires
            cells@.len() == nrows * ncols,
        ensures
            m.spec_nrows() == nrows,
            m.spec_ncols() == ncols,
            forall|i: int, j: int|
                0 <= i < nrows && 0 <= j < ncols ==> #[trigger] m.at(i, j) == cells@[i * ncols
                    + j],
    {
        // a vector never holds more than usize::MAX items
        let _: usize = cells.len();
        Matrix { nrows, ncols, data: cells }
    }

    /// Builds a matrix from its cells listed row by row, or `None` unless the
    /// list holds exactly `nrows * ncols` of them.
    pub fn from_row_major(nrows: usize, ncols: usize, cells: Vec<T>) -> (r: Option<Matrix<T>>)
        ensures
            r is Some <==> cells@.len() == nrows * ncols,
            r is Some ==> {
                &&& r->0.spec_nrows() == nrows
                &&& r->0.spec_ncols() == ncols
                &&& forall|i: int, j: int|
                    0 <= i < nrows && 0 <= j < ncols ==> #[trigger] r->0.at(i, j) == cells@[i
                        * ncols + j]
            },
    {
        let given: usize = cells.len();
        match nrows.checked_mul(ncols) {
            Some(len) => {
                if given == len {
                    Some(Matrix::from_cells(nrows, ncols, cells))
                } else {
                    None
                }
            },
            None => None,
        }
    }

    /// Gives up the matrix for its cells, listed row by row.
    pub fn into_row_major(self) -> (cells: Vec<T>)
        ensures
            cells@.len() == self.spec_nrows() * self.spec_ncols(),
            forall|i: int, j: int|
                0 <= i < self.spec_nrows() && 0 <= j < self.spec_ncols() ==> cells@[i
                    * self.spec_ncols() + j] == #[trigger] self.at(i, j),
    {
        proof {
            use_type_invariant(&self);
        }
        self.data
    }
}

impl<T: Copy> Matrix<T> {
    /// A matrix with `value` in every cell, or `None` where the number of
    /// cells does not fit in a `usize`.
    pub fn filled(nrows: usize, ncols: usize, value: T) -> (r: Option<Matrix<T>>)
        ensures
            r is Some <==> nrows * ncols <= usize::MAX,
            r is Some ==> {
                &&& r->0.spec_nrows() == nrows
                &&& r->0.spec_ncols() == ncols
                &&& forall|i: int, j: int|
                    0 <= i < nrows && 0 <= j < ncols ==> #[trigger] r->0.at(i, j) == value
            },
    {
        match nrows.checked_mul(ncols) {
            Some(len) => {
                let mut data: Vec<T> = Vec::new();
                let mut k: usize = 0;
                while k < len
                    invariant
                        k <= len,
                        data@.len() == k,
                        forall|q: int| 0 <= q < k ==> data@[q] == value,
                    decreases len - k,
                {
                    data.push(value);
                    k = k + 1;
                }
                let m = Matrix { nrows, ncols, data };
                assert forall|i: int, j: int| 0 <= i < nrows && 0 <= j < ncols implies #[trigger] m.at(
                    i,
                    j,
                ) == value by {
                    lemma_cell_in_storage(i, j, nrows as int, ncols as int);
                }
                Some(m)
            },
            None => None,
        }
    }

    /// The cell in row `i`, column `j`, or `None` outside the matrix.
    pub fn get(&self, i: usize, j: usize) -> (r: Option<T>)
        ensures
            r is Some <==> i < self.spec_nrows() && j < self.spec_ncols(),
            r is Some ==> r->0 == self.at(i as int, j as int),
    {
        if i < self.nrows && j < self.ncols {
            Some(self.cell(i, j))
        } else {
            None
        }
    }

    /// The cell in row `i`, column `j` of a matrix that has one.
    pub fn cell(&self, i: usize, j: usize) -> (v: T)
        requires
            i < self.spec_nrows(),
            j < self.spec_ncols(),
        ensures
            v == self.at(i as int, j as int),
    {
        proof {
            use_type_invariant(self);
            lemma_cell_in_storage(i as int, j as int, self.nrows as int, self.ncols as int);
        }
        self.data[i * self.ncols + j]
    }

    /// Writes `value` into row `i`, column `j`; every other cell stays.
    pub fn set_cell(&mut self, i: usize, j: usize, value: T)
        requires
            i < old(self).spec_nrows(),
            j < old(self).spec_ncols(),
        ensures
            final(self).spec_nrows() == old(self).spec_nrows(),
            final(self).spec_ncols() == old(self).spec_ncols(),
            final(self).at(i as int, j as int) == value,
            forall|p: int, q: int|
                0 <= p < old(self).spec_nrows() && 0 <= q < old(self).spec_ncols() && (p != i || q
                    != j) ==> #[trigger] final(self).at(p, q) == old(self).at(p, q),
    {
        proof {
            use_type_invariant(&*self);
            lemma_cell_in_storage(i as int, j as int, self.nrows as int, self.ncols as int);
        }
        let ghost before = self.data@;
        let ghost ncols = self.ncols as int;
        let ghost nrows = self.nrows as int;
        let k: usize = i * self.ncols + j;
        self.data[k] = value;
        assert forall|p: int, q: int|
            0 <= p < nrows && 0 <= q < ncols && (p != i || q != j) implies #[trigger] self.at(p, q)
            == before[p * ncols + q] by {
            lemma_cell_in_storage(p, q, nrows, ncols);
            lemma_cell_in_storage(i as int, j as int, nrows, ncols);
            if p < i {
                assert((p + 1) * ncols <= i * ncols) by (nonlinear_arith)
                    requires
                        p + 1 <= i,
                        0 <= ncols,
                ;
            } else if p > i {
                assert((i + 1) * ncols <= p * ncols) by (nonlinear_arith)
                    requires
                        i + 1 <= p,
                        0 <= ncols,
                ;
            }
        }
    }
}

impl<T: Copy> Clone for Matrix<T> {
    /// A copy with the same shape and the same cells.
    fn clone(&self) -> (r: Self)
        ensures
            r.spec_nrows() == self.spec_nrows(),
            r.spec_ncols() == self.spec_ncols(),
            r@ == self@,
    {
        proof {
            use_type_invariant(self);
        }
        let mut data: Vec<T> = Vec::new();
        let mut k: usize = 0;
        while k < self.data.len()
            invariant
                k <= self.data@.len(),
                data@.len() == k,
                forall|q: int| 0 <= q < k ==> data@[q] == self.data@[q],
            decreases self.data@.len() - k,
        {
            data.push(self.data[k]);
            k = k + 1;
        }
        assert(data@ =~= self.data@);
        let r = Matrix { nrows: self.nrows, ncols: self.ncols, data };
        assert(r@ =~~= self@);
        r
    }
}

} // verus!
