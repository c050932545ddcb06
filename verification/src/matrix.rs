//! A two-dimensional, runtime-sized collection of bounded `i64` values.
//!
//! Rows are observations, columns are features. Every entry is kept within
//! `[-COORD_LIMIT, COORD_LIMIT]` so that squared Euclidean distances and
//! column sums provably fit in the machine integers the engine uses.

use vstd::prelude::*;

verus! {

/// Largest magnitude a coordinate may have. With this bound a squared
/// coordinate difference fits in `i64` and a full squared distance or
/// column sum fits in 128-bit arithmetic for any row or column count.
pub const COORD_LIMIT: i64 = 1_000_000_000;

/// A row of entries, as the mathematical sequence of its integer values.
pub open spec fn row_view(r: Seq<i64>) -> Seq<int> {
    r.map_values(|v: i64| v as int)
}

/// A stack of rows, as the mathematical sequence of their integer rows.
pub open spec fn rows_view(d: Seq<Vec<i64>>) -> Seq<Seq<int>> {
    Seq::new(d.len(), |i: int| row_view(d[i]@))
}

/// A matrix: every stored row has exactly `cols` entries.
pub struct Matrix {
    cols: usize,
    data: Vec<Vec<i64>>,
}

impl View for Matrix {
    type V = Seq<Seq<int>>;

    closed spec fn view(&self) -> Seq<Seq<int>> {
        rows_view(self.data@)
    }
}

impl Matrix {
    /// The column count, also defined for a matrix with no rows.
    pub closed spec fn spec_cols(&self) -> int {
        self.cols as int
    }

    /// Well-formed: rectangular with `spec_cols` columns, all entries bounded.
    pub open spec fn wf(&self) -> bool {
        &&& forall|i: int|
            0 <= i < self@.len() ==> (#[trigger] self@[i]).len() == self.spec_cols()
        &&& forall|i: int, j: int|
            0 <= i < self@.len() && 0 <= j < self@[i].len()
                ==> -(COORD_LIMIT as int) <= #[trigger] self@[i][j] <= COORD_LIMIT as int
    }

    /// Builds a matrix after checking that the rows are rectangular and all
    /// entries bounded; the column count is taken from the first row.
    /// Returns `None` exactly when some row's length differs from the first
    /// row's, or some entry exceeds `COORD_LIMIT` in magnitude.
    pub fn new(data: Vec<Vec<i64>>) -> (r: Option<Matrix>)
        ensures
            r is Some <==> {
                &&& forall|i: int|
                    0 <= i < data@.len() ==> (#[trigger] data@[i])@.len() == data@[0]@.len()
                &&& forall|i: int, j: int|
                    0 <= i < data@.len() && 0 <= j < data@[i]@.len()
                        ==> -(COORD_LIMIT as int) <= #[trigger] (data@[i]@[j] as int)
                            <= COORD_LIMIT as int
            },
            r is Some ==> {
                &&& r.unwrap()@ == rows_view(data@)
                &&& r.unwrap().wf()
                &&& r.unwrap().spec_cols() == (if data@.len() > 0 { data@[0]@.len() as int } else { 0 })
            },
    {
        let cols = if data.len() > 0 { data[0].len() } else { 0 };
        let mut i: usize = 0;
        while i < data.len()
            invariant
                i <= data@.len(),
                cols as int == (if data@.len() > 0 { data@[0]@.len() as int } else { 0 }),
                forall|t: int| 0 <= t < i ==> (#[trigger] data@[t])@.len() == cols as int,
                forall|t: int, j: int|
                    0 <= t < i && 0 <= j < data@[t]@.len()
                        ==> -(COORD_LIMIT as int) <= #[trigger] (data@[t]@[j] as int)
                            <= COORD_LIMIT as int,
            decreases data@.len() - i,
        {
            if data[i].len() != cols {
                return None;
            }
            let mut j: usize = 0;
            while j < cols
                invariant
                    i < data@.len(),
                    j <= cols,
                    data@[i as int]@.len() == cols as int,
                    forall|t: int|
                        0 <= t < j
                            ==> -(COORD_LIMIT as int)
                                <= #[trigger] (data@[i as int]@[t] as int) <= COORD_LIMIT as int,
                decreases cols - j,
            {
                let v = data[i][j];
                if v > COORD_LIMIT || v < -COORD_LIMIT {
                    return None;
                }
                j += 1;
            }
            i += 1;
        }
        let m = Matrix { cols, data };
        proof {
            assert forall|t: int| 0 <= t < m@.len() implies (#[trigger] m@[t]).len()
                == m.spec_cols() by {
                assert(m@[t] == row_view(m.data@[t]@));
            }
            assert forall|t: int, j: int|
                0 <= t < m@.len() && 0 <= j < m@[t].len() implies -(COORD_LIMIT as int)
                <= #[trigger] m@[t][j] <= COORD_LIMIT as int by {
                assert(m@[t][j] == m.data@[t]@[j] as int);
            }
        }
        Some(m)
    }

    /// A matrix with no rows and the given column count.
    pub fn empty(cols: usize) -> (r: Matrix)
        ensures
            r@ == Seq::<Seq<int>>::empty(),
            r.spec_cols() == cols,
            r.wf(),
    {
        let r = Matrix { cols, data: Vec::new() };
        proof {
            assert(r@ =~= Seq::<Seq<int>>::empty());
        }
        r
    }

    /// Builds a matrix from rows already known to be rectangular and bounded.
    pub(crate) fn from_raw(cols: usize, data: Vec<Vec<i64>>) -> (r: Matrix)
        requires
            forall|i: int| 0 <= i < data@.len() ==> (#[trigger] data@[i])@.len() == cols as int,
            forall|i: int, j: int|
                0 <= i < data@.len() && 0 <= j < data@[i]@.len()
                    ==> -(COORD_LIMIT as int) <= #[trigger] (data@[i]@[j] as int)
                        <= COORD_LIMIT as int,
        ensures
            r@ == rows_view(data@),
            r.spec_cols() == cols,
            r.wf(),
    {
        let r = Matrix { cols, data };
        proof {
            assert forall|t: int| 0 <= t < r@.len() implies (#[trigger] r@[t]).len()
                == r.spec_cols() by {
                assert(r@[t] == row_view(r.data@[t]@));
            }
            assert forall|t: int, j: int|
                0 <= t < r@.len() && 0 <= j < r@[t].len() implies -(COORD_LIMIT as int)
                <= #[trigger] r@[t][j] <= COORD_LIMIT as int by {
                assert(r@[t][j] == r.data@[t]@[j] as int);
            }
        }
        r
    }

    /// The number of rows (observations).
    pub fn rows(&self) -> (r: usize)
        ensures
            r == self@.len(),
    {
        self.data.len()
    }

    /// The number of columns (features).
    pub fn cols(&self) -> (r: usize)
        ensures
            r == self.spec_cols(),
    {
        self.cols
    }

    /// The entry at row `i`, column `j`.
    pub fn get(&self, i: usize, j: usize) -> (r: i64)
        requires
            i < self@.len(),
            j < self@[i as int].len(),
        ensures
            r as int == self@[i as int][j as int],
    {
        self.data[i][j]
    }

    /// A copy of row `i`.
    pub fn row(&self, i: usize) -> (r: Vec<i64>)
        requires
            i < self@.len(),
        ensures
            row_view(r@) == self@[i as int],
            r@.len() == self@[i as int].len(),
    {
        let mut r: Vec<i64> = Vec::new();
        let n = self.data[i].len();
        let mut j: usize = 0;
        while j < n
            invariant
                i < self@.len(),
                j <= n,
                n == self@[i as int].len(),
                r@.len() == j,
                forall|t: int| 0 <= t < j ==> #[trigger] (r@[t] as int) == self@[i as int][t],
            decreases n - j,
        {
            r.push(self.data[i][j]);
            j += 1;
        }
        proof {
            assert(row_view(r@) =~= self@[i as int]);
        }
        r
    }

    /// A copy of the whole matrix.
    pub fn clone_matrix(&self) -> (r: Matrix)
        ensures
            r@ == self@,
            r.spec_cols() == self.spec_cols(),
    {
        let mut data: Vec<Vec<i64>> = Vec::new();
        let n = self.data.len();
        let mut i: usize = 0;
        while i < n
            invariant
                i <= n,
                n == self@.len(),
                data@.len() == i,
                forall|t: int| 0 <= t < i ==> #[trigger] row_view(data@[t]@) == self@[t],
            decreases n - i,
        {
            data.push(self.row(i));
            i += 1;
        }
        let r = Matrix { cols: self.cols, data };
        proof {
            assert(r@ =~= self@);
        }
        r
    }
}

} // verus!
