//! A dense matrix stored row by row.
use vstd::prelude::*;
use crate::scalar::{Scalar, sigmoid, sigmoid_spec};

verus! {

/// Entry `(i, j)` of a `rows` x `cols` grid lies at `i * cols + j`, inside the grid.
pub proof fn lemma_cell_in_grid(i: int, j: int, rows: int, cols: int)
    requires
        0 <= i < rows,
        0 <= j < cols,
    ensures
        0 <= i * cols + j < rows * cols,
        i * cols + j < (i + 1) * cols,
        (i + 1) * cols == i * cols + cols,
{
    assert(i * cols + j < (i + 1) * cols) by (nonlinear_arith)
        requires 0 <= j < cols;
    assert((i + 1) * cols <= rows * cols) by (nonlinear_arith)
        requires 0 <= i < rows, 0 <= j < cols;
    assert((i + 1) * cols == i * cols + cols) by (nonlinear_arith);
    assert(0 <= i * cols) by (nonlinear_arith)
        requires 0 <= i, 0 <= cols;
}

/// After `i` of `rows` full rows of `cols` cells, no more than the grid is filled.
pub proof fn lemma_rows_in_grid(i: int, rows: int, cols: int)
    requires
        0 <= i <= rows,
        0 <= cols,
    ensures
        0 <= i * cols <= rows * cols,
        (i + 1) * cols == i * cols + cols,
{
    assert(i * cols <= rows * cols) by (nonlinear_arith)
        requires 0 <= i <= rows, 0 <= cols;
    assert((i + 1) * cols == i * cols + cols) by (nonlinear_arith);
    assert(0 <= i * cols) by (nonlinear_arith)
        requires 0 <= i, 0 <= cols;
}

/// Entry `(i, j)` of the row-major grid `s` with `cols` columns.
pub open spec fn grid_cell<T>(s: Seq<T>, cols: int, i: int, j: int) -> T {
    s[i * cols + j]
}

/// Entries are laid out row by row: `(i2, j2)` comes before `(i, j)` when it
/// is in an earlier row, or earlier in the same row.
pub proof fn lemma_cell_before(i2: int, j2: int, i: int, j: int, cols: int)
    requires
        0 <= i2,
        0 <= j2 < cols,
        0 <= j,
        i2 < i || (i2 == i && j2 < j),
    ensures
        i2 * cols + j2 < i * cols + j,
{
    if i2 < i {
        assert(i2 * cols + j2 < i * cols + j) by (nonlinear_arith)
            requires 0 <= j2 < cols, 0 <= j, i2 < i, 0 <= i2;
    }
}

/// The products `a[k] * b[k]` of the first `n` entries, added up left to right
/// starting from zero.
pub open spec fn dot_prefix<T: Scalar>(a: Seq<T>, b: Seq<T>, n: nat) -> T
    decreases n,
{
    if n == 0 {
        T::zero_spec()
    } else {
        dot_prefix(a, b, (n - 1) as nat).plus_spec(a[n - 1].times_spec(b[n - 1]))
    }
}

/// The dot product of `a` and `b`, added up left to right.
pub open spec fn dot<T: Scalar>(a: Seq<T>, b: Seq<T>) -> T {
    dot_prefix(a, b, a.len())
}

/// A dense `rows` x `cols` matrix; entry `(i, j)` is stored at `i * cols + j`.
#[derive(Clone, Debug, PartialEq)]
pub struct Matrix<T> {
    rows: usize,
    cols: usize,
    data: Vec<T>,
}

impl<T> View for Matrix<T> {
    /// Row count, column count and the entries in row-major order.
    type V = (nat, nat, Seq<T>);

    closed spec fn view(&self) -> (nat, nat, Seq<T>) {
        (self.rows as nat, self.cols as nat, self.data@)
    }
}

impl<T> Matrix<T> {
    pub open spec fn nrows(&self) -> nat {
        self@.0
    }

    pub open spec fn ncols(&self) -> nat {
        self@.1
    }

    pub open spec fn cells(&self) -> Seq<T> {
        self@.2
    }

    /// The entries fill the grid exactly, and every position fits in a `usize`.
    pub open spec fn wf(&self) -> bool {
        &&& self.cells().len() == self.nrows() * self.ncols()
        &&& self.nrows() * self.ncols() <= usize::MAX
    }

    pub open spec fn at(&self, i: int, j: int) -> T {
        self.cells()[i * self.ncols() + j]
    }

    /// Entry `(i, j)` of this matrix with `v` inserted as column `pos`.
    pub open spec fn inserted_at(&self, pos: int, v: Seq<T>, i: int, j: int) -> T {
        if j < pos {
            self.at(i, j)
        } else if j == pos {
            v[i]
        } else {
            self.at(i, j - 1)
        }
    }

    /// Entry `(i, j)` of this matrix without column `pos`.
    pub open spec fn removed_at(&self, pos: int, i: int, j: int) -> T {
        if j < pos {
            self.at(i, j)
        } else {
            self.at(i, j + 1)
        }
    }

    /// Row `i` as a sequence.
    pub open spec fn row_seq(&self, i: int) -> Seq<T> {
        Seq::new(self.ncols(), |j: int| self.at(i, j))
    }

    /// Column `j` as a sequence.
    pub open spec fn col_seq(&self, j: int) -> Seq<T> {
        Seq::new(self.nrows(), |i: int| self.at(i, j))
    }

    pub open spec fn same_shape(&self, o: &Matrix<T>) -> bool {
        self.nrows() == o.nrows() && self.ncols() == o.ncols()
    }

    /// Builds a matrix from its entries in row-major order; `None` unless
    /// there are exactly `rows * cols` of them.
    pub fn from_vec(data: Vec<T>, rows: usize, cols: usize) -> (r: Option<Matrix<T>>)
        ensures
            r is Some <==> data@.len() == rows * cols,
            r is Some ==> r->0@ == (rows as nat, cols as nat, data@) && r->0.wf(),
    {
        let len = data.len();
        match rows.checked_mul(cols) {
            Some(n) => {
                if len == n {
                    Some(Matrix { rows, cols, data })
                } else {
                    None
                }
            },
            None => None,
        }
    }

    pub fn rows(&self) -> (r: usize)
        ensures
            r == self.nrows(),
    {
        self.rows
    }

    pub fn cols(&self) -> (r: usize)
        ensures
            r == self.ncols(),
    {
        self.cols
    }

    /// The entries in row-major order.
    pub fn values(&self) -> (r: &[T])
        ensures
            r@ == self.cells(),
    {
        self.data.as_slice()
    }
}

impl<T: Copy> Matrix<T> {
    /// A `rows` x `cols` matrix with every entry equal to `value`.
    pub fn fill(value: T, rows: usize, cols: usize) -> (r: Matrix<T>)
        requires
            rows * cols <= usize::MAX,
        ensures
            r.wf(),
            r.nrows() == rows,
            r.ncols() == cols,
            forall|k: int| 0 <= k < r.cells().len() ==> r.cells()[k] == value,
            forall|i: int, j: int| 0 <= i < rows && 0 <= j < cols ==> #[trigger] r.at(i, j) == value,
    {
        let n: usize = rows * cols;
        let mut data: Vec<T> = Vec::new();
        let mut k: usize = 0;
        while k < n
            invariant
                k <= n,
                data@.len() == k,
                forall|m: int| 0 <= m < k ==> data@[m] == value,
            decreases n - k,
        {
            data.push(value);
            k = k + 1;
        }
        assert forall|i: int, j: int| 0 <= i < rows && 0 <= j < cols implies #[trigger] data@[i * cols + j] == value by {
            lemma_cell_in_grid(i, j, rows as int, cols as int);
        }
        Matrix { rows, cols, data }
    }

    /// Entry `(i, j)`.
    pub fn get(&self, i: usize, j: usize) -> (r: T)
        requires
            self.wf(),
            i < self.nrows(),
            j < self.ncols(),
        ensures
            r == self.at(i as int, j as int),
    {
        proof {
            lemma_cell_in_grid(i as int, j as int, self.rows as int, self.cols as int);
        }
        self.data[i * self.cols + j]
    }

    /// Row `i` as a vector.
    pub fn row(&self, i: usize) -> (r: Vec<T>)
        requires
            self.wf(),
            i < self.nrows(),
        ensures
            r@.len() == self.ncols(),
            forall|j: int| 0 <= j < self.ncols() ==> r@[j] == self.at(i as int, j),
    {
        let mut r: Vec<T> = Vec::new();
        let mut j: usize = 0;
        while j < self.cols
            invariant
                self.wf(),
                i < self.nrows(),
                j <= self.cols,
                r@.len() == j,
                forall|m: int| 0 <= m < j ==> r@[m] == self.at(i as int, m),
            decreases self.cols - j,
        {
            let x = self.get(i, j);
            r.push(x);
            j = j + 1;
        }
        r
    }

    /// An entry-for-entry copy.
    pub fn copied(&self) -> (r: Matrix<T>)
        ensures
            r@ == self@,
    {
        let mut data: Vec<T> = Vec::new();
        let mut k: usize = 0;
        while k < self.data.len()
            invariant
                k <= self.data@.len(),
                data@ == self.data@.subrange(0, k as int),
            decreases self.data.len() - k,
        {
            data.push(self.data[k]);
            k = k + 1;
        }
        assert(data@ == self.data@);
        Matrix { rows: self.rows, cols: self.cols, data }
    }
}

impl<T: Scalar> Matrix<T> {
    /// `self * v`: entry `i` is the dot product of row `i` with `v`.
    pub open spec fn mat_vec(&self, v: Seq<T>) -> Seq<T> {
        Seq::new(self.nrows(), |i: int| dot(self.row_seq(i), v))
    }

    /// `transpose(self) * v`: entry `j` is the dot product of column `j` with `v`.
    pub open spec fn transp_mat_vec(&self, v: Seq<T>) -> Seq<T> {
        Seq::new(self.ncols(), |j: int| dot(self.col_seq(j), v))
    }

    /// The product `self * v` of this matrix and a column vector.
    pub fn mul_vec(&self, v: &Vec<T>) -> (r: Vec<T>)
        requires
            self.wf(),
            v@.len() == self.ncols(),
        ensures
            r@ == self.mat_vec(v@),
    {
        let mut r: Vec<T> = Vec::new();
        let mut i: usize = 0;
        while i < self.rows
            invariant
                self.wf(),
                v@.len() == self.ncols(),
                i <= self.rows,
                r@.len() == i,
                forall|m: int| 0 <= m < i ==> r@[m] == dot(#[trigger] self.row_seq(m), v@),
            decreases self.rows - i,
        {
            let mut acc = T::zero();
            let mut j: usize = 0;
            while j < self.cols
                invariant
                    self.wf(),
                    v@.len() == self.ncols(),
                    i < self.rows,
                    j <= self.cols,
                    acc == dot_prefix(self.row_seq(i as int), v@, j as nat),
                decreases self.cols - j,
            {
                acc = acc.plus(self.get(i, j).times(v[j]));
                j = j + 1;
            }
            r.push(acc);
            i = i + 1;
        }
        assert(r@ =~= self.mat_vec(v@));
        r
    }

    /// The product `transpose(self) * v` of the transposed matrix and a column vector.
    pub fn transp_mul_vec(&self, v: &Vec<T>) -> (r: Vec<T>)
        requires
            self.wf(),
            v@.len() == self.nrows(),
        ensures
            r@ == self.transp_mat_vec(v@),
    {
        let mut r: Vec<T> = Vec::new();
        let mut j: usize = 0;
        while j < self.cols
            invariant
                self.wf(),
                v@.len() == self.nrows(),
                j <= self.cols,
                r@.len() == j,
                forall|m: int| 0 <= m < j ==> r@[m] == dot(#[trigger] self.col_seq(m), v@),
            decreases self.cols - j,
        {
            let mut acc = T::zero();
            let mut i: usize = 0;
            while i < self.rows
                invariant
                    self.wf(),
                    v@.len() == self.nrows(),
                    j < self.cols,
                    i <= self.rows,
                    acc == dot_prefix(self.col_seq(j as int), v@, i as nat),
                decreases self.rows - i,
            {
                acc = acc.plus(self.get(i, j).times(v[i]));
                i = i + 1;
            }
            r.push(acc);
            j = j + 1;
        }
        assert(r@ =~= self.transp_mat_vec(v@));
        r
    }

    /// The product `self * transpose(o)`: entry `(i, j)` combines row `i` of
    /// this matrix with row `j` of `o`.
    pub fn mul_transposed(&self, o: &Matrix<T>) -> (r: Matrix<T>)
        requires
            self.wf(),
            o.wf(),
            self.ncols() == o.ncols(),
            self.nrows() * o.nrows() <= usize::MAX,
        ensures
            r.wf(),
            r.nrows() == self.nrows(),
            r.ncols() == o.nrows(),
            forall|i: int, j: int|
                0 <= i < r.nrows() && 0 <= j < r.ncols() ==> #[trigger] r.at(i, j) == dot(self.row_seq(i), o.row_seq(j)),
    {
        let mut data: Vec<T> = Vec::new();
        let mut i: usize = 0;
        while i < self.rows
            invariant
                self.wf(),
                o.wf(),
                self.ncols() == o.ncols(),
                self.nrows() * o.nrows() <= usize::MAX,
                i <= self.rows,
                data@.len() == i * o.rows,
                forall|i2: int, j2: int|
                    0 <= i2 < i && 0 <= j2 < o.rows ==> #[trigger] grid_cell(data@, o.rows as int, i2, j2)
                        == dot(self.row_seq(i2), o.row_seq(j2)),
            decreases self.rows - i,
        {
            proof {
                lemma_rows_in_grid(i as int, self.rows as int, o.rows as int);
            }
            let mut j: usize = 0;
            while j < o.rows
                invariant
                    self.wf(),
                    o.wf(),
                    self.ncols() == o.ncols(),
                    i < self.rows,
                    j <= o.rows,
                    data@.len() == i * o.rows + j,
                    forall|i2: int, j2: int|
                        0 <= j2 < o.rows && (0 <= i2 < i || (i2 == i && j2 < j)) ==> #[trigger] grid_cell(data@, o.rows as int, i2, j2)
                            == dot(self.row_seq(i2), o.row_seq(j2)),
                decreases o.rows - j,
            {
                let ghost before = data@;
                let mut acc = T::zero();
                let mut k: usize = 0;
                while k < self.cols
                    invariant
                        self.wf(),
                        o.wf(),
                        self.ncols() == o.ncols(),
                        i < self.rows,
                        j < o.rows,
                        k <= self.cols,
                        acc == dot_prefix(self.row_seq(i as int), o.row_seq(j as int), k as nat),
                    decreases self.cols - k,
                {
                    acc = acc.plus(self.get(i, k).times(o.get(j, k)));
                    k = k + 1;
                }
                data.push(acc);
                proof {
                    assert forall|i2: int, j2: int|
                        0 <= j2 < o.rows && (0 <= i2 < i || (i2 == i && j2 < j + 1)) implies #[trigger] grid_cell(data@, o.rows as int, i2, j2)
                            == dot(self.row_seq(i2), o.row_seq(j2)) by {
                        if i2 < i || j2 < j {
                            lemma_cell_before(i2, j2, i as int, j as int, o.rows as int);
                            assert(grid_cell(before, o.rows as int, i2, j2) == dot(self.row_seq(i2), o.row_seq(j2)));
                        }
                    }
                }
                j = j + 1;
            }
            i = i + 1;
        }
        proof {
            lemma_rows_in_grid(self.rows as int, self.rows as int, o.rows as int);
        }
        let r = Matrix { rows: self.rows, cols: o.rows, data };
        assert forall|i: int, j: int|
            0 <= i < r.nrows() && 0 <= j < r.ncols() implies #[trigger] r.at(i, j) == dot(self.row_seq(i), o.row_seq(j)) by {
            assert(grid_cell(data@, o.rows as int, i, j) == dot(self.row_seq(i), o.row_seq(j)));
        }
        r
    }

    /// Adds `o` to this matrix entry by entry.
    pub fn iadd(&mut self, o: &Matrix<T>)
        requires
            old(self).wf(),
            o.wf(),
            old(self).same_shape(o),
        ensures
            final(self).wf(),
            final(self).same_shape(old(self)),
            forall|k: int| 0 <= k < final(self).cells().len() ==> #[trigger] final(self).cells()[k] == old(self).cells()[k].plus_spec(o.cells()[k]),
            forall|i: int, j: int|
                0 <= i < final(self).nrows() && 0 <= j < final(self).ncols() ==> #[trigger] final(self).at(i, j) == old(self).at(i, j).plus_spec(o.at(i, j)),
    {
        let n = self.data.len();
        let mut k: usize = 0;
        while k < n
            invariant
                self.rows == old(self).rows,
                self.cols == old(self).cols,
                self.data@.len() == n,
                n == old(self).data@.len(),
                o.data@.len() == n,
                k <= n,
                forall|m: int| 0 <= m < k ==> #[trigger] self.data@[m] == old(self).data@[m].plus_spec(o.data@[m]),
                forall|m: int| k <= m < n ==> #[trigger] self.data@[m] == old(self).data@[m],
            decreases n - k,
        {
            let x = self.data[k].plus(o.data[k]);
            self.data.set(k, x);
            k = k + 1;
        }
        assert forall|i: int, j: int|
            0 <= i < self.nrows() && 0 <= j < self.ncols() implies #[trigger] self.at(i, j) == old(self).at(i, j).plus_spec(o.at(i, j)) by {
            lemma_cell_in_grid(i, j, self.rows as int, self.cols as int);
        }
    }

    /// Subtracts `o` from this matrix entry by entry.
    pub fn isub(&mut self, o: &Matrix<T>)
        requires
            old(self).wf(),
            o.wf(),
            old(self).same_shape(o),
        ensures
            final(self).wf(),
            final(self).same_shape(old(self)),
            forall|k: int| 0 <= k < final(self).cells().len() ==> #[trigger] final(self).cells()[k] == old(self).cells()[k].minus_spec(o.cells()[k]),
            forall|i: int, j: int|
                0 <= i < final(self).nrows() && 0 <= j < final(self).ncols() ==> #[trigger] final(self).at(i, j) == old(self).at(i, j).minus_spec(o.at(i, j)),
    {
        let n = self.data.len();
        let mut k: usize = 0;
        while k < n
            invariant
                self.rows == old(self).rows,
                self.cols == old(self).cols,
                self.data@.len() == n,
                n == old(self).data@.len(),
                o.data@.len() == n,
                k <= n,
                forall|m: int| 0 <= m < k ==> #[trigger] self.data@[m] == old(self).data@[m].minus_spec(o.data@[m]),
                forall|m: int| k <= m < n ==> #[trigger] self.data@[m] == old(self).data@[m],
            decreases n - k,
        {
            let x = self.data[k].minus(o.data[k]);
            self.data.set(k, x);
            k = k + 1;
        }
        assert forall|i: int, j: int|
            0 <= i < self.nrows() && 0 <= j < self.ncols() implies #[trigger] self.at(i, j) == old(self).at(i, j).minus_spec(o.at(i, j)) by {
            lemma_cell_in_grid(i, j, self.rows as int, self.cols as int);
        }
    }

    /// Divides every entry by `s`.
    pub fn idiv_scalar(&mut self, s: T)
        requires
            old(self).wf(),
        ensures
            final(self).wf(),
            final(self).same_shape(old(self)),
            forall|k: int| 0 <= k < final(self).cells().len() ==> #[trigger] final(self).cells()[k] == old(self).cells()[k].divide_spec(s),
            forall|i: int, j: int|
                0 <= i < final(self).nrows() && 0 <= j < final(self).ncols() ==> #[trigger] final(self).at(i, j) == old(self).at(i, j).divide_spec(s),
    {
        let n = self.data.len();
        let mut k: usize = 0;
        while k < n
            invariant
                self.rows == old(self).rows,
                self.cols == old(self).cols,
                self.data@.len() == n,
                n == old(self).data@.len(),
                k <= n,
                forall|m: int| 0 <= m < k ==> #[trigger] self.data@[m] == old(self).data@[m].divide_spec(s),
                forall|m: int| k <= m < n ==> #[trigger] self.data@[m] == old(self).data@[m],
            decreases n - k,
        {
            let x = self.data[k].divide(s);
            self.data.set(k, x);
            k = k + 1;
        }
        assert forall|i: int, j: int|
            0 <= i < self.nrows() && 0 <= j < self.ncols() implies #[trigger] self.at(i, j) == old(self).at(i, j).divide_spec(s) by {
            lemma_cell_in_grid(i, j, self.rows as int, self.cols as int);
        }
    }

    /// Applies the logistic function to every entry.
    pub fn isigmoid(&mut self)
        requires
            old(self).wf(),
        ensures
            final(self).wf(),
            final(self).same_shape(old(self)),
            forall|k: int| 0 <= k < final(self).cells().len() ==> #[trigger] final(self).cells()[k] == sigmoid_spec(old(self).cells()[k]),
            forall|i: int, j: int|
                0 <= i < final(self).nrows() && 0 <= j < final(self).ncols() ==> #[trigger] final(self).at(i, j) == sigmoid_spec(old(self).at(i, j)),
    {
        let n = self.data.len();
        let mut k: usize = 0;
        while k < n
            invariant
                self.rows == old(self).rows,
                self.cols == old(self).cols,
                self.data@.len() == n,
                n == old(self).data@.len(),
                k <= n,
                forall|m: int| 0 <= m < k ==> #[trigger] self.data@[m] == sigmoid_spec(old(self).data@[m]),
                forall|m: int| k <= m < n ==> #[trigger] self.data@[m] == old(self).data@[m],
            decreases n - k,
        {
            let x = sigmoid(self.data[k]);
            self.data.set(k, x);
            k = k + 1;
        }
        assert forall|i: int, j: int|
            0 <= i < self.nrows() && 0 <= j < self.ncols() implies #[trigger] self.at(i, j) == sigmoid_spec(old(self).at(i, j)) by {
            lemma_cell_in_grid(i, j, self.rows as int, self.cols as int);
        }
    }

    /// Every entry multiplied by `s`.
    pub fn mul_scalar(&self, s: T) -> (r: Matrix<T>)
        requires
            self.wf(),
        ensures
            r.wf(),
            r.same_shape(self),
            forall|i: int, j: int|
                0 <= i < r.nrows() && 0 <= j < r.ncols() ==> #[trigger] r.at(i, j) == self.at(i, j).times_spec(s),
    {
        let mut data: Vec<T> = Vec::new();
        let mut k: usize = 0;
        while k < self.data.len()
            invariant
                k <= self.data@.len(),
                data@.len() == k,
                forall|m: int| 0 <= m < k ==> #[trigger] data@[m] == self.data@[m].times_spec(s),
            decreases self.data.len() - k,
        {
            data.push(self.data[k].times(s));
            k = k + 1;
        }
        let r = Matrix { rows: self.rows, cols: self.cols, data };
        assert forall|i: int, j: int|
            0 <= i < r.nrows() && 0 <= j < r.ncols() implies #[trigger] r.at(i, j) == self.at(i, j).times_spec(s) by {
            lemma_cell_in_grid(i, j, self.rows as int, self.cols as int);
        }
        r
    }
}

impl<T: Copy> Matrix<T> {
    /// A copy of this matrix with `v` inserted as column `pos`.
    pub fn insert_column(&self, pos: usize, v: &Vec<T>) -> (r: Matrix<T>)
        requires
            self.wf(),
            pos <= self.ncols(),
            v@.len() == self.nrows(),
            self.ncols() + 1 <= usize::MAX,
            self.nrows() * (self.ncols() + 1) <= usize::MAX,
        ensures
            r.wf(),
            r.nrows() == self.nrows(),
            r.ncols() == self.ncols() + 1,
            forall|i: int, j: int|
                0 <= i < r.nrows() && 0 <= j < r.ncols() ==> #[trigger] r.at(i, j) == self.inserted_at(pos as int, v@, i, j),
    {
        let nc: usize = self.cols + 1;
        let mut data: Vec<T> = Vec::new();
        let mut i: usize = 0;
        while i < self.rows
            invariant
                self.wf(),
                pos <= self.cols,
                nc == self.cols + 1,
                v@.len() == self.nrows(),
                self.nrows() * nc <= usize::MAX,
                i <= self.rows,
                data@.len() == i * nc,
                forall|i2: int, j2: int|
                    0 <= i2 < i && 0 <= j2 < nc ==> #[trigger] grid_cell(data@, nc as int, i2, j2)
                        == self.inserted_at(pos as int, v@, i2, j2),
            decreases self.rows - i,
        {
            proof {
                lemma_rows_in_grid(i as int, self.rows as int, nc as int);
            }
            let mut j: usize = 0;
            while j < nc
                invariant
                    self.wf(),
                    pos <= self.cols,
                    nc == self.cols + 1,
                    v@.len() == self.nrows(),
                    i < self.rows,
                    j <= nc,
                    data@.len() == i * nc + j,
                    forall|i2: int, j2: int|
                        0 <= j2 < nc && (0 <= i2 < i || (i2 == i && j2 < j)) ==> #[trigger] grid_cell(data@, nc as int, i2, j2)
                            == self.inserted_at(pos as int, v@, i2, j2),
                decreases nc - j,
            {
                let ghost before = data@;
                if j < pos {
                    data.push(self.get(i, j));
                } else if j == pos {
                    data.push(v[i]);
                } else {
                    data.push(self.get(i, j - 1));
                }
                proof {
                    assert forall|i2: int, j2: int|
                        0 <= j2 < nc && (0 <= i2 < i || (i2 == i && j2 < j + 1)) implies #[trigger] grid_cell(data@, nc as int, i2, j2)
                            == self.inserted_at(pos as int, v@, i2, j2) by {
                        if i2 < i || j2 < j {
                            lemma_cell_before(i2, j2, i as int, j as int, nc as int);
                            assert(grid_cell(before, nc as int, i2, j2) == self.inserted_at(pos as int, v@, i2, j2));
                        }
                    }
                }
                j = j + 1;
            }
            i = i + 1;
        }
        proof {
            lemma_rows_in_grid(self.rows as int, self.rows as int, nc as int);
        }
        let r = Matrix { rows: self.rows, cols: nc, data };
        assert forall|i: int, j: int|
            0 <= i < r.nrows() && 0 <= j < r.ncols() implies #[trigger] r.at(i, j) == self.inserted_at(pos as int, v@, i, j) by {
            assert(grid_cell(data@, nc as int, i, j) == self.inserted_at(pos as int, v@, i, j));
        }
        r
    }

    /// A copy of this matrix without column `pos`.
    pub fn rm_column(&self, pos: usize) -> (r: Matrix<T>)
        requires
            self.wf(),
            pos < self.ncols(),
        ensures
            r.wf(),
            r.nrows() == self.nrows(),
            r.ncols() == self.ncols() - 1,
            forall|i: int, j: int|
                0 <= i < r.nrows() && 0 <= j < r.ncols() ==> #[trigger] r.at(i, j) == self.removed_at(pos as int, i, j),
    {
        let nc: usize = self.cols - 1;
        proof {
            assert(self.nrows() * nc <= self.nrows() * self.ncols()) by (nonlinear_arith)
                requires nc <= self.ncols();
        }
        let mut data: Vec<T> = Vec::new();
        let mut i: usize = 0;
        while i < self.rows
            invariant
                self.wf(),
                pos < self.cols,
                nc == self.cols - 1,
                self.nrows() * nc <= usize::MAX,
                i <= self.rows,
                data@.len() == i * nc,
                forall|i2: int, j2: int|
                    0 <= i2 < i && 0 <= j2 < nc ==> #[trigger] grid_cell(data@, nc as int, i2, j2)
                        == self.removed_at(pos as int, i2, j2),
            decreases self.rows - i,
        {
            proof {
                lemma_rows_in_grid(i as int, self.rows as int, nc as int);
            }
            let mut j: usize = 0;
            while j < nc
                invariant
                    self.wf(),
                    pos < self.cols,
                    nc == self.cols - 1,
                    i < self.rows,
                    j <= nc,
                    data@.len() == i * nc + j,
                    forall|i2: int, j2: int|
                        0 <= j2 < nc && (0 <= i2 < i || (i2 == i && j2 < j)) ==> #[trigger] grid_cell(data@, nc as int, i2, j2)
                            == self.removed_at(pos as int, i2, j2),
                decreases nc - j,
            {
                let ghost before = data@;
                if j < pos {
                    data.push(self.get(i, j));
                } else {
                    data.push(self.get(i, j + 1));
                }
                proof {
                    assert forall|i2: int, j2: int|
                        0 <= j2 < nc && (0 <= i2 < i || (i2 == i && j2 < j + 1)) implies #[trigger] grid_cell(data@, nc as int, i2, j2)
                            == self.removed_at(pos as int, i2, j2) by {
                        if i2 < i || j2 < j {
                            lemma_cell_before(i2, j2, i as int, j as int, nc as int);
                            assert(grid_cell(before, nc as int, i2, j2) == self.removed_at(pos as int, i2, j2));
                        }
                    }
                }
                j = j + 1;
            }
            i = i + 1;
        }
        proof {
            lemma_rows_in_grid(self.rows as int, self.rows as int, nc as int);
        }
        let r = Matrix { rows: self.rows, cols: nc, data };
        assert forall|i: int, j: int|
            0 <= i < r.nrows() && 0 <= j < r.ncols() implies #[trigger] r.at(i, j) == self.removed_at(pos as int, i, j) by {
            assert(grid_cell(data@, nc as int, i, j) == self.removed_at(pos as int, i, j));
        }
        r
    }
}

} // verus!
