//! Entry-wise operations on vectors.
use vstd::prelude::*;
use crate::matrix::{Matrix, grid_cell, lemma_cell_before};
use crate::scalar::{Scalar, sigmoid, sigmoid_derivative, sigmoid_spec, sigmoid_derivative_spec};

verus! {

pub open spec fn sub_seq<T: Scalar>(a: Seq<T>, b: Seq<T>) -> Seq<T> {
    Seq::new(a.len(), |k: int| a[k].minus_spec(b[k]))
}

pub open spec fn mul_seq<T: Scalar>(a: Seq<T>, b: Seq<T>) -> Seq<T> {
    Seq::new(a.len(), |k: int| a[k].times_spec(b[k]))
}

pub open spec fn sigmoid_seq<T: Scalar>(a: Seq<T>) -> Seq<T> {
    Seq::new(a.len(), |k: int| sigmoid_spec(a[k]))
}

pub open spec fn sigmoid_derivative_seq<T: Scalar>(a: Seq<T>) -> Seq<T> {
    Seq::new(a.len(), |k: int| sigmoid_derivative_spec(a[k]))
}

/// The entry-wise difference `a - b`.
pub fn vec_sub<T: Scalar>(a: &Vec<T>, b: &Vec<T>) -> (r: Vec<T>)
    requires
        a@.len() == b@.len(),
    ensures
        r@ == sub_seq(a@, b@),
{
    let mut r: Vec<T> = Vec::new();
    let mut k: usize = 0;
    while k < a.len()
        invariant
            a@.len() == b@.len(),
            k <= a@.len(),
            r@.len() == k,
            forall|m: int| 0 <= m < k ==> #[trigger] r@[m] == a@[m].minus_spec(b@[m]),
        decreases a.len() - k,
    {
        r.push(a[k].minus(b[k]));
        k = k + 1;
    }
    assert(r@ =~= sub_seq(a@, b@));
    r
}

/// The entry-wise product of `a` and `b`.
pub fn vec_mul<T: Scalar>(a: &Vec<T>, b: &Vec<T>) -> (r: Vec<T>)
    requires
        a@.len() == b@.len(),
    ensures
        r@ == mul_seq(a@, b@),
{
    let mut r: Vec<T> = Vec::new();
    let mut k: usize = 0;
    while k < a.len()
        invariant
            a@.len() == b@.len(),
            k <= a@.len(),
            r@.len() == k,
            forall|m: int| 0 <= m < k ==> #[trigger] r@[m] == a@[m].times_spec(b@[m]),
        decreases a.len() - k,
    {
        r.push(a[k].times(b[k]));
        k = k + 1;
    }
    assert(r@ =~= mul_seq(a@, b@));
    r
}

/// The logistic function applied to every entry.
pub fn sigmoid_all<T: Scalar>(a: &Vec<T>) -> (r: Vec<T>)
    ensures
        r@ == sigmoid_seq(a@),
{
    let mut r: Vec<T> = Vec::new();
    let mut k: usize = 0;
    while k < a.len()
        invariant
            k <= a@.len(),
            r@.len() == k,
            forall|m: int| 0 <= m < k ==> #[trigger] r@[m] == sigmoid_spec(a@[m]),
        decreases a.len() - k,
    {
        r.push(sigmoid(a[k]));
        k = k + 1;
    }
    assert(r@ =~= sigmoid_seq(a@));
    r
}

/// The derivative of the logistic function applied to every entry.
pub fn sigmoid_derivative_all<T: Scalar>(a: &Vec<T>) -> (r: Vec<T>)
    ensures
        r@ == sigmoid_derivative_seq(a@),
{
    let mut r: Vec<T> = Vec::new();
    let mut k: usize = 0;
    while k < a.len()
        invariant
            k <= a@.len(),
            r@.len() == k,
            forall|m: int| 0 <= m < k ==> #[trigger] r@[m] == sigmoid_derivative_spec(a@[m]),
        decreases a.len() - k,
    {
        r.push(sigmoid_derivative(a[k]));
        k = k + 1;
    }
    assert(r@ =~= sigmoid_derivative_seq(a@));
    r
}

/// `x` followed by the entries of `v`.
pub fn prepend<T: Copy>(x: T, v: &Vec<T>) -> (r: Vec<T>)
    ensures
        r@ == seq![x] + v@,
{
    let mut r: Vec<T> = Vec::new();
    r.push(x);
    let mut k: usize = 0;
    while k < v.len()
        invariant
            k <= v@.len(),
            r@ == seq![x] + v@.subrange(0, k as int),
        decreases v.len() - k,
    {
        r.push(v[k]);
        k = k + 1;
        proof {
            assert(v@.subrange(0, k as int) == v@.subrange(0, k - 1) + seq![v@[k - 1]]);
        }
    }
    assert(v@.subrange(0, v@.len() as int) == v@);
    r
}

/// The outer product of the column vector `col` and the row vector `row`:
/// entry `(i, j)` is `col[i] * row[j]`.
pub fn col_mul_row<T: Scalar>(col: &Vec<T>, row: &Vec<T>) -> (r: Matrix<T>)
    requires
        col@.len() * row@.len() <= usize::MAX,
    ensures
        r.wf(),
        r.nrows() == col@.len(),
        r.ncols() == row@.len(),
        forall|i: int, j: int|
            0 <= i < r.nrows() && 0 <= j < r.ncols() ==> #[trigger] r.at(i, j) == col@[i].times_spec(row@[j]),
{
    let nr = col.len();
    let nc = row.len();
    let mut data: Vec<T> = Vec::new();
    let mut i: usize = 0;
    while i < nr
        invariant
            nr == col@.len(),
            nc == row@.len(),
            nr * nc <= usize::MAX,
            i <= nr,
            data@.len() == i * nc,
            forall|i2: int, j2: int|
                0 <= i2 < i && 0 <= j2 < nc ==> #[trigger] grid_cell(data@, nc as int, i2, j2) == col@[i2].times_spec(row@[j2]),
        decreases nr - i,
    {
        proof {
            crate::matrix::lemma_rows_in_grid(i as int, nr as int, nc as int);
        }
        let mut j: usize = 0;
        while j < nc
            invariant
                nr == col@.len(),
                nc == row@.len(),
                i < nr,
                j <= nc,
                data@.len() == i * nc + j,
                forall|i2: int, j2: int|
                    0 <= j2 < nc && (0 <= i2 < i || (i2 == i && j2 < j)) ==> #[trigger] grid_cell(data@, nc as int, i2, j2)
                        == col@[i2].times_spec(row@[j2]),
            decreases nc - j,
        {
            let ghost before = data@;
            data.push(col[i].times(row[j]));
            proof {
                assert forall|i2: int, j2: int|
                    0 <= j2 < nc && (0 <= i2 < i || (i2 == i && j2 < j + 1)) implies #[trigger] grid_cell(data@, nc as int, i2, j2)
                        == col@[i2].times_spec(row@[j2]) by {
                    if i2 < i || j2 < j {
                        lemma_cell_before(i2, j2, i as int, j as int, nc as int);
                        assert(grid_cell(before, nc as int, i2, j2) == col@[i2].times_spec(row@[j2]));
                    }
                }
            }
            j = j + 1;
        }
        i = i + 1;
    }
    proof {
        crate::matrix::lemma_rows_in_grid(nr as int, nr as int, nc as int);
    }
    let ghost cells = data@;
    let r = Matrix::from_vec(data, nr, nc);
    match r {
        Some(m) => {
            assert forall|i: int, j: int|
                0 <= i < m.nrows() && 0 <= j < m.ncols() implies #[trigger] m.at(i, j) == col@[i].times_spec(row@[j]) by {
                assert(grid_cell(cells, nc as int, i, j) == col@[i].times_spec(row@[j]));
            }
            m
        },
        None => {
            proof {
                assert(false);
            }
            Matrix::fill(T::zero(), 0, 0)
        },
    }
}

/// A vector of `n` entries, each equal to `x`.
pub fn from_value<T: Copy>(x: T, n: usize) -> (r: Vec<T>)
    ensures
        r@ == Seq::new(n as nat, |k: int| x),
{
    let mut r: Vec<T> = Vec::new();
    let mut k: usize = 0;
    while k < n
        invariant
            k <= n,
            r@ == Seq::new(k as nat, |m: int| x),
        decreases n - k,
    {
        r.push(x);
        k = k + 1;
        proof {
            assert(r@ =~= Seq::new(k as nat, |m: int| x));
        }
    }
    r
}

/// The entries of `x` as a vector.
pub fn slice_to_vec<T: Copy>(x: &[T]) -> (r: Vec<T>)
    ensures
        r@ == x@,
{
    let mut r: Vec<T> = Vec::new();
    let mut k: usize = 0;
    while k < x.len()
        invariant
            k <= x@.len(),
            r@ == x@.subrange(0, k as int),
        decreases x.len() - k,
    {
        r.push(x[k]);
        k = k + 1;
        proof {
            assert(r@ =~= x@.subrange(0, k as int));
        }
    }
    assert(x@.subrange(0, x@.len() as int) =~= x@);
    r
}

} // verus!
