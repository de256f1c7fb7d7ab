//! Numerically stable softmax.

use vstd::prelude::*;

use crate::matrix;
use crate::matrix::{Matrix, Tensor3};
use crate::scalar::{Ops, Scalar};

verus! {

/// Largest of the first `k` entries.
pub open spec fn row_max<T>(ops: Ops<T>, row: Seq<T>, k: nat) -> T
    decreases k,
{
    if k == 0 {
        ops.lowest
    } else {
        (ops.max)(row_max(ops, row, (k - 1) as nat), row[k - 1])
    }
}

/// Sum of the first `k` entries, added up from the left.
pub open spec fn row_total<T>(ops: Ops<T>, row: Seq<T>, k: nat) -> T
    decreases k,
{
    if k == 0 {
        ops.zero()
    } else {
        (ops.add)(row_total(ops, row, (k - 1) as nat), row[k - 1])
    }
}

/// Exponentials of the entries, each less the largest.
pub open spec fn exponentials<T>(ops: Ops<T>, row: Seq<T>) -> Seq<T> {
    Seq::new(
        row.len(),
        |j: int| (ops.exp)((ops.sub)(row[j], row_max(ops, row, row.len()))),
    )
}

/// Softmax of a row.
pub open spec fn softmax<T>(ops: Ops<T>, row: Seq<T>) -> Seq<T> {
    let e = exponentials(ops, row);
    matrix::row_scaled(ops, e, (ops.div)(ops.one(), row_total(ops, e, e.len())))
}

/// Softmax of a row, left unnormalised where the exponentials do not add up to more than
/// zero.
pub open spec fn guarded_softmax<T>(ops: Ops<T>, row: Seq<T>) -> Seq<T> {
    let e = exponentials(ops, row);
    if (ops.lt)(ops.zero(), row_total(ops, e, e.len())) {
        matrix::row_scaled(ops, e, (ops.div)(ops.one(), row_total(ops, e, e.len())))
    } else {
        e
    }
}

/// Softmax of every row.
pub open spec fn softmax_rows<T>(ops: Ops<T>, m: Seq<Seq<T>>) -> Seq<Seq<T>> {
    Seq::new(m.len(), |i: int| softmax(ops, m[i]))
}

/// Exponentials of a row and their sum.
fn exponentiate<T: Scalar>(row: &Vec<T>) -> (r: (Vec<T>, T))
    ensures
        r.0@ == exponentials(T::ops(), row@),
        r.1 == row_total(T::ops(), r.0@, r.0@.len()),
{
    let n: usize = row.len();
    let mut max: T = T::lowest();
    for j in 0..n
        invariant
            n == row@.len(),
            max == row_max(T::ops(), row@, j as nat),
    {
        max = max.larger(row[j]);
    }
    let mut out: Vec<T> = Vec::new();
    let ghost target = exponentials(T::ops(), row@);
    let mut total: T = T::from_int(0);
    for j in 0..n
        invariant
            n == row@.len(),
            max == row_max(T::ops(), row@, row@.len()),
            target == exponentials(T::ops(), row@),
            out@.len() == j,
            forall|b: int| 0 <= b < j ==> #[trigger] out@[b] == target[b],
            total == row_total(T::ops(), target, j as nat),
    {
        let e: T = row[j].minus(max).exponential();
        out.push(e);
        total = total.plus(e);
    }
    assert(out@ =~= target);
    (out, total)
}

/// Softmax of a row.
pub fn softmax_row<T: Scalar>(row: &Vec<T>) -> (r: Vec<T>)
    ensures
        r@ == softmax(T::ops(), row@),
{
    let (e, total) = exponentiate(row);
    matrix::scaled_row(&e, T::from_int(1).over(total))
}

/// Softmax of a row, guarded against a sum that is not above zero.
pub fn guarded_softmax_row<T: Scalar>(row: &Vec<T>) -> (r: Vec<T>)
    ensures
        r@ == guarded_softmax(T::ops(), row@),
        r@.len() == row@.len(),
{
    let (e, total) = exponentiate(row);
    if T::from_int(0).below(total) {
        matrix::scaled_row(&e, T::from_int(1).over(total))
    } else {
        e
    }
}

/// Softmax of every row.
pub fn softmax_rowwise<T: Scalar>(scores: &Matrix<T>) -> (r: Matrix<T>)
    ensures
        r@ == softmax_rows(T::ops(), scores@),
        r.width() == scores.width(),
{
    let n: usize = scores.nrows();
    let w: usize = scores.ncols();
    let mut rows: Vec<Vec<T>> = Vec::new();
    for i in 0..n
        invariant
            n == scores@.len(),
            w == scores.width(),
            rows@.len() == i,
            forall|a: int| 0 <= a < i ==> #[trigger] rows@[a]@ == softmax(T::ops(), scores@[a]),
            forall|a: int| 0 <= a < i ==> #[trigger] rows@[a]@.len() == w,
    {
        let row = softmax_row(scores.row(i));
        rows.push(row);
    }
    let m: Matrix<T> = Matrix::of_rows(rows, w);
    assert(m@ =~= softmax_rows(T::ops(), scores@));
    m
}

/// Softmax of every row of every matrix.
pub fn softmax_stack<T: Scalar>(scores: &Tensor3<T>) -> (r: Tensor3<T>)
    ensures
        r@ == Seq::new(scores@.len(), |h: int| softmax_rows(T::ops(), scores@[h])),
        r.height() == scores.height(),
        r.width() == scores.width(),
{
    let (heads, n, w) = scores.dim();
    let mut out: Vec<Matrix<T>> = Vec::new();
    for h in 0..heads
        invariant
            heads == scores@.len(),
            n == scores.height(),
            w == scores.width(),
            out@.len() == h,
            forall|g: int| 0 <= g < h ==> (#[trigger] out@[g])@ == softmax_rows(T::ops(), scores@[g]),
            forall|g: int| 0 <= g < h ==> (#[trigger] out@[g]).width() == w,
            forall|g: int| 0 <= g < h ==> (#[trigger] out@[g])@.len() == n,
    {
        let m = softmax_rowwise(scores.head(h));
        out.push(m);
    }
    let t: Tensor3<T> = Tensor3::of_heads(out, n, w);
    assert(t@ =~= Seq::new(scores@.len(), |h: int| softmax_rows(T::ops(), scores@[h])));
    t
}

} // verus!
