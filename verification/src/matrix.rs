//! Dense row-major matrices and stacks of them.

use vstd::prelude::*;

use crate::rng;
use crate::scalar::{Ops, Scalar};

verus! {

/// `m` has `rows` rows of `cols` entries each.
pub open spec fn is_grid<T>(m: Seq<Seq<T>>, rows: nat, cols: nat) -> bool {
    &&& m.len() == rows
    &&& forall|i: int| 0 <= i < rows ==> #[trigger] m[i].len() == cols
}

/// The matrix with the same value everywhere.
pub open spec fn filled<T>(value: T, rows: nat, cols: nat) -> Seq<Seq<T>> {
    Seq::new(rows, |i: int| Seq::new(cols, |j: int| value))
}

/// Column `j`.
pub open spec fn col<T>(m: Seq<Seq<T>>, j: int) -> Seq<T> {
    Seq::new(m.len(), |i: int| m[i][j])
}

/// Rows become columns; `cols` is the number of columns of `m`.
pub open spec fn transpose<T>(m: Seq<Seq<T>>, cols: nat) -> Seq<Seq<T>> {
    Seq::new(cols, |j: int| col(m, j))
}

/// Sum of the first `k` products of two sequences, added up from the left.
pub open spec fn dot<T>(ops: Ops<T>, x: Seq<T>, y: Seq<T>, k: nat) -> T
    decreases k,
{
    if k == 0 {
        ops.zero()
    } else {
        (ops.add)(dot(ops, x, y, (k - 1) as nat), (ops.mul)(x[k - 1], y[k - 1]))
    }
}

/// Matrix product; `cols` is the number of columns of `b`.
pub open spec fn product<T>(ops: Ops<T>, a: Seq<Seq<T>>, b: Seq<Seq<T>>, cols: nat) -> Seq<Seq<T>> {
    Seq::new(a.len(), |i: int| Seq::new(cols, |j: int| dot(ops, a[i], col(b, j), b.len())))
}

/// Entrywise sum of two rows.
pub open spec fn row_sum<T>(ops: Ops<T>, x: Seq<T>, y: Seq<T>) -> Seq<T> {
    Seq::new(x.len(), |j: int| (ops.add)(x[j], y[j]))
}

/// Entrywise difference of two rows.
pub open spec fn row_difference<T>(ops: Ops<T>, x: Seq<T>, y: Seq<T>) -> Seq<T> {
    Seq::new(x.len(), |j: int| (ops.sub)(x[j], y[j]))
}

/// A row times a factor.
pub open spec fn row_scaled<T>(ops: Ops<T>, x: Seq<T>, factor: T) -> Seq<T> {
    Seq::new(x.len(), |j: int| (ops.mul)(x[j], factor))
}

/// Entrywise sum of two matrices of one shape.
pub open spec fn sum<T>(ops: Ops<T>, a: Seq<Seq<T>>, b: Seq<Seq<T>>) -> Seq<Seq<T>> {
    Seq::new(a.len(), |i: int| row_sum(ops, a[i], b[i]))
}

/// A matrix times a factor.
pub open spec fn scaled<T>(ops: Ops<T>, m: Seq<Seq<T>>, factor: T) -> Seq<Seq<T>> {
    Seq::new(m.len(), |i: int| row_scaled(ops, m[i], factor))
}

/// Row `i` of the result is row `p[i]` of `m`.
pub open spec fn permuted_rows<T>(m: Seq<Seq<T>>, p: Seq<usize>) -> Seq<Seq<T>> {
    Seq::new(p.len(), |i: int| m[p[i] as int])
}

/// Column `j` of the result is column `p[j]` of `m`.
pub open spec fn permuted_cols<T>(m: Seq<Seq<T>>, p: Seq<usize>) -> Seq<Seq<T>> {
    Seq::new(m.len(), |i: int| Seq::new(p.len(), |j: int| m[i][p[j] as int]))
}

/// `inv` undoes `p`.
pub open spec fn is_inverse(p: Seq<usize>, inv: Seq<usize>) -> bool {
    &&& inv.len() == p.len()
    &&& forall|i: int| 0 <= i < p.len() ==> #[trigger] inv[p[i] as int] == i
}

/// The permutation that undoes `p`.
pub open spec fn inverse(p: Seq<usize>) -> Seq<usize> {
    Seq::new(p.len(), |v: int| p.index_of(v as usize) as usize)
}

/// A dense matrix, stored row by row.
#[derive(Debug)]
pub struct Matrix<T> {
    rows: Vec<Vec<T>>,
    ncols: usize,
}

impl<T> View for Matrix<T> {
    type V = Seq<Seq<T>>;

    closed spec fn view(&self) -> Seq<Seq<T>> {
        Seq::new(self.rows@.len(), |i: int| self.rows@[i]@)
    }
}

impl<T> Matrix<T> {
    /// Number of entries in each row.
    pub closed spec fn width(&self) -> nat {
        self.ncols as nat
    }

    #[verifier::type_invariant]
    spec fn rectangular(self) -> bool {
        forall|i: int| 0 <= i < self.rows@.len() ==> #[trigger] self.rows@[i]@.len() == self.ncols
    }

    /// The matrix with these rows.
    pub fn of_rows(rows: Vec<Vec<T>>, ncols: usize) -> (r: Matrix<T>)
        requires
            forall|i: int| 0 <= i < rows@.len() ==> #[trigger] rows@[i]@.len() == ncols,
        ensures
            r@ == Seq::new(rows@.len(), |i: int| rows@[i]@),
            r.width() == ncols,
    {
        Matrix { rows, ncols }
    }

    /// The matrix with these rows, where they all have `ncols` entries.
    pub fn from_rows(rows: Vec<Vec<T>>, ncols: usize) -> (r: Option<Matrix<T>>)
        ensures
            r is Some <==> forall|i: int|
                0 <= i < rows@.len() ==> #[trigger] rows@[i]@.len() == ncols,
            r matches Some(m) ==> {
                &&& m@ == Seq::new(rows@.len(), |i: int| rows@[i]@)
                &&& m.width() == ncols
            },
    {
        for i in 0..rows.len()
            invariant
                forall|j: int| 0 <= j < i ==> #[trigger] rows@[j]@.len() == ncols,
        {
            if rows[i].len() != ncols {
                return None;
            }
        }
        Some(Matrix { rows, ncols })
    }

    pub fn nrows(&self) -> (r: usize)
        ensures
            r == self@.len(),
            is_grid(self@, self@.len(), self.width()),
    {
        proof {
            use_type_invariant(self);
        }
        self.rows.len()
    }

    pub fn ncols(&self) -> (r: usize)
        ensures
            r == self.width(),
            is_grid(self@, self@.len(), self.width()),
    {
        proof {
            use_type_invariant(self);
        }
        self.ncols
    }

    /// Row `i`.
    pub fn row(&self, i: usize) -> (r: &Vec<T>)
        requires
            i < self@.len(),
        ensures
            r@ == self@[i as int],
            r@.len() == self.width(),
    {
        proof {
            use_type_invariant(self);
        }
        &self.rows[i]
    }

    /// The rows, given up.
    pub fn into_rows(self) -> (r: Vec<Vec<T>>)
        ensures
            r@.len() == self@.len(),
            forall|i: int| 0 <= i < r@.len() ==> #[trigger] r@[i]@ == self@[i],
            forall|i: int| 0 <= i < r@.len() ==> #[trigger] r@[i]@.len() == self.width(),
    {
        proof {
            use_type_invariant(&self);
        }
        self.rows
    }
}

impl<T: Copy> Matrix<T> {
    /// Entry in row `i`, column `j`.
    pub fn get(&self, i: usize, j: usize) -> (r: T)
        requires
            i < self@.len(),
            j < self.width(),
        ensures
            r == self@[i as int][j as int],
    {
        proof {
            use_type_invariant(self);
        }
        self.rows[i][j]
    }

    /// The matrix with `value` everywhere.
    pub fn filled(value: T, nrows: usize, ncols: usize) -> (r: Matrix<T>)
        ensures
            r@ == filled(value, nrows as nat, ncols as nat),
            r.width() == ncols,
    {
        let mut rows: Vec<Vec<T>> = Vec::new();
        for i in 0..nrows
            invariant
                rows@.len() == i,
                forall|a: int| 0 <= a < i ==> #[trigger] rows@[a]@ == Seq::new(
                    ncols as nat,
                    |j: int| value,
                ),
        {
            let row = filled_row(value, ncols);
            rows.push(row);
        }
        let m = Matrix { rows, ncols };
        assert(m@ =~= filled(value, nrows as nat, ncols as nat));
        m
    }

    /// An independent copy.
    pub fn copied(&self) -> (r: Matrix<T>)
        ensures
            r@ == self@,
            r.width() == self.width(),
    {
        let n: usize = self.nrows();
        self.first_rows(n)
    }

    /// The first `n` rows.
    pub fn first_rows(&self, n: usize) -> (r: Matrix<T>)
        requires
            n <= self@.len(),
        ensures
            r@ == self@.take(n as int),
            r.width() == self.width(),
    {
        let ncols: usize = self.ncols();
        let mut rows: Vec<Vec<T>> = Vec::new();
        for i in 0..n
            invariant
                n <= self@.len(),
                ncols == self.width(),
                rows@.len() == i,
                forall|a: int| 0 <= a < i ==> #[trigger] rows@[a]@ == self@[a],
                forall|a: int| 0 <= a < i ==> #[trigger] rows@[a]@.len() == ncols,
        {
            let row = copied_row(self.row(i));
            rows.push(row);
        }
        let m = Matrix { rows, ncols };
        assert(m@ =~= self@.take(n as int));
        m
    }

    /// The rows of `self` followed by those of `below`.
    pub fn stacked_on(&self, below: &Matrix<T>) -> (r: Matrix<T>)
        requires
            self.width() == below.width(),
            self@.len() + below@.len() <= usize::MAX,
        ensures
            r@ == self@ + below@,
            r.width() == self.width(),
    {
        let ncols: usize = self.ncols();
        let top: usize = self.nrows();
        let mut rows: Vec<Vec<T>> = self.copied().into_rows();
        let bottom: usize = below.nrows();
        for i in 0..bottom
            invariant
                bottom == below@.len(),
                ncols == self.width(),
                ncols == below.width(),
                top == self@.len(),
                rows@.len() == top + i,
                forall|a: int| 0 <= a < rows@.len() ==> #[trigger] rows@[a]@ == (self@ + below@)[a],
                forall|a: int| 0 <= a < rows@.len() ==> #[trigger] rows@[a]@.len() == ncols,
        {
            let row = copied_row(below.row(i));
            rows.push(row);
        }
        let m = Matrix { rows, ncols };
        assert(m@ =~= self@ + below@);
        m
    }

    /// Each row of `self` followed by the same row of `right`.
    pub fn beside(&self, right: &Matrix<T>) -> (r: Matrix<T>)
        requires
            self@.len() == right@.len(),
            self.width() + right.width() <= usize::MAX,
        ensures
            r@ == Seq::new(self@.len(), |i: int| self@[i] + right@[i]),
            r.width() == self.width() + right.width(),
    {
        let left_cols: usize = self.ncols();
        let right_cols: usize = right.ncols();
        let n: usize = self.nrows();
        let ncols: usize = left_cols + right_cols;
        let mut rows: Vec<Vec<T>> = Vec::new();
        for i in 0..n
            invariant
                n == self@.len(),
                n == right@.len(),
                left_cols == self.width(),
                right_cols == right.width(),
                ncols == left_cols + right_cols,
                rows@.len() == i,
                forall|a: int| 0 <= a < i ==> #[trigger] rows@[a]@ == self@[a] + right@[a],
                forall|a: int| 0 <= a < i ==> #[trigger] rows@[a]@.len() == ncols,
        {
            let mut row: Vec<T> = copied_row(self.row(i));
            let mut tail: Vec<T> = copied_row(right.row(i));
            row.append(&mut tail);
            rows.push(row);
        }
        let m = Matrix { rows, ncols };
        assert(m@ =~= Seq::new(self@.len(), |i: int| self@[i] + right@[i]));
        m
    }

    /// Rows become columns.
    pub fn transposed(&self) -> (r: Matrix<T>)
        ensures
            r@ == transpose(self@, self.width()),
            r.width() == self@.len(),
    {
        let ncols: usize = self.ncols();
        let n: usize = self.nrows();
        let mut rows: Vec<Vec<T>> = Vec::new();
        for j in 0..ncols
            invariant
                n == self@.len(),
                ncols == self.width(),
                rows@.len() == j,
                forall|a: int| 0 <= a < j ==> #[trigger] rows@[a]@ == col(self@, a),
        {
            let row = self.column(j);
            rows.push(row);
        }
        let m = Matrix { rows, ncols: n };
        assert(m@ =~= transpose(self@, self.width()));
        m
    }

    /// Column `j`.
    pub fn column(&self, j: usize) -> (r: Vec<T>)
        requires
            j < self.width(),
        ensures
            r@ == col(self@, j as int),
    {
        let n: usize = self.nrows();
        let mut out: Vec<T> = Vec::new();
        for i in 0..n
            invariant
                n == self@.len(),
                j < self.width(),
                out@.len() == i,
                forall|a: int| 0 <= a < i ==> #[trigger] out@[a] == self@[a][j as int],
        {
            out.push(self.get(i, j));
        }
        assert(out@ =~= col(self@, j as int));
        out
    }

    /// Row `i` of the result is row `p[i]`.
    pub fn permute_rows(&self, p: &Vec<usize>) -> (r: Matrix<T>)
        requires
            forall|i: int| 0 <= i < p@.len() ==> #[trigger] p@[i] < self@.len(),
        ensures
            r@ == permuted_rows(self@, p@),
            r.width() == self.width(),
    {
        let ncols: usize = self.ncols();
        let mut rows: Vec<Vec<T>> = Vec::new();
        for i in 0..p.len()
            invariant
                forall|i: int| 0 <= i < p@.len() ==> #[trigger] p@[i] < self@.len(),
                ncols == self.width(),
                rows@.len() == i,
                forall|a: int| 0 <= a < i ==> #[trigger] rows@[a]@ == self@[p@[a] as int],
                forall|a: int| 0 <= a < i ==> #[trigger] rows@[a]@.len() == ncols,
        {
            let row = copied_row(self.row(p[i]));
            rows.push(row);
        }
        let m = Matrix { rows, ncols };
        assert(m@ =~= permuted_rows(self@, p@));
        m
    }

    /// Column `j` of the result is column `p[j]`.
    pub fn permute_cols(&self, p: &Vec<usize>) -> (r: Matrix<T>)
        requires
            forall|j: int| 0 <= j < p@.len() ==> #[trigger] p@[j] < self.width(),
        ensures
            r@ == permuted_cols(self@, p@),
            r.width() == p@.len(),
    {
        let n: usize = self.nrows();
        let ncols: usize = p.len();
        let mut rows: Vec<Vec<T>> = Vec::new();
        for i in 0..n
            invariant
                forall|j: int| 0 <= j < p@.len() ==> #[trigger] p@[j] < self.width(),
                n == self@.len(),
                ncols == p@.len(),
                rows@.len() == i,
                forall|a: int|
                    0 <= a < i ==> #[trigger] rows@[a]@ == permuted_cols(self@, p@)[a],
        {
            let mut row: Vec<T> = Vec::new();
            for j in 0..ncols
                invariant
                    forall|j: int| 0 <= j < p@.len() ==> #[trigger] p@[j] < self.width(),
                    i < self@.len(),
                    ncols == p@.len(),
                    row@.len() == j,
                    forall|b: int|
                        0 <= b < j ==> #[trigger] row@[b] == self@[i as int][p@[b] as int],
            {
                row.push(self.get(i, p[j]));
            }
            assert(row@ =~= permuted_cols(self@, p@)[i as int]);
            rows.push(row);
        }
        let m = Matrix { rows, ncols };
        assert(m@ =~= permuted_cols(self@, p@));
        m
    }
}

/// A row with the same value everywhere.
pub fn filled_row<T: Copy>(value: T, len: usize) -> (r: Vec<T>)
    ensures
        r@ == Seq::new(len as nat, |j: int| value),
{
    let mut row: Vec<T> = Vec::new();
    for j in 0..len
        invariant
            row@.len() == j,
            forall|b: int| 0 <= b < j ==> #[trigger] row@[b] == value,
    {
        row.push(value);
    }
    assert(row@ =~= Seq::new(len as nat, |j: int| value));
    row
}

/// A copy of a row.
pub fn copied_row<T: Copy>(row: &Vec<T>) -> (r: Vec<T>)
    ensures
        r@ == row@,
{
    let mut out: Vec<T> = Vec::new();
    for j in 0..row.len()
        invariant
            out@.len() == j,
            forall|b: int| 0 <= b < j ==> #[trigger] out@[b] == row@[b],
    {
        out.push(row[j]);
    }
    assert(out@ =~= row@);
    out
}

/// The permutation that undoes `p`.
pub fn invert(p: &Vec<usize>) -> (r: Vec<usize>)
    requires
        rng::is_permutation(p@, p@.len()),
    ensures
        r@ == inverse(p@),
        rng::is_permutation(r@, p@.len()),
        is_inverse(p@, r@),
{
    let n: usize = p.len();
    let mut inv: Vec<usize> = filled_row(0usize, n);
    for i in 0..n
        invariant
            n == p@.len(),
            rng::is_permutation(p@, n as nat),
            inv@.len() == n,
            forall|a: int| 0 <= a < i ==> #[trigger] inv@[p@[a] as int] == a,
    {
        assert(p@[i as int] < n);
        inv[p[i]] = i;
    }
    proof {
        lemma_inverse(p@, inv@);
    }
    inv
}

/// The inverse of a permutation is unique and is itself a permutation.
proof fn lemma_inverse(p: Seq<usize>, inv: Seq<usize>)
    requires
        p.len() <= usize::MAX,
        rng::is_permutation(p, p.len()),
        is_inverse(p, inv),
    ensures
        inv == inverse(p),
        rng::is_permutation(inv, p.len()),
        is_inverse(inv, p),
{
    let n = p.len();
    assert forall|v: int| 0 <= v < n implies (#[trigger] inv[v]) < n && p[inv[v] as int] == v
        && p.index_of(v as usize) == inv[v] by {
        assert(p.contains(v as usize));
        let k = p.index_of(v as usize);
        assert(0 <= k < n && p[k] == v);
        assert(inv[p[k] as int] == k);
    }
    assert(inv =~= inverse(p));
    assert forall|i: int, j: int| 0 <= i < j < n implies inv[i] != inv[j] by {
        assert(p[inv[i] as int] == i && p[inv[j] as int] == j);
    }
    assert forall|v: usize| v < n implies #[trigger] inv.contains(v) by {
        assert(inv[p[v as int] as int] == v);
    }
}

impl<T: Scalar> Matrix<T> {
    /// The zero matrix.
    pub fn zeros(nrows: usize, ncols: usize) -> (r: Matrix<T>)
        ensures
            r@ == filled(T::ops().zero(), nrows as nat, ncols as nat),
            r.width() == ncols,
    {
        Matrix::filled(T::from_int(0), nrows, ncols)
    }

    /// Matrix product.
    pub fn times(&self, rhs: &Matrix<T>) -> (r: Matrix<T>)
        requires
            self.width() == rhs@.len(),
        ensures
            r@ == product(T::ops(), self@, rhs@, rhs.width()),
            r.width() == rhs.width(),
    {
        let inner: usize = rhs.nrows();
        let ncols: usize = rhs.ncols();
        let n: usize = self.nrows();
        let mut rows: Vec<Vec<T>> = Vec::new();
        for i in 0..n
            invariant
                n == self@.len(),
                inner == rhs@.len(),
                self.width() == inner,
                ncols == rhs.width(),
                rows@.len() == i,
                forall|a: int| 0 <= a < i ==> #[trigger] rows@[a]@ == product(
                    T::ops(),
                    self@,
                    rhs@,
                    ncols as nat,
                )[a],
        {
            let mut row: Vec<T> = filled_row(T::from_int(0), ncols);
            for t in 0..inner
                invariant
                    i < self@.len(),
                    inner == rhs@.len(),
                    self.width() == inner,
                    ncols == rhs.width(),
                    row@.len() == ncols,
                    forall|b: int| 0 <= b < ncols ==> #[trigger] row@[b] == dot(
                        T::ops(),
                        self@[i as int],
                        col(rhs@, b),
                        t as nat,
                    ),
            {
                let x: T = self.get(i, t);
                let from: &[T] = rhs.row(t).as_slice();
                for j in 0..ncols
                    invariant
                        i < self@.len(),
                        t < inner,
                        inner == rhs@.len(),
                        self.width() == inner,
                        ncols == rhs.width(),
                        x == self@[i as int][t as int],
                        from@ == rhs@[t as int],
                        from@.len() == ncols,
                        row@.len() == ncols,
                        forall|b: int| 0 <= b < ncols ==> #[trigger] row@[b] == dot(
                            T::ops(),
                            self@[i as int],
                            col(rhs@, b),
                            if b < j {
                                (t + 1) as nat
                            } else {
                                t as nat
                            },
                        ),
                {
                    let sum: T = row[j].plus(x.times(from[j]));
                    row[j] = sum;
                }
            }
            assert(row@ =~= product(T::ops(), self@, rhs@, ncols as nat)[i as int]);
            rows.push(row);
        }
        let m = Matrix { rows, ncols };
        assert(m@ =~= product(T::ops(), self@, rhs@, ncols as nat));
        m
    }

    /// Entrywise sum.
    pub fn plus(&self, other: &Matrix<T>) -> (r: Matrix<T>)
        requires
            self@.len() == other@.len(),
            self.width() == other.width(),
        ensures
            r@ == sum(T::ops(), self@, other@),
            r.width() == self.width(),
    {
        let n: usize = self.nrows();
        let ncols: usize = self.ncols();
        let mut rows: Vec<Vec<T>> = Vec::new();
        for i in 0..n
            invariant
                n == self@.len(),
                n == other@.len(),
                ncols == self.width(),
                ncols == other.width(),
                rows@.len() == i,
                forall|a: int|
                    0 <= a < i ==> #[trigger] rows@[a]@ == row_sum(T::ops(), self@[a], other@[a]),
                forall|a: int| 0 <= a < i ==> #[trigger] rows@[a]@.len() == ncols,
        {
            let row = added_rows(self.row(i), other.row(i));
            rows.push(row);
        }
        let m = Matrix { rows, ncols };
        assert(m@ =~= sum(T::ops(), self@, other@));
        m
    }

    /// Every entry times a factor.
    pub fn scaled_by(&self, factor: T) -> (r: Matrix<T>)
        ensures
            r@ == scaled(T::ops(), self@, factor),
            r.width() == self.width(),
    {
        let n: usize = self.nrows();
        let ncols: usize = self.ncols();
        let mut rows: Vec<Vec<T>> = Vec::new();
        for i in 0..n
            invariant
                n == self@.len(),
                ncols == self.width(),
                rows@.len() == i,
                forall|a: int|
                    0 <= a < i ==> #[trigger] rows@[a]@ == row_scaled(T::ops(), self@[a], factor),
                forall|a: int| 0 <= a < i ==> #[trigger] rows@[a]@.len() == ncols,
        {
            let row = scaled_row(self.row(i), factor);
            rows.push(row);
        }
        let m = Matrix { rows, ncols };
        assert(m@ =~= scaled(T::ops(), self@, factor));
        m
    }
}

/// Entrywise sum of two rows.
pub fn added_rows<T: Scalar>(x: &Vec<T>, y: &Vec<T>) -> (r: Vec<T>)
    requires
        x@.len() == y@.len(),
    ensures
        r@ == row_sum(T::ops(), x@, y@),
{
    let mut out: Vec<T> = Vec::new();
    for j in 0..x.len()
        invariant
            x@.len() == y@.len(),
            out@.len() == j,
            forall|b: int| 0 <= b < j ==> #[trigger] out@[b] == (T::ops().add)(x@[b], y@[b]),
    {
        out.push(x[j].plus(y[j]));
    }
    assert(out@ =~= row_sum(T::ops(), x@, y@));
    out
}

/// Entrywise difference of two rows.
pub fn subtracted_rows<T: Scalar>(x: &Vec<T>, y: &Vec<T>) -> (r: Vec<T>)
    requires
        x@.len() == y@.len(),
    ensures
        r@ == row_difference(T::ops(), x@, y@),
{
    let mut out: Vec<T> = Vec::new();
    for j in 0..x.len()
        invariant
            x@.len() == y@.len(),
            out@.len() == j,
            forall|b: int| 0 <= b < j ==> #[trigger] out@[b] == (T::ops().sub)(x@[b], y@[b]),
    {
        out.push(x[j].minus(y[j]));
    }
    assert(out@ =~= row_difference(T::ops(), x@, y@));
    out
}

/// A row times a factor.
pub fn scaled_row<T: Scalar>(x: &Vec<T>, factor: T) -> (r: Vec<T>)
    ensures
        r@ == row_scaled(T::ops(), x@, factor),
{
    let mut out: Vec<T> = Vec::new();
    for j in 0..x.len()
        invariant
            out@.len() == j,
            forall|b: int| 0 <= b < j ==> #[trigger] out@[b] == (T::ops().mul)(x@[b], factor),
    {
        out.push(x[j].times(factor));
    }
    assert(out@ =~= row_scaled(T::ops(), x@, factor));
    out
}

/// A matrix of this shape can be laid out over `n` rows of width `d`: each side fits, or is one
/// and is repeated.
pub open spec fn spreads<T>(m: Matrix<T>, n: nat, d: nat) -> bool {
    &&& m@.len() == n || m@.len() == 1
    &&& m.width() == d || m.width() == 1
}

/// `r` is `m` laid out over `n` rows of width `d`: itself where it has that shape, else with its
/// only row or column repeated.
pub open spec fn is_spread<T>(m: Matrix<T>, n: nat, d: nat, r: Matrix<T>) -> bool {
    if m@.len() == n && m.width() == d {
        r == m
    } else {
        &&& r@.len() == n
        &&& r.width() == d
        &&& forall|i: int, j: int|
            0 <= i < n && 0 <= j < d ==> #[trigger] r@[i][j] == m@[if m@.len() == n {
                i
            } else {
                0
            }][if m.width() == d {
                j
            } else {
                0
            }]
    }
}

/// A row laid out over a width: itself where it fits, else its first entry repeated.
pub open spec fn row_over<T>(row: Seq<T>, d: nat) -> Seq<T> {
    if row.len() == d {
        row
    } else {
        Seq::new(d, |j: int| row[0])
    }
}

/// Rows laid out over `n` rows of width `d`: themselves where they fit, else the first row or
/// the first column repeated.
pub open spec fn spread_over<T>(m: Seq<Seq<T>>, n: nat, d: nat) -> Seq<Seq<T>> {
    Seq::new(
        n,
        |i: int|
            row_over(
                m[if m.len() == n {
                    i
                } else {
                    0
                }],
                d,
            ),
    )
}

/// Lays a matrix out over `n` rows of width `d`.
pub fn spread<T: Copy>(m: Matrix<T>, n: usize, d: usize) -> (r: Option<Matrix<T>>)
    ensures
        r is Some <==> spreads(m, n as nat, d as nat),
        r matches Some(x) ==> {
            &&& is_spread(m, n as nat, d as nat, x)
            &&& x@ == spread_over(m@, n as nat, d as nat)
            &&& x@.len() == n
            &&& x.width() == d
        },
{
    let rows: usize = m.nrows();
    let cols: usize = m.ncols();
    if rows == n && cols == d {
        assert(m@ =~= spread_over(m@, n as nat, d as nat));
        return Some(m);
    }
    if (rows != n && rows != 1) || (cols != d && cols != 1) {
        return None;
    }
    let mut out: Vec<Vec<T>> = Vec::new();
    for i in 0..n
        invariant
            rows == m@.len(),
            cols == m.width(),
            rows == n || rows == 1,
            cols == d || cols == 1,
            out@.len() == i,
            forall|a: int| 0 <= a < i ==> #[trigger] out@[a]@.len() == d,
            forall|a: int, b: int|
                0 <= a < i && 0 <= b < d ==> #[trigger] out@[a]@[b] == m@[if rows == n {
                    a
                } else {
                    0
                }][if cols == d {
                    b
                } else {
                    0
                }],
    {
        let at: usize = if rows == n {
            i
        } else {
            0
        };
        let mut row: Vec<T> = Vec::new();
        for j in 0..d
            invariant
                rows == m@.len(),
                cols == m.width(),
                cols == d || cols == 1,
                at < rows,
                row@.len() == j,
                forall|b: int|
                    0 <= b < j ==> #[trigger] row@[b] == m@[at as int][if cols == d {
                        b
                    } else {
                        0
                    }],
        {
            let x: T = if cols == d {
                m.get(at, j)
            } else {
                m.get(at, 0)
            };
            row.push(x);
        }
        out.push(row);
    }
    let x: Matrix<T> = Matrix::of_rows(out, d);
    assert forall|i: int| 0 <= i < n implies #[trigger] x@[i] == spread_over(
        m@,
        n as nat,
        d as nat,
    )[i] by {
        let at = if rows == n {
            i
        } else {
            0
        };
        assert(m@[at].len() == cols);
        assert(x@[i] =~= row_over(m@[at], d as nat));
    }
    assert(x@ =~= spread_over(m@, n as nat, d as nat));
    Some(x)
}

/// A stack of matrices of one shape.
#[derive(Debug)]
pub struct Tensor3<T> {
    heads: Vec<Matrix<T>>,
    nrows: usize,
    ncols: usize,
}

impl<T> View for Tensor3<T> {
    type V = Seq<Seq<Seq<T>>>;

    closed spec fn view(&self) -> Seq<Seq<Seq<T>>> {
        Seq::new(self.heads@.len(), |h: int| self.heads@[h]@)
    }
}

/// `t` is a stack of `heads` matrices with `rows` rows of `cols` entries each.
pub open spec fn is_stack<T>(t: Seq<Seq<Seq<T>>>, heads: nat, rows: nat, cols: nat) -> bool {
    &&& t.len() == heads
    &&& forall|h: int| 0 <= h < heads ==> is_grid(#[trigger] t[h], rows, cols)
}

impl<T> Tensor3<T> {
    /// One matrix of the stack.
    pub closed spec fn slice(&self, h: int) -> Matrix<T> {
        self.heads@[h]
    }

    /// Number of rows of each matrix.
    pub closed spec fn height(&self) -> nat {
        self.nrows as nat
    }

    /// Number of entries in each row.
    pub closed spec fn width(&self) -> nat {
        self.ncols as nat
    }

    /// All matrices of the stack have its shape.
    pub open spec fn regular(&self) -> bool {
        &&& is_stack(self@, self@.len(), self.height(), self.width())
        &&& forall|h: int|
            0 <= h < self@.len() ==> {
                &&& (#[trigger] self.slice(h))@ == self@[h]
                &&& self.slice(h).width() == self.width()
            }
    }

    #[verifier::type_invariant]
    spec fn uniform(self) -> bool {
        forall|h: int|
            0 <= h < self.heads@.len() ==> {
                &&& is_grid((#[trigger] self.heads@[h])@, self.nrows as nat, self.ncols as nat)
                &&& self.heads@[h].width() == self.ncols
            }
    }

    /// The stack of these matrices.
    pub fn of_heads(heads: Vec<Matrix<T>>, nrows: usize, ncols: usize) -> (r: Tensor3<T>)
        requires
            forall|h: int|
                0 <= h < heads@.len() ==> (#[trigger] heads@[h])@.len() == nrows
                    && heads@[h].width() == ncols,
        ensures
            r@ == Seq::new(heads@.len(), |h: int| heads@[h]@),
            forall|h: int| 0 <= h < heads@.len() ==> #[trigger] r.slice(h) == heads@[h],
            r.regular(),
            r.height() == nrows,
            r.width() == ncols,
    {
        for h in 0..heads.len()
            invariant
                forall|h: int|
                    0 <= h < heads@.len() ==> (#[trigger] heads@[h])@.len() == nrows
                        && heads@[h].width() == ncols,
                forall|g: int|
                    0 <= g < h ==> is_grid((#[trigger] heads@[g])@, nrows as nat, ncols as nat),
        {
            let _ = heads[h].nrows();
        }
        Tensor3 { heads, nrows, ncols }
    }

    /// The stack of these matrices, where they all have `nrows` rows of `ncols` entries.
    pub fn from_heads(heads: Vec<Matrix<T>>, nrows: usize, ncols: usize) -> (r: Option<Tensor3<T>>)
        ensures
            r is Some <==> forall|h: int|
                0 <= h < heads@.len() ==> (#[trigger] heads@[h])@.len() == nrows
                    && heads@[h].width() == ncols,
            r matches Some(t) ==> {
                &&& t@ == Seq::new(heads@.len(), |h: int| heads@[h]@)
                &&& t.height() == nrows
                &&& t.width() == ncols
            },
    {
        for h in 0..heads.len()
            invariant
                forall|g: int|
                    0 <= g < h ==> {
                        &&& is_grid((#[trigger] heads@[g])@, nrows as nat, ncols as nat)
                        &&& heads@[g].width() == ncols
                    },
        {
            if heads[h].nrows() != nrows || heads[h].ncols() != ncols {
                return None;
            }
        }
        Some(Tensor3 { heads, nrows, ncols })
    }

    /// Number of heads, rows and columns.
    pub fn dim(&self) -> (r: (usize, usize, usize))
        ensures
            r.0 == self@.len(),
            r.1 == self.height(),
            r.2 == self.width(),
            self.regular(),
    {
        proof {
            use_type_invariant(self);
        }
        (self.heads.len(), self.nrows, self.ncols)
    }

    /// One matrix of the stack.
    pub fn head(&self, h: usize) -> (r: &Matrix<T>)
        requires
            h < self@.len(),
        ensures
            *r == self.slice(h as int),
            r@ == self@[h as int],
            r@.len() == self.height(),
            r.width() == self.width(),
    {
        proof {
            use_type_invariant(self);
        }
        &self.heads[h]
    }
}

} // verus!
