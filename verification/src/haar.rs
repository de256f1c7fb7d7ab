//! Orthogonal matrices from Gaussian ones, by Householder reflections.

use vstd::prelude::*;

use crate::gaussian;
use crate::matrix;
use crate::matrix::Matrix;
use crate::rng;
use crate::rng::MaskRng;
use crate::scalar::{Ops, Scalar};

verus! {

/// `init` plus the squares of the entries of column `k` in rows `from..to`, added in order.
pub open spec fn plus_squares<T>(
    ops: Ops<T>,
    init: T,
    a: Seq<Seq<T>>,
    k: int,
    from: int,
    to: int,
) -> T
    decreases to - from,
{
    if to <= from {
        init
    } else {
        (ops.add)(
            plus_squares(ops, init, a, k, from, to - 1),
            (ops.mul)(a[to - 1][k], a[to - 1][k]),
        )
    }
}

/// Norm of column `k` from row `k` down.
pub open spec fn column_norm<T>(ops: Ops<T>, a: Seq<Seq<T>>, k: int) -> T {
    (ops.sqrt)(plus_squares(ops, ops.zero(), a, k, k, a.len() as int))
}

/// Where the reflection takes the leading entry of column `k`: to the norm, with the sign
/// opposite to that entry.
pub open spec fn reflected_head<T>(ops: Ops<T>, a: Seq<Seq<T>>, k: int) -> T {
    if (ops.le)(ops.zero(), a[k][k]) {
        (ops.neg)(column_norm(ops, a, k))
    } else {
        column_norm(ops, a, k)
    }
}

/// First component of the reflection vector, before it is normalised.
pub open spec fn lead<T>(ops: Ops<T>, a: Seq<Seq<T>>, k: int) -> T {
    (ops.sub)(a[k][k], reflected_head(ops, a, k))
}

/// Norm of the reflection vector.
pub open spec fn vector_norm<T>(ops: Ops<T>, a: Seq<Seq<T>>, k: int) -> T {
    (ops.sqrt)(
        plus_squares(
            ops,
            (ops.mul)(lead(ops, a, k), lead(ops, a, k)),
            a,
            k,
            k + 1,
            a.len() as int,
        ),
    )
}

/// The unit vector, for rows `k` and below, whose reflection clears column `k` below the
/// diagonal.
pub open spec fn reflection_vector<T>(ops: Ops<T>, a: Seq<Seq<T>>, k: int) -> Seq<T> {
    Seq::new(
        (a.len() - k) as nat,
        |t: int|
            (ops.div)(
                if t == 0 {
                    lead(ops, a, k)
                } else {
                    a[k + t][k]
                },
                vector_norm(ops, a, k),
            ),
    )
}

/// Column `k` is too short to be reflected.
pub open spec fn skipped<T>(ops: Ops<T>, a: Seq<Seq<T>>, k: int) -> bool {
    (ops.lt)(column_norm(ops, a, k), ops.negligible) || (ops.lt)(
        vector_norm(ops, a, k),
        ops.negligible,
    )
}

/// Entries of column `j` from row `k` down.
pub open spec fn col_from<T>(a: Seq<Seq<T>>, j: int, k: int) -> Seq<T> {
    Seq::new((a.len() - k) as nat, |t: int| a[k + t][j])
}

/// `a[k.., k..] - 2·v·(vᵀ·a[k.., k..])`.
pub open spec fn reflected_rows<T>(ops: Ops<T>, a: Seq<Seq<T>>, k: int, v: Seq<T>) -> Seq<Seq<T>> {
    Seq::new(
        a.len(),
        |i: int|
            Seq::new(
                a[i].len(),
                |j: int|
                    if i < k || j < k {
                        a[i][j]
                    } else {
                        (ops.sub)(
                            a[i][j],
                            (ops.mul)(
                                (ops.mul)(ops.two(), v[i - k]),
                                matrix::dot(ops, v, col_from(a, j, k), v.len()),
                            ),
                        )
                    },
            ),
    )
}

/// `q[.., k..] - 2·(q[.., k..]·v)·vᵀ`.
pub open spec fn reflected_cols<T>(ops: Ops<T>, q: Seq<Seq<T>>, k: int, v: Seq<T>) -> Seq<Seq<T>> {
    Seq::new(
        q.len(),
        |r: int|
            Seq::new(
                q[r].len(),
                |j: int|
                    if j < k {
                        q[r][j]
                    } else {
                        (ops.sub)(
                            q[r][j],
                            (ops.mul)(
                                (ops.mul)(
                                    ops.two(),
                                    matrix::dot(ops, q[r].skip(k), v, v.len()),
                                ),
                                v[j - k],
                            ),
                        )
                    },
            ),
    )
}

/// The triangular and the orthogonal factor after the reflections of columns `k` and on.
pub open spec fn factors_from<T>(
    ops: Ops<T>,
    a: Seq<Seq<T>>,
    q: Seq<Seq<T>>,
    k: nat,
) -> (Seq<Seq<T>>, Seq<Seq<T>>)
    decreases a.len() - k,
{
    if k + 1 >= a.len() {
        (a, q)
    } else if skipped(ops, a, k as int) {
        factors_from(ops, a, q, k + 1)
    } else {
        let v = reflection_vector(ops, a, k as int);
        factors_from(
            ops,
            reflected_rows(ops, a, k as int, v),
            reflected_cols(ops, q, k as int, v),
            k + 1,
        )
    }
}

/// Columns of `q` are negated where the diagonal of `a` is negative.
pub open spec fn sign_corrected<T>(ops: Ops<T>, a: Seq<Seq<T>>, q: Seq<Seq<T>>) -> Seq<Seq<T>> {
    Seq::new(
        q.len(),
        |i: int|
            Seq::new(
                q[i].len(),
                |j: int|
                    if (ops.lt)(a[j][j], ops.zero()) {
                        (ops.neg)(q[i][j])
                    } else {
                        q[i][j]
                    },
            ),
    )
}

/// The identity matrix.
pub open spec fn identity<T>(ops: Ops<T>, n: nat) -> Seq<Seq<T>> {
    Seq::new(
        n,
        |i: int|
            Seq::new(
                n,
                |j: int|
                    if i == j {
                        ops.one()
                    } else {
                        ops.zero()
                    },
            ),
    )
}

/// The orthogonal factor of a square matrix, with the signs that make the diagonal of the
/// triangular factor non-negative.
pub open spec fn orthogonal_factor<T>(ops: Ops<T>, g: Seq<Seq<T>>) -> Seq<Seq<T>> {
    let f = factors_from(ops, g, identity(ops, g.len()), 0);
    sign_corrected(ops, f.0, f.1)
}

/// The mask matrix sampled at side `n` from a stream.
pub open spec fn sampled<T>(ops: Ops<T>, s: rng::RngState, n: nat) -> Seq<Seq<T>> {
    orthogonal_factor(ops, gaussian::normal_rows(ops, s, n, n, ops.one()))
}

/// The identity matrix.
pub fn identity_matrix<T: Scalar>(n: usize) -> (r: Matrix<T>)
    ensures
        r@ == identity(T::ops(), n as nat),
        r.width() == n,
{
    let zero: T = T::from_int(0);
    let one: T = T::from_int(1);
    let mut rows: Vec<Vec<T>> = Vec::new();
    for i in 0..n
        invariant
            zero == T::ops().zero(),
            one == T::ops().one(),
            rows@.len() == i,
            forall|a: int| 0 <= a < i ==> #[trigger] rows@[a]@ == identity(T::ops(), n as nat)[a],
    {
        let mut row: Vec<T> = matrix::filled_row(zero, n);
        row[i] = one;
        assert(row@ =~= identity(T::ops(), n as nat)[i as int]);
        rows.push(row);
    }
    let m: Matrix<T> = Matrix::of_rows(rows, n);
    assert(m@ =~= identity(T::ops(), n as nat));
    m
}

/// Adds the squares of column `k` in rows `from..` to `init`.
fn add_squares<T: Scalar>(init: T, a: &Matrix<T>, k: usize, from: usize) -> (r: T)
    requires
        k < a.width(),
        from <= a@.len(),
    ensures
        r == plus_squares(T::ops(), init, a@, k as int, from as int, a@.len() as int),
{
    let n: usize = a.nrows();
    let mut acc: T = init;
    for i in from..n
        invariant
            n == a@.len(),
            k < a.width(),
            from <= n,
            acc == plus_squares(T::ops(), init, a@, k as int, from as int, i as int),
    {
        let x: T = a.get(i, k);
        acc = acc.plus(x.times(x));
    }
    acc
}

/// The reflection vector of column `k`, unless the column is too short.
fn reflection<T: Scalar>(a: &Matrix<T>, k: usize) -> (r: Option<Vec<T>>)
    requires
        k < a@.len(),
        a.width() == a@.len(),
    ensures
        r is None <==> skipped(T::ops(), a@, k as int),
        r matches Some(v) ==> v@ == reflection_vector(T::ops(), a@, k as int),
{
    let n: usize = a.nrows();
    let sigma: T = add_squares(T::from_int(0), a, k, k).square_root();
    if sigma.below(T::negligible()) {
        return None;
    }
    let a_kk: T = a.get(k, k);
    let alpha: T = if T::from_int(0).at_most(a_kk) {
        sigma.negated()
    } else {
        sigma
    };
    let v0: T = a_kk.minus(alpha);
    let v_norm: T = add_squares(v0.times(v0), a, k, k + 1).square_root();
    if v_norm.below(T::negligible()) {
        return None;
    }
    let mut v: Vec<T> = Vec::new();
    v.push(v0.over(v_norm));
    for i in k + 1..n
        invariant
            n == a@.len(),
            a.width() == n,
            k < n,
            v_norm == vector_norm(T::ops(), a@, k as int),
            v@.len() == i - k,
            forall|t: int|
                0 <= t < v@.len() ==> #[trigger] v@[t] == reflection_vector(
                    T::ops(),
                    a@,
                    k as int,
                )[t],
    {
        v.push(a.get(i, k).over(v_norm));
    }
    assert(v@ =~= reflection_vector(T::ops(), a@, k as int));
    Some(v)
}

/// Applies a reflection to the rows from `k` down and the columns from `k` on.
fn reflect_rows<T: Scalar>(a: &Matrix<T>, k: usize, v: &Vec<T>) -> (r: Matrix<T>)
    requires
        k <= a@.len(),
        a.width() == a@.len(),
        v@.len() == a@.len() - k,
    ensures
        r@ == reflected_rows(T::ops(), a@, k as int, v@),
        r.width() == a.width(),
{
    let n: usize = a.nrows();
    let m: usize = v.len();
    let ghost target = reflected_rows(T::ops(), a@, k as int, v@);
    let mut dots: Vec<T> = Vec::new();
    for j in k..n
        invariant
            n == a@.len(),
            a.width() == n,
            k <= n,
            m == v@.len(),
            m == n - k,
            dots@.len() == j - k,
            forall|t: int|
                0 <= t < dots@.len() ==> #[trigger] dots@[t] == matrix::dot(
                    T::ops(),
                    v@,
                    col_from(a@, k + t, k as int),
                    m as nat,
                ),
    {
        let mut acc: T = T::from_int(0);
        for t in 0..m
            invariant
                n == a@.len(),
                a.width() == n,
                k <= j < n,
                m == v@.len(),
                m == n - k,
                acc == matrix::dot(T::ops(), v@, col_from(a@, j as int, k as int), t as nat),
        {
            acc = acc.plus(v[t].times(a.get(k + t, j)));
        }
        dots.push(acc);
    }
    let two: T = T::from_int(2);
    let mut rows: Vec<Vec<T>> = Vec::new();
    for i in 0..n
        invariant
            n == a@.len(),
            a.width() == n,
            matrix::is_grid(a@, n as nat, n as nat),
            k <= n,
            m == v@.len(),
            m == n - k,
            two == T::ops().two(),
            dots@.len() == m,
            forall|t: int|
                0 <= t < dots@.len() ==> #[trigger] dots@[t] == matrix::dot(
                    T::ops(),
                    v@,
                    col_from(a@, k + t, k as int),
                    m as nat,
                ),
            target == reflected_rows(T::ops(), a@, k as int, v@),
            rows@.len() == i,
            forall|b: int| 0 <= b < i ==> #[trigger] rows@[b]@ == target[b],
            forall|b: int| 0 <= b < i ==> #[trigger] rows@[b]@.len() == n,
    {
        let mut row: Vec<T> = matrix::copied_row(a.row(i));
        if i >= k {
            let coef: T = two.times(v[i - k]);
            for j in k..n
                invariant
                    n == a@.len(),
                    a.width() == n,
                    matrix::is_grid(a@, n as nat, n as nat),
                    k <= i < n,
                    k <= n,
                    m == v@.len(),
                    m == n - k,
                    coef == (T::ops().mul)(T::ops().two(), v@[i - k]),
                    dots@.len() == m,
                    forall|t: int|
                        0 <= t < dots@.len() ==> #[trigger] dots@[t] == matrix::dot(
                            T::ops(),
                            v@,
                            col_from(a@, k + t, k as int),
                            m as nat,
                        ),
                    target == reflected_rows(T::ops(), a@, k as int, v@),
                    row@.len() == n,
                    forall|b: int| 0 <= b < j ==> #[trigger] row@[b] == target[i as int][b],
                    forall|b: int| j <= b < n ==> #[trigger] row@[b] == a@[i as int][b],
            {
                assert(dots@[j - k] == matrix::dot(
                    T::ops(),
                    v@,
                    col_from(a@, j as int, k as int),
                    m as nat,
                ));
                let x: T = row[j].minus(coef.times(dots[j - k]));
                row[j] = x;
            }
        }
        assert(row@ =~= target[i as int]);
        rows.push(row);
    }
    let out: Matrix<T> = Matrix::of_rows(rows, n);
    assert(out@ =~= target);
    out
}

/// Applies a reflection to the columns from `k` on.
fn reflect_cols<T: Scalar>(q: &Matrix<T>, k: usize, v: &Vec<T>) -> (r: Matrix<T>)
    requires
        k <= q.width(),
        v@.len() == q.width() - k,
    ensures
        r@ == reflected_cols(T::ops(), q@, k as int, v@),
        r.width() == q.width(),
{
    let n: usize = q.nrows();
    let w: usize = q.ncols();
    let m: usize = v.len();
    let ghost target = reflected_cols(T::ops(), q@, k as int, v@);
    let two: T = T::from_int(2);
    let mut rows: Vec<Vec<T>> = Vec::new();
    for i in 0..n
        invariant
            n == q@.len(),
            w == q.width(),
            matrix::is_grid(q@, n as nat, w as nat),
            k <= w,
            m == v@.len(),
            m == w - k,
            two == T::ops().two(),
            target == reflected_cols(T::ops(), q@, k as int, v@),
            rows@.len() == i,
            forall|b: int| 0 <= b < i ==> #[trigger] rows@[b]@ == target[b],
            forall|b: int| 0 <= b < i ==> #[trigger] rows@[b]@.len() == w,
    {
        let mut row: Vec<T> = matrix::copied_row(q.row(i));
        let mut acc: T = T::from_int(0);
        for t in 0..m
            invariant
                row@ == q@[i as int],
                row@.len() == w,
                k <= w,
                m == v@.len(),
                m == w - k,
                acc == matrix::dot(T::ops(), q@[i as int].skip(k as int), v@, t as nat),
        {
            acc = acc.plus(row[k + t].times(v[t]));
        }
        let coef: T = two.times(acc);
        for j in k..w
            invariant
                n == q@.len(),
                w == q.width(),
                matrix::is_grid(q@, n as nat, w as nat),
                i < n,
                k <= w,
                m == v@.len(),
                m == w - k,
                coef == (T::ops().mul)(
                    T::ops().two(),
                    matrix::dot(T::ops(), q@[i as int].skip(k as int), v@, m as nat),
                ),
                target == reflected_cols(T::ops(), q@, k as int, v@),
                row@.len() == w,
                forall|b: int| 0 <= b < j ==> #[trigger] row@[b] == target[i as int][b],
                forall|b: int| j <= b < w ==> #[trigger] row@[b] == q@[i as int][b],
        {
            let x: T = row[j].minus(coef.times(v[j - k]));
            row[j] = x;
        }
        assert(row@ =~= target[i as int]);
        rows.push(row);
    }
    let out: Matrix<T> = Matrix::of_rows(rows, w);
    assert(out@ =~= target);
    out
}

/// Negates the columns of `q` where the diagonal of `a` is negative.
fn correct_signs<T: Scalar>(a: &Matrix<T>, q: &Matrix<T>) -> (r: Matrix<T>)
    requires
        a@.len() == q.width(),
        a.width() == q.width(),
    ensures
        r@ == sign_corrected(T::ops(), a@, q@),
        r.width() == q.width(),
{
    let n: usize = q.nrows();
    let w: usize = q.ncols();
    let zero: T = T::from_int(0);
    let ghost target = sign_corrected(T::ops(), a@, q@);
    let mut rows: Vec<Vec<T>> = Vec::new();
    for i in 0..n
        invariant
            n == q@.len(),
            w == q.width(),
            w == a@.len(),
            w == a.width(),
            matrix::is_grid(q@, n as nat, w as nat),
            zero == T::ops().zero(),
            target == sign_corrected(T::ops(), a@, q@),
            rows@.len() == i,
            forall|b: int| 0 <= b < i ==> #[trigger] rows@[b]@ == target[b],
            forall|b: int| 0 <= b < i ==> #[trigger] rows@[b]@.len() == w,
    {
        let mut row: Vec<T> = Vec::new();
        for j in 0..w
            invariant
                n == q@.len(),
                w == q.width(),
                w == a@.len(),
                w == a.width(),
                i < n,
                zero == T::ops().zero(),
                row@.len() == j,
                forall|b: int| 0 <= b < j ==> #[trigger] row@[b] == (if (T::ops().lt)(
                    a@[b][b],
                    T::ops().zero(),
                ) {
                    (T::ops().neg)(q@[i as int][b])
                } else {
                    q@[i as int][b]
                }),
        {
            let x: T = q.get(i, j);
            if a.get(j, j).below(zero) {
                row.push(x.negated());
            } else {
                row.push(x);
            }
        }
        assert(row@ =~= target[i as int]);
        rows.push(row);
    }
    let out: Matrix<T> = Matrix::of_rows(rows, w);
    assert(out@ =~= target);
    out
}

/// The orthogonal factor of a square matrix, by Householder reflections.
pub fn orthogonalize<T: Scalar>(g: &Matrix<T>) -> (r: Matrix<T>)
    requires
        g.width() == g@.len(),
    ensures
        r@ == orthogonal_factor(T::ops(), g@),
        r@.len() == g@.len(),
        r.width() == g@.len(),
{
    let n: usize = g.nrows();
    let mut a: Matrix<T> = g.copied();
    let mut q: Matrix<T> = identity_matrix(n);
    let ghost goal = factors_from(T::ops(), g@, identity(T::ops(), n as nat), 0);
    let mut k: usize = 0;
    while n > 0 && k < n - 1
        invariant
            n == g@.len(),
            k <= n,
            a@.len() == n,
            a.width() == n,
            q@.len() == n,
            q.width() == n,
            goal == factors_from(T::ops(), a@, q@, k as nat),
        decreases n - k,
    {
        if let Some(v) = reflection(&a, k) {
            q = reflect_cols(&q, k, &v);
            a = reflect_rows(&a, k, &v);
        }
        k = k + 1;
    }
    correct_signs(&a, &q)
}

/// Samples an orthogonal matrix of side `n`.
pub fn sample_haar_orthogonal<T: Scalar>(n: usize, rng: &mut MaskRng) -> (r: Matrix<T>)
    ensures
        r@ == sampled(T::ops(), old(rng)@, n as nat),
        r@.len() == n,
        r.width() == n,
        final(rng)@ == gaussian::after_normal_rows(T::ops(), old(rng)@, n as nat, n as nat),
{
    let g: Matrix<T> = gaussian::sample_normal(n, n, T::from_int(1), rng);
    orthogonalize(&g)
}

} // verus!
