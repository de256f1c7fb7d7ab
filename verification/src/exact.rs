//! The protocol over exact arithmetic: sums of products that obey the laws of a field.

use vstd::prelude::*;

use crate::matrix;
use crate::rng;
use crate::scalar::Ops;

verus! {

/// The cosine transform of length `n` is the product with the matrix `c`, whose square is `n/2`
/// times the identity.
pub open spec fn is_cosine_matrix(c: Seq<Seq<real>>, ops: Ops<real>, n: nat) -> bool {
    &&& matrix::is_grid(c, n, n)
    &&& forall|x: Seq<real>|
        x.len() == n ==> #[trigger] (ops.dct4)(x) == Seq::new(
            n,
            |i: int| matrix::dot(ops, c[i], x, n),
        )
    &&& forall|i: int, j: int|
        0 <= i < n && 0 <= j < n ==> 2real * #[trigger] matrix::dot(
            ops,
            c[i],
            matrix::col(c, j),
            n,
        ) == if i == j {
            n as real
        } else {
            0real
        }
}

/// The cosine transform of length `n` is the product with such a matrix.
pub open spec fn transforms_cosines(ops: Ops<real>, n: nat) -> bool {
    exists|c: Seq<Seq<real>>| #[trigger] is_cosine_matrix(c, ops, n)
}

/// `ops` computes without rounding.
pub open spec fn exact(ops: Ops<real>) -> bool {
    &&& forall|i: int| #[trigger] (ops.from_int)(i) == i as real
    &&& forall|x: real, y: real| #[trigger] (ops.add)(x, y) == x + y
    &&& forall|x: real, y: real| #[trigger] (ops.sub)(x, y) == x - y
    &&& forall|x: real, y: real| #[trigger] (ops.mul)(x, y) == x * y
    &&& forall|x: real, y: real| y != 0real ==> #[trigger] (ops.div)(x, y) == x / y
    &&& forall|x: real| #[trigger] (ops.neg)(x) == 0real - x
    &&& forall|x: real|
        x >= 0real ==> (#[trigger] (ops.sqrt)(x)) >= 0real && (ops.sqrt)(x) * (ops.sqrt)(x) == x
    &&& forall|x: real|
        x >= 0real ==> (#[trigger] (ops.pow_3_2)(x)) >= 0real && (ops.pow_3_2)(x) * (ops.pow_3_2)(x)
            == x * x * x
    &&& forall|x: real, y: real|
        #[trigger] (ops.max)(x, y) == if x >= y {
            x
        } else {
            y
        }
    &&& forall|x: real, y: real| #[trigger] (ops.le)(x, y) == (x <= y)
    &&& forall|x: real, y: real| #[trigger] (ops.lt)(x, y) == (x < y)
    &&& ops.negligible > 0real
    &&& forall|x: real, y: real, size: real, terms: nat|
        size >= 0real ==> #[trigger] (ops.close)(x, y, size, terms) == (x == y)
    &&& forall|lo: real, hi: real, s: rng::RngState|
        lo < hi ==> lo <= (#[trigger] (ops.uniform)(lo, hi, s)).0 <= hi
    &&& forall|n: nat| 1 <= n ==> #[trigger] transforms_cosines(ops, n)
}

/// The sum of the first `k` numbers.
pub open spec fn total(x: Seq<real>, k: nat) -> real
    decreases k,
{
    if k == 0 {
        0real
    } else {
        total(x, (k - 1) as nat) + x[k - 1]
    }
}

/// The inner product of the first `k` numbers of `x` and `y`.
pub open spec fn inner(x: Seq<real>, y: Seq<real>, k: nat) -> real
    decreases k,
{
    if k == 0 {
        0real
    } else {
        inner(x, y, (k - 1) as nat) + x[k - 1] * y[k - 1]
    }
}

/// Over exact arithmetic, what the library adds up of products is the inner product.
pub proof fn law_dot_is_the_inner_product(ops: Ops<real>, x: Seq<real>, y: Seq<real>, k: nat)
    requires
        exact(ops),
    ensures
        matrix::dot(ops, x, y, k) == inner(x, y, k),
    decreases k,
{
    if k > 0 {
        law_dot_is_the_inner_product(ops, x, y, (k - 1) as nat);
    }
}

pub proof fn lemma_times_assoc(x: real, y: real, z: real)
    by (nonlinear_arith)
    ensures
        (x * y) * z == x * (y * z),
{
}

pub proof fn lemma_times_comm(x: real, y: real)
    by (nonlinear_arith)
    ensures
        x * y == y * x,
{
}

proof fn lemma_times_sum(x: real, y: real, z: real)
    by (nonlinear_arith)
    ensures
        (x + y) * z == x * z + y * z,
{
}

pub proof fn lemma_quotient(x: real, y: real)
    by (nonlinear_arith)
    requires
        y != 0real,
    ensures
        (x / y) * y == x,
{
}

pub proof fn lemma_times_positive(x: real, y: real)
    by (nonlinear_arith)
    requires
        x > 0real,
        y > 0real,
    ensures
        x * y > 0real,
{
}

/// Where `u` undoes `t`, the cube of `u` undoes the cube of `t`.
pub proof fn lemma_cubes_undo(u: real, t: real)
    requires
        u * t == 1real,
    ensures
        ((u * u) * u) * ((t * t) * t) == 1real,
{
    let tt = t * t;
    lemma_times_assoc(u * u, u, tt * t);
    lemma_times_comm(tt, t);
    lemma_times_assoc(u, t, tt);
    assert(u * (t * tt) == 1real * tt);
    lemma_times_assoc(u, u, tt);
    lemma_times_assoc(u, t, t);
    assert(u * tt == 1real * t);
}

/// Where `u` undoes `t`, the square of `u` undoes the square of `t`.
pub proof fn lemma_squares_undo(u: real, t: real)
    requires
        u * t == 1real,
    ensures
        (u * u) * (t * t) == 1real,
{
    lemma_times_assoc(u, u, t * t);
    lemma_times_assoc(u, t, t);
    assert(u * (t * t) == 1real * t);
}

/// Products distribute over sums and differences, from either side.
pub proof fn lemma_distribute(x: real, y: real, z: real)
    ensures
        (x + y) * z == x * z + y * z,
        z * (x + y) == z * x + z * y,
        (x - y) * z == x * z - y * z,
        z * (x - y) == z * x - z * y,
{
    lemma_times_sum(x, y, z);
    lemma_times_comm(x + y, z);
    lemma_times_comm(x, z);
    lemma_times_comm(y, z);
    lemma_times_sum(x - y, y, z);
    lemma_times_comm(x - y, z);
    assert(x - y + y == x);
}

/// Equal entries give equal sums of products.
proof fn lemma_dot_same<T>(
    ops: Ops<T>,
    x: Seq<T>,
    y: Seq<T>,
    u: Seq<T>,
    v: Seq<T>,
    k: nat,
)
    requires
        forall|i: int| 0 <= i < k ==> #[trigger] x[i] == u[i],
        forall|i: int| 0 <= i < k ==> #[trigger] y[i] == v[i],
    ensures
        matrix::dot(ops, x, y, k) == matrix::dot(ops, u, v, k),
    decreases k,
{
    if k > 0 {
        lemma_dot_same(ops, x, y, u, v, (k - 1) as nat);
        assert(x[k - 1] == u[k - 1]);
        assert(y[k - 1] == v[k - 1]);
    }
}

/// Sums of products are linear in the left factor.
pub proof fn lemma_dot_combination(
    ops: Ops<real>,
    x: Seq<real>,
    u: Seq<real>,
    v: Seq<real>,
    a: real,
    b: real,
    y: Seq<real>,
    k: nat,
)
    requires
        exact(ops),
        forall|i: int| 0 <= i < k ==> #[trigger] x[i] == a * u[i] + b * v[i],
    ensures
        matrix::dot(ops, x, y, k) == a * matrix::dot(ops, u, y, k) + b * matrix::dot(ops, v, y, k),
    decreases k,
{
    if k > 0 {
        let p = (k - 1) as nat;
        lemma_dot_combination(ops, x, u, v, a, b, y, p);
        assert(x[k - 1] == a * u[k - 1] + b * v[k - 1]);
        let du = matrix::dot(ops, u, y, p);
        let dv = matrix::dot(ops, v, y, p);
        let (uu, vv, yy) = (u[k - 1], v[k - 1], y[k - 1]);
        lemma_distribute(a * uu, b * vv, yy);
        lemma_times_assoc(a, uu, yy);
        lemma_times_assoc(b, vv, yy);
        lemma_distribute(du, uu * yy, a);
        lemma_distribute(dv, vv * yy, b);
    } else {
        assert(a * 0real == 0real);
        assert(b * 0real == 0real);
    }
}

/// The factors of a sum of products may be swapped.
pub proof fn lemma_dot_swap(ops: Ops<real>, x: Seq<real>, y: Seq<real>, k: nat)
    requires
        exact(ops),
    ensures
        matrix::dot(ops, x, y, k) == matrix::dot(ops, y, x, k),
    decreases k,
{
    if k > 0 {
        lemma_dot_swap(ops, x, y, (k - 1) as nat);
        lemma_times_comm(x[k - 1], y[k - 1]);
    }
}

/// A sum of products with a zero factor is zero.
pub proof fn lemma_dot_zero(ops: Ops<real>, x: Seq<real>, y: Seq<real>, k: nat)
    requires
        exact(ops),
        forall|i: int| 0 <= i < k ==> #[trigger] x[i] == 0real,
    ensures
        matrix::dot(ops, x, y, k) == 0real,
    decreases k,
{
    if k > 0 {
        lemma_dot_zero(ops, x, y, (k - 1) as nat);
        assert(x[k - 1] == 0real);
    }
}

/// A sum of products with a unit vector picks one entry.
pub proof fn lemma_dot_unit(ops: Ops<real>, x: Seq<real>, y: Seq<real>, at: int, c: real, k: nat)
    requires
        exact(ops),
        0 <= at < k,
        forall|i: int|
            0 <= i < k ==> #[trigger] x[i] == if i == at {
                c
            } else {
                0real
            },
    ensures
        matrix::dot(ops, x, y, k) == c * y[at],
    decreases k,
{
    let p = (k - 1) as nat;
    assert(x[p as int] == if p == at {
        c
    } else {
        0real
    });
    if p == at {
        lemma_dot_zero(ops, x, y, p);
    } else {
        lemma_dot_unit(ops, x, y, at, c, p);
    }
}

/// `x·(b·y)` with `b` given by its first `n` rows equals `(x·b)·y`: the order of summation
/// does not matter.
pub proof fn lemma_dot_exchange(
    ops: Ops<real>,
    x: Seq<real>,
    b: Seq<Seq<real>>,
    y: Seq<real>,
    by: Seq<real>,
    xb: Seq<real>,
    n: nat,
    k: nat,
)
    requires
        exact(ops),
        forall|i: int| 0 <= i < n ==> #[trigger] by[i] == matrix::dot(ops, b[i], y, k),
        forall|j: int| 0 <= j < k ==> #[trigger] xb[j] == matrix::dot(ops, x, matrix::col(b, j), n),
        n <= b.len(),
    ensures
        matrix::dot(ops, x, by, n) == matrix::dot(ops, xb, y, k),
    decreases n,
{
    if n == 0 {
        assert forall|j: int| 0 <= j < k implies #[trigger] xb[j] == 0real by {}
        lemma_dot_zero(ops, xb, y, k);
    } else {
        let p = (n - 1) as nat;
        let less = Seq::new(k, |j: int| matrix::dot(ops, x, matrix::col(b, j), p));
        lemma_dot_exchange(ops, x, b, y, by, less, p, k);
        assert forall|j: int| 0 <= j < k implies #[trigger] xb[j] == 1real * less[j] + x[p as int]
            * b[p as int][j] by {
            assert(xb[j] == matrix::dot(ops, x, matrix::col(b, j), n));
            assert(less[j] == matrix::dot(ops, x, matrix::col(b, j), p));
        }
        lemma_dot_combination(ops, xb, less, b[p as int], 1real, x[p as int], y, k);
        assert(by[p as int] == matrix::dot(ops, b[p as int], y, k));
    }
}

/// Matrix products may be regrouped.
pub proof fn lemma_product_regroups(
    ops: Ops<real>,
    a: Seq<Seq<real>>,
    b: Seq<Seq<real>>,
    c: Seq<Seq<real>>,
    cols: nat,
)
    requires
        exact(ops),
    ensures
        matrix::product(ops, matrix::product(ops, a, b, c.len()), c, cols) == matrix::product(
            ops,
            a,
            matrix::product(ops, b, c, cols),
            cols,
        ),
{
    let ab = matrix::product(ops, a, b, c.len());
    let bc = matrix::product(ops, b, c, cols);
    let left = matrix::product(ops, ab, c, cols);
    let right = matrix::product(ops, a, bc, cols);
    assert forall|i: int| 0 <= i < a.len() implies #[trigger] left[i] == right[i] by {
        assert forall|j: int| 0 <= j < cols implies #[trigger] left[i][j] == right[i][j] by {
            let y = matrix::col(c, j);
            lemma_dot_exchange(ops, a[i], b, y, matrix::col(bc, j), ab[i], b.len(), c.len());
        }
        assert(left[i] =~= right[i]);
    }
    assert(left =~= right);
}

/// A multiple of the identity scales.
pub proof fn lemma_product_scales(
    ops: Ops<real>,
    a: Seq<Seq<real>>,
    m: Seq<Seq<real>>,
    n: nat,
    d: nat,
    t: real,
)
    requires
        exact(ops),
        matrix::is_grid(a, n, n),
        matrix::is_grid(m, n, d),
        forall|i: int, j: int|
            0 <= i < n && 0 <= j < n ==> #[trigger] a[i][j] == if i == j {
                t
            } else {
                0real
            },
    ensures
        matrix::product(ops, a, m, d) == matrix::scaled(ops, m, t),
{
    let p = matrix::product(ops, a, m, d);
    let u = matrix::scaled(ops, m, t);
    assert forall|i: int| 0 <= i < n implies #[trigger] p[i] == u[i] by {
        assert(m[i].len() == d);
        assert forall|j: int| 0 <= j < d implies #[trigger] p[i][j] == u[i][j] by {
            assert forall|k: int| 0 <= k < n implies #[trigger] a[i][k] == if k == i {
                t
            } else {
                0real
            } by {}
            lemma_dot_unit(ops, a[i], matrix::col(m, j), i, t, n);
            lemma_times_comm(t, m[i][j]);
        }
        assert(p[i] =~= u[i]);
    }
    assert(p =~= u);
}

/// A factor may be taken out of the right operand of a product.
pub proof fn lemma_product_of_scaled(
    ops: Ops<real>,
    a: Seq<Seq<real>>,
    m: Seq<Seq<real>>,
    n: nat,
    d: nat,
    c: real,
)
    requires
        exact(ops),
        matrix::is_grid(m, n, d),
    ensures
        matrix::product(ops, a, matrix::scaled(ops, m, c), d) == matrix::scaled(
            ops,
            matrix::product(ops, a, m, d),
            c,
        ),
{
    let sm = matrix::scaled(ops, m, c);
    let p = matrix::product(ops, a, sm, d);
    let u = matrix::scaled(ops, matrix::product(ops, a, m, d), c);
    assert forall|i: int| 0 <= i < a.len() implies #[trigger] p[i] == u[i] by {
        assert forall|j: int| 0 <= j < d implies #[trigger] p[i][j] == u[i][j] by {
            let x = matrix::col(sm, j);
            let y = matrix::col(m, j);
            assert forall|k: int| 0 <= k < n implies #[trigger] x[k] == c * y[k] + 0real * y[k] by {
                assert(m[k].len() == d);
                lemma_times_comm(c, y[k]);
            }
            lemma_dot_combination(ops, x, y, y, c, 0real, a[i], n);
            lemma_dot_swap(ops, x, a[i], n);
            lemma_dot_swap(ops, y, a[i], n);
            lemma_times_comm(c, matrix::dot(ops, a[i], y, n));
        }
        assert(p[i] =~= u[i]);
    }
    assert(p =~= u);
}

} // verus!
