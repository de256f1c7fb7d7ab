//! Over exact arithmetic the sampled dense mask is orthogonal: the orthogonal factor of a
//! Gaussian matrix, with the signs that make the triangular factor's diagonal non-negative.

use vstd::prelude::*;

use crate::exact;
use crate::gaussian;
use crate::haar;
use crate::matrix;
use crate::rng;
use crate::scalar::Ops;

verus! {

/// The columns of `q` are orthonormal.
pub open spec fn is_orthogonal(ops: Ops<real>, q: Seq<Seq<real>>, n: nat) -> bool {
    &&& matrix::is_grid(q, n, n)
    &&& forall|i: int, j: int|
        0 <= i < n && 0 <= j < n ==> #[trigger] matrix::dot(
            ops,
            matrix::col(q, i),
            matrix::col(q, j),
            n,
        ) == if i == j {
            1real
        } else {
            0real
        }
}

/// The reflection vector with zeros above row `k`.
spec fn raised(v: Seq<real>, k: int, n: nat) -> Seq<real> {
    Seq::new(
        n,
        |l: int|
            if l < k {
                0real
            } else {
                v[l - k]
            },
    )
}

/// Leading zeros may be left out of a sum of products.
proof fn lemma_dot_raised(ops: Ops<real>, x: Seq<real>, v: Seq<real>, k: int, n: nat, to: nat)
    requires
        exact::exact(ops),
        0 <= k <= to <= n,
        x.len() == n,
        v.len() == n - k,
    ensures
        matrix::dot(ops, x, raised(v, k, n), to) == matrix::dot(
            ops,
            x.skip(k),
            v,
            (to - k) as nat,
        ),
    decreases to,
{
    let h = raised(v, k, n);
    if to == k {
        exact::lemma_dot_swap(ops, x, h, to);
        exact::lemma_dot_zero(ops, h, x, to);
    } else {
        lemma_dot_raised(ops, x, v, k, n, (to - 1) as nat);
        assert(x.skip(k)[to - k - 1] == x[to - 1]);
    }
}

/// Reflecting the columns of an orthogonal matrix at a unit vector keeps it orthogonal.
proof fn lemma_reflection_keeps(ops: Ops<real>, q: Seq<Seq<real>>, k: int, v: Seq<real>, n: nat)
    requires
        exact::exact(ops),
        is_orthogonal(ops, q, n),
        0 <= k <= n,
        v.len() == n - k,
        matrix::dot(ops, v, v, v.len()) == 1real,
    ensures
        is_orthogonal(ops, haar::reflected_cols(ops, q, k, v), n),
{
    let h = raised(v, k, n);
    let p = haar::reflected_cols(ops, q, k, v);
    let y = Seq::new(n, |r: int| matrix::dot(ops, q[r], h, n));
    assert(matrix::is_grid(p, n, n)) by {
        assert forall|r: int| 0 <= r < n implies #[trigger] p[r].len() == n by {
            assert(q[r].len() == n);
        }
    }
    // The reflected entry, with the vector raised to full length.
    assert forall|r: int, j: int| 0 <= r < n && 0 <= j < n implies #[trigger] p[r][j] == q[r][j] - (
    2real * y[r]) * h[j] by {
        assert(q[r].len() == n);
        lemma_dot_raised(ops, q[r], v, k, n, n);
    }
    // Columns of `q` meet `y` in the entries of the vector, and `y` is a unit vector too.
    assert forall|i: int| 0 <= i < n implies #[trigger] matrix::dot(ops, matrix::col(q, i), y, n)
        == h[i] by {
        let unit = Seq::new(
            n,
            |l: int| matrix::dot(ops, matrix::col(q, i), matrix::col(q, l), n),
        );
        exact::lemma_dot_exchange(ops, matrix::col(q, i), q, h, y, unit, n, n);
        assert forall|l: int| 0 <= l < n implies #[trigger] unit[l] == if l == i {
            1real
        } else {
            0real
        } by {
            assert(matrix::dot(ops, matrix::col(q, i), matrix::col(q, l), n) == if i == l {
                1real
            } else {
                0real
            });
        }
        exact::lemma_dot_unit(ops, unit, h, i, 1real, n);
    }
    assert(matrix::dot(ops, y, y, n) == 1real) by {
        assert forall|l: int| 0 <= l < n implies #[trigger] h[l] == matrix::dot(
            ops,
            y,
            matrix::col(q, l),
            n,
        ) by {
            exact::lemma_dot_swap(ops, y, matrix::col(q, l), n);
            assert(matrix::dot(ops, matrix::col(q, l), y, n) == h[l]);
        }
        exact::lemma_dot_exchange(ops, y, q, h, y, h, n, n);
        lemma_dot_raised(ops, h, v, k, n, n);
        assert(h.skip(k) =~= v);
    }
    assert forall|i: int, j: int| 0 <= i < n && 0 <= j < n implies #[trigger] matrix::dot(
        ops,
        matrix::col(p, i),
        matrix::col(p, j),
        n,
    ) == if i == j {
        1real
    } else {
        0real
    } by {
        let (qi, qj, pi, pj) = (
            matrix::col(q, i),
            matrix::col(q, j),
            matrix::col(p, i),
            matrix::col(p, j),
        );
        let (a, b) = (0real - 2real * h[i], 0real - 2real * h[j]);
        assert forall|r: int| 0 <= r < n implies #[trigger] pi[r] == 1real * qi[r] + a * y[r] by {
            lemma_pull(y[r], h[i]);
            exact::lemma_distribute(0real, 2real * h[i], y[r]);
            assert(p[r][i] == q[r][i] - (2real * y[r]) * h[i]);
        }
        assert forall|r: int| 0 <= r < n implies #[trigger] pj[r] == 1real * qj[r] + b * y[r] by {
            lemma_pull(y[r], h[j]);
            exact::lemma_distribute(0real, 2real * h[j], y[r]);
            assert(p[r][j] == q[r][j] - (2real * y[r]) * h[j]);
        }
        exact::lemma_dot_combination(ops, pi, qi, y, 1real, a, pj, n);
        exact::lemma_dot_swap(ops, qi, pj, n);
        exact::lemma_dot_swap(ops, y, pj, n);
        exact::lemma_dot_combination(ops, pj, qj, y, 1real, b, qi, n);
        exact::lemma_dot_combination(ops, pj, qj, y, 1real, b, y, n);
        exact::lemma_dot_swap(ops, y, qi, n);
        exact::lemma_dot_swap(ops, qj, qi, n);
        assert(matrix::dot(ops, qi, qj, n) == if i == j {
            1real
        } else {
            0real
        });
        assert(matrix::dot(ops, qi, y, n) == h[i]);
        assert(matrix::dot(ops, qj, y, n) == h[j]);
        lemma_cross_terms(h[i], h[j]);
    }
}

proof fn lemma_pull(y: real, h: real)
    ensures
        (2real * y) * h == (2real * h) * y,
{
    exact::lemma_times_assoc(2real, y, h);
    exact::lemma_times_comm(y, h);
    exact::lemma_times_assoc(2real, h, y);
}

/// The cross terms of two reflected columns cancel.
proof fn lemma_cross_terms(x: real, y: real)
    ensures
        (0real - 2real * y) * x + (0real - 2real * x) * (y + (0real - 2real * y)) == 0real,
{
    exact::lemma_distribute(0real, 2real * y, x);
    exact::lemma_times_assoc(2real, y, x);
    assert(y + (0real - 2real * y) == 0real - y);
    exact::lemma_distribute(0real, 2real * x, 0real - y);
    exact::lemma_distribute(0real, y, 2real * x);
    exact::lemma_times_assoc(2real, x, y);
    exact::lemma_times_comm(x, y);
}

/// The reflection vector before it is normalised.
spec fn unscaled(ops: Ops<real>, a: Seq<Seq<real>>, k: int) -> Seq<real> {
    Seq::new(
        (a.len() - k) as nat,
        |t: int|
            if t == 0 {
                haar::lead(ops, a, k)
            } else {
                a[k + t][k]
            },
    )
}

/// The squares that are added up for the norm are those of the unscaled vector.
proof fn lemma_squares(ops: Ops<real>, a: Seq<Seq<real>>, k: int, to: int)
    requires
        exact::exact(ops),
        0 <= k,
        k + 1 <= to <= a.len(),
    ensures
        haar::plus_squares(
            ops,
            (ops.mul)(haar::lead(ops, a, k), haar::lead(ops, a, k)),
            a,
            k,
            k + 1,
            to,
        ) == matrix::dot(ops, unscaled(ops, a, k), unscaled(ops, a, k), (to - k) as nat),
    decreases to,
{
    let w = unscaled(ops, a, k);
    if to == k + 1 {
        assert(matrix::dot(ops, w, w, 0) == 0real);
        assert(w[0] == haar::lead(ops, a, k));
        assert((to - k) as nat == 1);
    } else {
        lemma_squares(ops, a, k, to - 1);
        assert(w[to - k - 1] == a[to - 1][k]);
    }
}

/// A sum of squares is not negative.
proof fn lemma_squares_not_negative(ops: Ops<real>, x: Seq<real>, k: nat)
    requires
        exact::exact(ops),
    ensures
        matrix::dot(ops, x, x, k) >= 0real,
    decreases k,
{
    if k > 0 {
        lemma_squares_not_negative(ops, x, (k - 1) as nat);
        lemma_square(x[k - 1]);
    }
}

proof fn lemma_square(x: real)
    ensures
        x * x >= 0real,
{
    if x > 0real {
        exact::lemma_times_positive(x, x);
    } else if x < 0real {
        exact::lemma_times_positive(0real - x, 0real - x);
        exact::lemma_distribute(0real, x, 0real - x);
        exact::lemma_distribute(0real, x, x);
    }
}

/// A factor other than zero may be cancelled.
proof fn lemma_cancel(x: real, y: real)
    requires
        x != 0real,
        x * y == x,
    ensures
        y == 1real,
{
    let u = 1real / x;
    exact::lemma_quotient(1real, x);
    exact::lemma_times_assoc(u, x, y);
    assert(u * (x * y) == 1real * y);
}

/// The reflection vector of a column that is not skipped is a unit vector.
proof fn lemma_unit_vector(ops: Ops<real>, a: Seq<Seq<real>>, k: int)
    requires
        exact::exact(ops),
        0 <= k < a.len(),
        !haar::skipped(ops, a, k),
    ensures
        ({
            let v = haar::reflection_vector(ops, a, k);
            matrix::dot(ops, v, v, v.len()) == 1real
        }),
{
    let n = a.len() as int;
    let m = (n - k) as nat;
    let v = haar::reflection_vector(ops, a, k);
    let w = unscaled(ops, a, k);
    let size = haar::vector_norm(ops, a, k);
    lemma_squares(ops, a, k, n);
    lemma_squares_not_negative(ops, w, m);
    let total = matrix::dot(ops, w, w, m);
    assert(size * size == total);
    assert(size > 0real);
    exact::lemma_times_positive(size, size);
    assert forall|t: int| 0 <= t < m implies #[trigger] w[t] == size * v[t] + 0real * v[t] by {
        exact::lemma_quotient(w[t], size);
        exact::lemma_times_comm(size, v[t]);
    }
    exact::lemma_dot_combination(ops, w, v, v, size, 0real, w, m);
    exact::lemma_dot_swap(ops, v, w, m);
    exact::lemma_dot_combination(ops, w, v, v, size, 0real, v, m);
    let one = matrix::dot(ops, v, v, m);
    exact::lemma_times_assoc(size, size, one);
    lemma_cancel(size * size, one);
}

/// The orthogonal factor stays orthogonal through all reflections.
proof fn lemma_factors_orthogonal(
    ops: Ops<real>,
    a: Seq<Seq<real>>,
    q: Seq<Seq<real>>,
    k: nat,
    n: nat,
)
    requires
        exact::exact(ops),
        a.len() == n,
        is_orthogonal(ops, q, n),
    ensures
        is_orthogonal(ops, haar::factors_from(ops, a, q, k).1, n),
    decreases n - k,
{
    if k + 1 < n {
        if haar::skipped(ops, a, k as int) {
            lemma_factors_orthogonal(ops, a, q, k + 1, n);
        } else {
            let v = haar::reflection_vector(ops, a, k as int);
            lemma_unit_vector(ops, a, k as int);
            lemma_reflection_keeps(ops, q, k as int, v, n);
            lemma_factors_orthogonal(
                ops,
                haar::reflected_rows(ops, a, k as int, v),
                haar::reflected_cols(ops, q, k as int, v),
                k + 1,
                n,
            );
        }
    }
}

/// The identity is orthogonal.
proof fn lemma_identity_orthogonal(ops: Ops<real>, n: nat)
    requires
        exact::exact(ops),
    ensures
        is_orthogonal(ops, haar::identity(ops, n), n),
{
    let q = haar::identity(ops, n);
    assert forall|i: int, j: int| 0 <= i < n && 0 <= j < n implies #[trigger] matrix::dot(
        ops,
        matrix::col(q, i),
        matrix::col(q, j),
        n,
    ) == if i == j {
        1real
    } else {
        0real
    } by {
        exact::lemma_dot_unit(ops, matrix::col(q, i), matrix::col(q, j), i, 1real, n);
    }
}

/// Negating columns keeps a matrix orthogonal.
proof fn lemma_signs_orthogonal(ops: Ops<real>, a: Seq<Seq<real>>, q: Seq<Seq<real>>, n: nat)
    requires
        exact::exact(ops),
        is_orthogonal(ops, q, n),
    ensures
        is_orthogonal(ops, haar::sign_corrected(ops, a, q), n),
{
    let p = haar::sign_corrected(ops, a, q);
    assert(matrix::is_grid(p, n, n)) by {
        assert forall|r: int| 0 <= r < n implies #[trigger] p[r].len() == n by {
            assert(q[r].len() == n);
        }
    }
    assert forall|i: int, j: int| 0 <= i < n && 0 <= j < n implies #[trigger] matrix::dot(
        ops,
        matrix::col(p, i),
        matrix::col(p, j),
        n,
    ) == if i == j {
        1real
    } else {
        0real
    } by {
        let (qi, qj, pi, pj) = (
            matrix::col(q, i),
            matrix::col(q, j),
            matrix::col(p, i),
            matrix::col(p, j),
        );
        let x = if a[i][i] < 0real {
            0real - 1real
        } else {
            1real
        };
        let y = if a[j][j] < 0real {
            0real - 1real
        } else {
            1real
        };
        assert forall|r: int| 0 <= r < n implies #[trigger] pi[r] == x * qi[r] + 0real * qi[r] by {
            assert(q[r].len() == n);
        }
        assert forall|r: int| 0 <= r < n implies #[trigger] pj[r] == y * qj[r] + 0real * qj[r] by {
            assert(q[r].len() == n);
        }
        exact::lemma_dot_combination(ops, pi, qi, qi, x, 0real, pj, n);
        exact::lemma_dot_swap(ops, qi, pj, n);
        exact::lemma_dot_combination(ops, pj, qj, qj, y, 0real, qi, n);
        exact::lemma_dot_swap(ops, qj, qi, n);
        assert(matrix::dot(ops, qi, qj, n) == if i == j {
            1real
        } else {
            0real
        });
    }
}

/// The orthogonal factor of a square matrix is orthogonal.
pub proof fn law_factor_is_orthogonal(ops: Ops<real>, g: Seq<Seq<real>>)
    requires
        exact::exact(ops),
    ensures
        is_orthogonal(ops, haar::orthogonal_factor(ops, g), g.len()),
{
    let n = g.len();
    lemma_identity_orthogonal(ops, n);
    lemma_factors_orthogonal(ops, g, haar::identity(ops, n), 0, n);
    let f = haar::factors_from(ops, g, haar::identity(ops, n), 0);
    lemma_signs_orthogonal(ops, f.0, f.1, n);
}

/// The product of the transpose of `q` with `g`.
pub open spec fn turned(ops: Ops<real>, q: Seq<Seq<real>>, g: Seq<Seq<real>>) -> Seq<Seq<real>> {
    matrix::product(ops, matrix::transpose(q, g.len()), g, g.len())
}

/// The entries from row `j` down, under zeros.
pub open spec fn tail_of(x: Seq<real>, j: int) -> Seq<real> {
    Seq::new(
        x.len(),
        |i: int|
            if i < j {
                0real
            } else {
                x[i]
            },
    )
}

/// Column `j` is zero below the diagonal.
pub open spec fn is_cleared(r: Seq<Seq<real>>, j: int) -> bool {
    forall|i: int| j < i < r.len() ==> #[trigger] r[i][j] == 0real
}

/// Column `j`, from the diagonal down, is shorter than what counts as a norm.
pub open spec fn is_faint(ops: Ops<real>, r: Seq<Seq<real>>, j: int) -> bool {
    let x = tail_of(matrix::col(r, j), j);
    matrix::dot(ops, x, x, r.len()) < ops.negligible * ops.negligible
}

/// A reflection of the columns of `q` reflects what is turned by it.
proof fn lemma_turned_reflects(
    ops: Ops<real>,
    q: Seq<Seq<real>>,
    g: Seq<Seq<real>>,
    k: int,
    v: Seq<real>,
    n: nat,
    i: int,
    j: int,
)
    requires
        exact::exact(ops),
        matrix::is_grid(q, n, n),
        matrix::is_grid(g, n, n),
        0 <= k <= n,
        v.len() == n - k,
        0 <= i < n,
        0 <= j < n,
    ensures
        ({
            let h = raised(v, k, n);
            let r = turned(ops, q, g);
            turned(ops, haar::reflected_cols(ops, q, k, v), g)[i][j] == r[i][j] - (2real * h[i])
                * matrix::dot(ops, h, matrix::col(r, j), n)
        }),
{
    let h = raised(v, k, n);
    let r = turned(ops, q, g);
    let p = haar::reflected_cols(ops, q, k, v);
    let gj = matrix::col(g, j);
    let y = Seq::new(n, |l: int| matrix::dot(ops, q[l], h, n));
    let (qi, pi) = (matrix::col(q, i), matrix::col(p, i));
    let b = 0real - 2real * h[i];
    assert forall|l: int| 0 <= l < n implies #[trigger] pi[l] == 1real * qi[l] + b * y[l] by {
        assert(q[l].len() == n);
        lemma_dot_raised(ops, q[l], v, k, n, n);
        lemma_pull(y[l], h[i]);
        exact::lemma_distribute(0real, 2real * h[i], y[l]);
        assert(p[l][i] == q[l][i] - (2real * y[l]) * h[i]);
    }
    exact::lemma_dot_combination(ops, pi, qi, y, 1real, b, gj, n);
    let outer = matrix::col(r, j);
    assert forall|l: int| 0 <= l < n implies #[trigger] outer[l] == matrix::dot(
        ops,
        gj,
        matrix::col(q, l),
        n,
    ) by {
        exact::lemma_dot_swap(ops, gj, matrix::col(q, l), n);
    }
    exact::lemma_dot_exchange(ops, gj, q, h, y, outer, n, n);
    exact::lemma_dot_swap(ops, y, gj, n);
    exact::lemma_dot_swap(ops, outer, h, n);
    let c = matrix::dot(ops, h, outer, n);
    assert(matrix::dot(ops, y, gj, n) == c);
    exact::lemma_distribute(0real, 2real * h[i], c);
    assert(0real * c == 0real);
}

/// The squares of a column from the diagonal down add up to the square of its norm.
proof fn lemma_column_squares(ops: Ops<real>, a: Seq<Seq<real>>, k: int, to: int)
    requires
        exact::exact(ops),
        0 <= k <= to <= a.len(),
    ensures
        haar::plus_squares(ops, ops.zero(), a, k, k, to) == matrix::dot(
            ops,
            haar::col_from(a, k, k),
            haar::col_from(a, k, k),
            (to - k) as nat,
        ),
        haar::plus_squares(ops, ops.zero(), a, k, k, to) == matrix::dot(
            ops,
            tail_of(matrix::col(a, k), k),
            tail_of(matrix::col(a, k), k),
            to as nat,
        ),
    decreases to,
{
    let x = haar::col_from(a, k, k);
    let t = tail_of(matrix::col(a, k), k);
    if to == k {
        exact::lemma_dot_zero(ops, t, t, to as nat);
    } else {
        lemma_column_squares(ops, a, k, to - 1);
        assert(x[to - k - 1] == a[to - 1][k]);
        assert(t[to - 1] == a[to - 1][k]);
    }
}

/// The norm of a column squares to the sum of its squares, and so does the head that the
/// reflection leaves.
proof fn lemma_head_squares(ops: Ops<real>, a: Seq<Seq<real>>, k: int)
    requires
        exact::exact(ops),
        0 <= k < a.len(),
    ensures
        ({
            let x = haar::col_from(a, k, k);
            let norm = haar::column_norm(ops, a, k);
            let head = haar::reflected_head(ops, a, k);
            &&& norm >= 0real
            &&& norm * norm == matrix::dot(ops, x, x, x.len())
            &&& head * head == matrix::dot(ops, x, x, x.len())
        }),
{
    let n = a.len() as int;
    let x = haar::col_from(a, k, k);
    lemma_column_squares(ops, a, k, n);
    lemma_squares_not_negative(ops, x, (n - k) as nat);
    let c = haar::column_norm(ops, a, k);
    exact::lemma_distribute(0real, c, 0real - c);
    exact::lemma_distribute(0real, c, c);
    assert(0real * c == 0real);
    assert(0real * (0real - c) == 0real);
}

/// Twice the inner product of a column with its reflection vector is the vector's norm.
proof fn lemma_halfway(ops: Ops<real>, a: Seq<Seq<real>>, k: int)
    requires
        exact::exact(ops),
        0 <= k < a.len(),
        !haar::skipped(ops, a, k),
    ensures
        ({
            let v = haar::reflection_vector(ops, a, k);
            let x = haar::col_from(a, k, k);
            2real * matrix::dot(ops, v, x, v.len()) == haar::vector_norm(ops, a, k)
        }),
{
    let n = a.len() as int;
    let m = (n - k) as nat;
    let v = haar::reflection_vector(ops, a, k);
    let w = unscaled(ops, a, k);
    let x = haar::col_from(a, k, k);
    let e = Seq::new(
        m,
        |t: int|
            if t == 0 {
                1real
            } else {
                0real
            },
    );
    let size = haar::vector_norm(ops, a, k);
    let alpha = haar::reflected_head(ops, a, k);
    let minus = 0real - alpha;
    lemma_squares(ops, a, k, n);
    lemma_squares_not_negative(ops, w, m);
    lemma_head_squares(ops, a, k);
    assert(size * size == matrix::dot(ops, w, w, m));
    assert(size > 0real);
    assert forall|t: int| 0 <= t < m implies #[trigger] w[t] == 1real * x[t] + minus * e[t] by {
        assert(minus * 1real == minus);
        assert(minus * 0real == 0real);
    }
    exact::lemma_dot_combination(ops, w, x, e, 1real, minus, x, m);
    exact::lemma_dot_combination(ops, w, x, e, 1real, minus, w, m);
    exact::lemma_dot_unit(ops, e, x, 0, 1real, m);
    exact::lemma_dot_unit(ops, e, w, 0, 1real, m);
    exact::lemma_dot_swap(ops, x, w, m);
    let meet = matrix::dot(ops, w, x, m);
    // The head of the vector makes both halves equal.
    assert(w[0] == x[0] - alpha);
    exact::lemma_distribute(x[0], alpha, minus);
    exact::lemma_distribute(0real, alpha, alpha);
    exact::lemma_times_comm(alpha, minus);
    assert(0real * alpha == 0real);
    assert(meet == minus * w[0]);
    assert(size * size == meet + meet);
    assert forall|t: int| 0 <= t < m implies #[trigger] w[t] == size * v[t] + 0real * v[t] by {
        exact::lemma_quotient(w[t], size);
        exact::lemma_times_comm(size, v[t]);
    }
    exact::lemma_dot_combination(ops, w, v, v, size, 0real, x, m);
    let c = matrix::dot(ops, v, x, m);
    assert(meet == size * c);
    exact::lemma_distribute(c, c, size);
    assert(size * size == size * (c + c));
    let u = 1real / size;
    exact::lemma_quotient(1real, size);
    exact::lemma_times_assoc(u, size, size);
    exact::lemma_times_assoc(u, size, c + c);
}

/// The reflection of a column that is not skipped clears it below the diagonal.
proof fn lemma_reflection_clears(ops: Ops<real>, a: Seq<Seq<real>>, k: int, n: nat)
    requires
        exact::exact(ops),
        matrix::is_grid(a, n, n),
        0 <= k < n,
        !haar::skipped(ops, a, k),
    ensures
        is_cleared(
            haar::reflected_rows(ops, a, k, haar::reflection_vector(ops, a, k)),
            k,
        ),
{
    let v = haar::reflection_vector(ops, a, k);
    let w = unscaled(ops, a, k);
    let x = haar::col_from(a, k, k);
    let p = haar::reflected_rows(ops, a, k, v);
    let size = haar::vector_norm(ops, a, k);
    let c = matrix::dot(ops, v, x, v.len());
    lemma_halfway(ops, a, k);
    assert(size != 0real);
    assert forall|i: int| k < i < p.len() implies #[trigger] p[i][k] == 0real by {
        let t = i - k;
        assert(a[i].len() == n);
        assert(p[i][k] == a[i][k] - (2real * v[t]) * c);
        lemma_pull(v[t], c);
        exact::lemma_quotient(w[t], size);
        exact::lemma_times_comm(size, v[t]);
        assert(w[t] == a[i][k]);
    }
}

/// A column that is skipped is faint.
proof fn lemma_skipped_is_faint(ops: Ops<real>, a: Seq<Seq<real>>, k: int, n: nat)
    requires
        exact::exact(ops),
        matrix::is_grid(a, n, n),
        0 <= k < n,
        haar::skipped(ops, a, k),
    ensures
        is_faint(ops, a, k),
{
    let norm = haar::column_norm(ops, a, k);
    let size = haar::vector_norm(ops, a, k);
    let least = ops.negligible;
    lemma_head_squares(ops, a, k);
    lemma_column_squares(ops, a, k, n as int);
    let x = haar::col_from(a, k, k);
    let w = unscaled(ops, a, k);
    let m = (n - k) as nat;
    let alpha = haar::reflected_head(ops, a, k);
    let head = a[k][k];
    let far = haar::lead(ops, a, k);
    lemma_squares(ops, a, k, n as int);
    lemma_squares_not_negative(ops, w, m);
    lemma_shared_rest(ops, x, w, m);
    // The head of the vector is at least as long as that of the column.
    assert(far * far >= head * head) by {
        if head >= 0real {
            assert(far == head + norm);
            lemma_square_grows(head, far);
        } else {
            assert(far == head - norm);
            lemma_square_grows(0real - head, 0real - far);
            lemma_square_of_negative(head);
            lemma_square_of_negative(far);
        }
    }
    assert(x[0] == head && w[0] == far);
    assert(norm * norm <= size * size);
    if !(norm < least) {
        assert(size < least);
        assert(size < norm);
        assert(size >= 0real);
        lemma_square_grows_strictly(size, norm);
    } else {
        lemma_square_grows_strictly(norm, least);
    }
}

/// Two sequences that differ in the head alone: their sums of squares differ by its squares.
proof fn lemma_shared_rest(ops: Ops<real>, x: Seq<real>, w: Seq<real>, m: nat)
    requires
        exact::exact(ops),
        m >= 1,
        forall|t: int| 1 <= t < m ==> #[trigger] x[t] == w[t],
    ensures
        matrix::dot(ops, w, w, m) - w[0] * w[0] == matrix::dot(ops, x, x, m) - x[0] * x[0],
    decreases m,
{
    if m == 1 {
        assert(matrix::dot(ops, w, w, 0) == 0real);
        assert(matrix::dot(ops, x, x, 0) == 0real);
    } else {
        lemma_shared_rest(ops, x, w, (m - 1) as nat);
        assert(x[m - 1] == w[m - 1]);
    }
}

proof fn lemma_square_of_negative(x: real)
    ensures
        (0real - x) * (0real - x) == x * x,
{
    exact::lemma_distribute(0real, x, 0real - x);
    exact::lemma_distribute(0real, x, x);
    assert(0real * x == 0real);
    assert(0real * (0real - x) == 0real);
}

/// Squares of numbers that are not negative grow with them.
proof fn lemma_square_grows_strictly(x: real, y: real)
    requires
        0real <= x < y,
    ensures
        x * x < y * y,
{
    let d = y - x;
    exact::lemma_times_positive(d, y);
    exact::lemma_distribute(y, x, y);
    exact::lemma_distribute(y, x, x);
    exact::lemma_times_comm(x, y);
    if x > 0real {
        exact::lemma_times_positive(d, x);
    } else {
        assert(d * 0real == 0real);
    }
}

proof fn lemma_square_grows(x: real, y: real)
    requires
        0real <= x <= y,
    ensures
        x * x <= y * y,
{
    if x < y {
        lemma_square_grows_strictly(x, y);
    }
}

/// A reflection leaves the length of a column's tail as it is.
proof fn lemma_reflection_keeps_length(
    ops: Ops<real>,
    x: Seq<real>,
    z: Seq<real>,
    h: Seq<real>,
    c: real,
    n: nat,
)
    requires
        exact::exact(ops),
        c == matrix::dot(ops, h, x, n),
        matrix::dot(ops, h, h, n) == 1real,
        forall|i: int| 0 <= i < n ==> #[trigger] z[i] == x[i] - (2real * h[i]) * c,
    ensures
        matrix::dot(ops, z, z, n) == matrix::dot(ops, x, x, n),
{
    let b = 0real - 2real * c;
    assert forall|i: int| 0 <= i < n implies #[trigger] z[i] == 1real * x[i] + b * h[i] by {
        lemma_pull(h[i], c);
        exact::lemma_distribute(0real, 2real * c, h[i]);
        assert(0real * h[i] == 0real);
        assert(z[i] == x[i] - (2real * h[i]) * c);
    }
    exact::lemma_dot_combination(ops, z, x, h, 1real, b, z, n);
    exact::lemma_dot_swap(ops, x, z, n);
    exact::lemma_dot_swap(ops, h, z, n);
    exact::lemma_dot_combination(ops, z, x, h, 1real, b, x, n);
    exact::lemma_dot_combination(ops, z, x, h, 1real, b, h, n);
    exact::lemma_dot_swap(ops, x, h, n);
    // dot(z, z) = dot(x, x) + b*c + b*(c + b), and c + b == -c.
    assert(c + b == 0real - c);
    exact::lemma_distribute(0real, c, b);
    assert(b * 0real == 0real);
}

/// The columns before `k` are cleared or faint, those from `k` on stand in `a`, and so does the
/// whole diagonal.
spec fn is_reduced(
    ops: Ops<real>,
    g: Seq<Seq<real>>,
    a: Seq<Seq<real>>,
    q: Seq<Seq<real>>,
    k: int,
    n: nat,
) -> bool {
    let r = turned(ops, q, g);
    &&& matrix::is_grid(g, n, n)
    &&& matrix::is_grid(a, n, n)
    &&& matrix::is_grid(q, n, n)
    &&& forall|i: int, j: int|
        0 <= i < n && k <= j < n ==> #[trigger] r[i][j] == a[i][j]
    &&& forall|j: int| 0 <= j < k && j < n ==> #[trigger] r[j][j] == a[j][j]
    &&& forall|j: int|
        0 <= j < k && j < n ==> is_cleared(r, j) || #[trigger] is_faint(ops, r, j)
}

/// A step without a reflection.
proof fn lemma_skip_reduces(
    ops: Ops<real>,
    g: Seq<Seq<real>>,
    a: Seq<Seq<real>>,
    q: Seq<Seq<real>>,
    k: int,
    n: nat,
)
    requires
        exact::exact(ops),
        0 <= k < n,
        is_reduced(ops, g, a, q, k, n),
        haar::skipped(ops, a, k),
    ensures
        is_reduced(ops, g, a, q, k + 1, n),
{
    let r = turned(ops, q, g);
    lemma_skipped_is_faint(ops, a, k, n);
    assert(matrix::col(r, k) =~= matrix::col(a, k)) by {
        assert forall|i: int| 0 <= i < n implies #[trigger] matrix::col(r, k)[i] == matrix::col(
            a,
            k,
        )[i] by {
            assert(r[i][k] == a[i][k]);
        }
    }
    assert(is_faint(ops, r, k));
    assert(r[k][k] == a[k][k]);
}

/// A step with a reflection.
proof fn lemma_reflection_reduces(
    ops: Ops<real>,
    g: Seq<Seq<real>>,
    a: Seq<Seq<real>>,
    q: Seq<Seq<real>>,
    k: int,
    n: nat,
)
    requires
        exact::exact(ops),
        0 <= k < n,
        is_reduced(ops, g, a, q, k, n),
        !haar::skipped(ops, a, k),
    ensures
        ({
            let v = haar::reflection_vector(ops, a, k);
            is_reduced(
                ops,
                g,
                haar::reflected_rows(ops, a, k, v),
                haar::reflected_cols(ops, q, k, v),
                k + 1,
                n,
            )
        }),
{
    let v = haar::reflection_vector(ops, a, k);
    let h = raised(v, k, n);
    let a2 = haar::reflected_rows(ops, a, k, v);
    let q2 = haar::reflected_cols(ops, q, k, v);
    let r = turned(ops, q, g);
    let r2 = turned(ops, q2, g);
    assert(matrix::is_grid(a2, n, n)) by {
        assert forall|i: int| 0 <= i < n implies #[trigger] a2[i].len() == n by {
            assert(a[i].len() == n);
        }
    }
    assert(matrix::is_grid(q2, n, n)) by {
        assert forall|i: int| 0 <= i < n implies #[trigger] q2[i].len() == n by {
            assert(q[i].len() == n);
        }
    }
    lemma_unit_vector(ops, a, k);
    assert(matrix::dot(ops, h, h, n) == 1real) by {
        lemma_dot_raised(ops, h, v, k, n, n);
        assert(h.skip(k) =~= v);
    }
    assert forall|i: int, j: int| 0 <= i < n && 0 <= j < n implies #[trigger] r2[i][j] == r[i][j]
        - (2real * h[i]) * matrix::dot(ops, h, matrix::col(r, j), n) by {
        lemma_turned_reflects(ops, q, g, k, v, n, i, j);
    }
    // Columns from `k` on follow `a`.
    assert forall|i: int, j: int| 0 <= i < n && k <= j < n implies #[trigger] r2[i][j]
        == a2[i][j] by {
        let x = matrix::col(r, j);
        assert(a[i].len() == n);
        assert(x =~= matrix::col(a, j)) by {
            assert forall|l: int| 0 <= l < n implies #[trigger] x[l] == a[l][j] by {
                assert(r[l][j] == a[l][j]);
            }
        }
        exact::lemma_dot_swap(ops, h, x, n);
        lemma_dot_raised(ops, x, v, k, n, n);
        assert(x.skip(k) =~= haar::col_from(a, j, k));
        exact::lemma_dot_swap(ops, haar::col_from(a, j, k), v, v.len());
        assert(r[i][j] == a[i][j]);
        if i < k {
            assert(h[i] == 0real);
            let c = matrix::dot(ops, h, x, n);
            assert(2real * 0real == 0real);
            assert(0real * c == 0real);
        }
    }
    // Earlier columns stay cleared or faint, and the diagonal stays.
    assert forall|j: int| 0 <= j < k implies {
        &&& is_cleared(r2, j) || #[trigger] is_faint(ops, r2, j)
        &&& r2[j][j] == a2[j][j]
    } by {
        let x = matrix::col(r, j);
        let c = matrix::dot(ops, h, x, n);
        assert(h[j] == 0real);
        assert(2real * 0real == 0real);
        assert(0real * c == 0real);
        assert(r2[j][j] == r[j][j] - (2real * h[j]) * c);
        assert(a[j].len() == n);
        assert(a2[j][j] == a[j][j]);
        assert(r[j][j] == a[j][j]);
        if is_cleared(r, j) {
            assert forall|l: int| 0 <= l < n implies #[trigger] h[l] * x[l] == 0real by {
                if l < k {
                    assert(h[l] == 0real);
                    assert(0real * x[l] == 0real);
                } else {
                    assert(r[l][j] == 0real);
                    assert(h[l] * 0real == 0real);
                }
            }
            lemma_dot_of_nothing(ops, h, x, n);
            assert forall|i: int| j < i < r2.len() implies #[trigger] r2[i][j] == 0real by {
                assert(r[i][j] == 0real);
                assert(r2[i][j] == r[i][j] - (2real * h[i]) * c);
                assert((2real * h[i]) * 0real == 0real);
            }
        } else {
            assert(is_faint(ops, r, j));
            let t = tail_of(x, j);
            let t2 = tail_of(matrix::col(r2, j), j);
            assert(c == matrix::dot(ops, h, t, n)) by {
                lemma_dot_of_tail(ops, h, x, j, n);
            }
            assert forall|i: int| 0 <= i < n implies #[trigger] t2[i] == t[i] - (2real * h[i])
                * c by {
                if i < j {
                    assert(h[i] == 0real);
                } else {
                    assert(r2[i][j] == r[i][j] - (2real * h[i]) * c);
                }
            }
            lemma_reflection_keeps_length(ops, t, t2, h, c, n);
        }
    }
    assert(is_cleared(r2, k)) by {
        lemma_reflection_clears(ops, a, k, n);
        assert forall|i: int| k < i < r2.len() implies #[trigger] r2[i][k] == 0real by {
            assert(a2[i][k] == 0real);
        }
    }
    assert(r2[k][k] == a2[k][k]);
}

/// A sum of products that are all zero is zero.
proof fn lemma_dot_of_nothing(ops: Ops<real>, x: Seq<real>, y: Seq<real>, n: nat)
    requires
        exact::exact(ops),
        forall|i: int| 0 <= i < n ==> #[trigger] x[i] * y[i] == 0real,
    ensures
        matrix::dot(ops, x, y, n) == 0real,
    decreases n,
{
    if n > 0 {
        lemma_dot_of_nothing(ops, x, y, (n - 1) as nat);
        assert(x[n - 1] * y[n - 1] == 0real);
    }
}

/// Where one factor starts with zeros, the head of the other does not count.
proof fn lemma_dot_of_tail(ops: Ops<real>, h: Seq<real>, x: Seq<real>, j: int, n: nat)
    requires
        exact::exact(ops),
        n <= x.len(),
        forall|i: int| 0 <= i < j && i < n ==> #[trigger] h[i] == 0real,
    ensures
        matrix::dot(ops, h, x, n) == matrix::dot(ops, h, tail_of(x, j), n),
    decreases n,
{
    if n > 0 {
        lemma_dot_of_tail(ops, h, x, j, (n - 1) as nat);
        let i = n - 1;
        if i < j {
            assert(h[i] == 0real);
            assert(0real * x[i] == 0real);
            assert(0real * tail_of(x, j)[i] == 0real);
        }
    }
}

/// All reflections together reduce the matrix.
proof fn lemma_factors_reduce(
    ops: Ops<real>,
    g: Seq<Seq<real>>,
    a: Seq<Seq<real>>,
    q: Seq<Seq<real>>,
    k: nat,
    n: nat,
)
    requires
        exact::exact(ops),
        n > 0,
        k < n,
        is_reduced(ops, g, a, q, k as int, n),
    ensures
        ({
            let f = haar::factors_from(ops, a, q, k);
            is_reduced(ops, g, f.0, f.1, n - 1, n)
        }),
    decreases n - k,
{
    if k + 1 < n {
        if haar::skipped(ops, a, k as int) {
            lemma_skip_reduces(ops, g, a, q, k as int, n);
            lemma_factors_reduce(ops, g, a, q, k + 1, n);
        } else {
            let v = haar::reflection_vector(ops, a, k as int);
            lemma_reflection_reduces(ops, g, a, q, k as int, n);
            lemma_factors_reduce(
                ops,
                g,
                haar::reflected_rows(ops, a, k as int, v),
                haar::reflected_cols(ops, q, k as int, v),
                k + 1,
                n,
            );
        }
    }
}

/// The transpose of the orthogonal factor takes the matrix to an upper triangular one whose
/// diagonal is not negative. Only a column that was too short to be reflected may keep entries
/// below the diagonal, and from the diagonal down it stays that short.
pub proof fn law_factor_triangularises(ops: Ops<real>, g: Seq<Seq<real>>)
    requires
        exact::exact(ops),
        matrix::is_grid(g, g.len(), g.len()),
    ensures
        ({
            let r = turned(ops, haar::orthogonal_factor(ops, g), g);
            &&& forall|j: int| 0 <= j < g.len() ==> #[trigger] r[j][j] >= 0real
            &&& forall|j: int|
                0 <= j < g.len() ==> is_cleared(r, j) || #[trigger] is_faint(ops, r, j)
        }),
{
    let n = g.len();
    if n > 0 {
        let one = haar::identity(ops, n);
        let r0 = turned(ops, one, g);
        assert forall|i: int, j: int| 0 <= i < n && 0 <= j < n implies #[trigger] r0[i][j]
            == g[i][j] by {
            exact::lemma_dot_unit(ops, matrix::col(one, i), matrix::col(g, j), i, 1real, n);
        }
        lemma_factors_reduce(ops, g, g, one, 0, n);
        let f = haar::factors_from(ops, g, one, 0);
        let (a, q) = f;
        let p = haar::sign_corrected(ops, a, q);
        let r = turned(ops, q, g);
        let z = turned(ops, p, g);
        assert forall|i: int, j: int| 0 <= i < n && 0 <= j < n implies #[trigger] z[i][j] == if a[
        i][i] < 0real {
            0real - r[i][j]
        } else {
            r[i][j]
        } by {
            let x = if a[i][i] < 0real {
                0real - 1real
            } else {
                1real
            };
            let (qi, pi) = (matrix::col(q, i), matrix::col(p, i));
            assert forall|l: int| 0 <= l < n implies #[trigger] pi[l] == x * qi[l] + 0real
                * qi[l] by {
                assert(q[l].len() == n);
                exact::lemma_distribute(0real, 1real, qi[l]);
            }
            exact::lemma_dot_combination(ops, pi, qi, qi, x, 0real, matrix::col(g, j), n);
            exact::lemma_distribute(0real, 1real, r[i][j]);
            assert(0real * r[i][j] == 0real);
        }
        assert forall|j: int| 0 <= j < n implies #[trigger] z[j][j] >= 0real by {
            assert(r[j][j] == a[j][j]);
        }
        assert forall|j: int| 0 <= j < n implies is_cleared(z, j) || #[trigger] is_faint(
            ops,
            z,
            j,
        ) by {
            if j == n - 1 {
                assert(is_cleared(z, j));
            } else if is_cleared(r, j) {
                assert forall|i: int| j < i < z.len() implies #[trigger] z[i][j] == 0real by {
                    assert(r[i][j] == 0real);
                }
            } else {
                assert(is_faint(ops, r, j));
                let t = tail_of(matrix::col(r, j), j);
                let u = tail_of(matrix::col(z, j), j);
                assert forall|i: int| 0 <= i < n implies #[trigger] u[i] * u[i] == t[i] * t[i] by {
                    lemma_square_of_negative(t[i]);
                    assert(z[i][j] == if a[i][i] < 0real {
                        0real - r[i][j]
                    } else {
                        r[i][j]
                    });
                }
                lemma_same_squares(ops, u, t, n);
            }
        }
    }
}

/// Equal squares add up alike.
proof fn lemma_same_squares(ops: Ops<real>, x: Seq<real>, y: Seq<real>, n: nat)
    requires
        exact::exact(ops),
        forall|i: int| 0 <= i < n ==> #[trigger] x[i] * x[i] == y[i] * y[i],
    ensures
        matrix::dot(ops, x, x, n) == matrix::dot(ops, y, y, n),
    decreases n,
{
    if n > 0 {
        lemma_same_squares(ops, x, y, (n - 1) as nat);
        assert(x[n - 1] * x[n - 1] == y[n - 1] * y[n - 1]);
    }
}

/// Every sampled dense mask is orthogonal.
pub proof fn law_sampled_mask_is_orthogonal(ops: Ops<real>, s: rng::RngState, n: nat)
    requires
        exact::exact(ops),
    ensures
        is_orthogonal(ops, haar::sampled(ops, s, n), n),
{
    law_factor_is_orthogonal(ops, gaussian::normal_rows(ops, s, n, n, ops.one()));
}

} // verus!
