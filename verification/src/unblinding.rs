//! Over exact arithmetic the blinded attention scores give back the plain ones.

use vstd::prelude::*;

use crate::error::OffloadError;
use crate::exact;
use crate::gaussian;
use crate::integrity;
use crate::matrix;
use crate::matrix::{Matrix, Tensor3};
use crate::out_attn_mult;
use crate::out_attn_mult::Blinding;
use crate::recovery;
use crate::rng;
use crate::scalar::Ops;

verus! {

/// The secrets fit `n` queries of width `d`, and can be divided out.
pub open spec fn is_blinding(bl: Blinding<real>, n: nat, d: nat) -> bool {
    &&& matrix::is_grid(bl.r_q, n, d)
    &&& matrix::is_grid(bl.r_kt, d, n)
    &&& bl.ordered(n)
    &&& bl.a != 0real
    &&& bl.b != 0real
}

/// A drawn scalar is never zero.
proof fn lemma_scalar_not_zero(ops: Ops<real>, s: rng::RngState)
    requires
        exact::exact(ops),
    ensures
        out_attn_mult::drawn_scalar(ops, s).0 != 0real,
{
    let lo = (ops.div)(ops.one(), ops.two());
    let hi = (ops.div)((ops.from_int)(3), ops.two());
    assert(lo == 1real / 2real);
    assert(hi == 3real / 2real);
    assert(lo <= (ops.uniform)(lo, hi, s).0 <= hi);
}

/// Secrets that are drawn can be divided out; where the orders that were drawn are
/// permutations, as every shuffle's are, they are a blinding.
pub proof fn law_drawn_secrets_blind(ops: Ops<real>, s: rng::RngState, n: nat, d: nat)
    requires
        exact::exact(ops),
        out_attn_mult::drawn(ops, s, n, d).0.ordered(n),
    ensures
        is_blinding(out_attn_mult::drawn(ops, s, n, d).0, n, d),
{
    let s1 = gaussian::after_normal_rows(ops, s, n, d);
    let s2 = gaussian::after_normal_rows(ops, s1, d, n);
    lemma_scalar_not_zero(ops, s2);
    lemma_scalar_not_zero(ops, out_attn_mult::drawn_scalar(ops, s2).1);
}

/// Reordering the operands of a product and undoing it on the result changes nothing.
proof fn lemma_orders_undone(
    ops: Ops<real>,
    x: Seq<Seq<real>>,
    y: Seq<Seq<real>>,
    lq: Seq<usize>,
    lk: Seq<usize>,
    m: nat,
)
    requires
        m <= usize::MAX,
        x.len() == m,
        matrix::is_grid(y, y.len(), m),
        rng::is_permutation(lq, m),
        rng::is_permutation(lk, m),
    ensures
        out_attn_mult::unpermuted(
            matrix::product(
                ops,
                matrix::permuted_rows(x, lq),
                matrix::permuted_cols(y, lk),
                m,
            ),
            lq,
            lk,
        ) == matrix::product(ops, x, y, m),
{
    let sq = matrix::permuted_rows(x, lq);
    let sk = matrix::permuted_cols(y, lk);
    let tilde = matrix::product(ops, sq, sk, m);
    let (iq, ik) = (matrix::inverse(lq), matrix::inverse(lk));
    lemma_inverse_undoes(lq, m);
    lemma_inverse_undoes(lk, m);
    let u = out_attn_mult::unpermuted(tilde, lq, lk);
    let p = matrix::product(ops, x, y, m);
    assert forall|i: int| 0 <= i < m implies #[trigger] u[i] == p[i] by {
        assert forall|j: int| 0 <= j < m implies #[trigger] u[i][j] == p[i][j] by {
            let (i2, j2) = (iq[i] as int, ik[j] as int);
            assert(lq[i2] == i && lk[j2] == j);
            assert(u[i][j] == tilde[i2][j2]);
            assert(matrix::col(sk, j2) =~= matrix::col(y, j));
            assert(sq[i2] == x[i]);
        }
        assert(u[i] =~= p[i]);
    }
    assert(u =~= p);
}

proof fn lemma_inverse_undoes(p: Seq<usize>, m: nat)
    requires
        m <= usize::MAX,
        rng::is_permutation(p, m),
    ensures
        matrix::inverse(p).len() == m,
        forall|v: int|
            0 <= v < m ==> (#[trigger] matrix::inverse(p)[v]) < m && p[matrix::inverse(p)[v] as int]
                == v,
{
    assert forall|v: int| 0 <= v < m implies (#[trigger] matrix::inverse(p)[v]) < m && p[
        matrix::inverse(p)[v] as int
    ] == v by {
        assert(p.contains(v as usize));
    }
}

/// A factor is divided out again.
proof fn lemma_divided_out(x: real, z: real)
    requires
        x != 0real,
    ensures
        (x * z) / x == z,
{
    let y = (x * z) / x;
    exact::lemma_quotient(x * z, x);
    exact::lemma_times_comm(x, z);
    exact::lemma_distribute(y, z, x);
    let g = y - z;
    assert(g * x == 0real);
    let u = 1real / x;
    exact::lemma_quotient(1real, x);
    exact::lemma_times_comm(u, x);
    exact::lemma_times_assoc(g, x, u);
    assert(0real * u == 0real);
    assert(g * 1real == g);
    assert(g == 0real);
}

/// The four blocks of the blinded product combine to the plain one.
proof fn lemma_blocks_combine(
    ops: Ops<real>,
    q: Seq<Seq<real>>,
    kt: Seq<Seq<real>>,
    bl: Blinding<real>,
    n: nat,
    d: nat,
)
    requires
        exact::exact(ops),
        is_blinding(bl, n, d),
        matrix::is_grid(q, n, d),
        matrix::is_grid(kt, d, n),
    ensures
        out_attn_mult::combined(
            ops,
            matrix::product(
                ops,
                out_attn_mult::blinded_q(ops, q, bl),
                out_attn_mult::blinded_kt(ops, kt, bl),
                2 * n,
            ),
            bl.a,
            bl.b,
            n,
        ) == matrix::product(ops, q, kt, n),
{
    let bq = out_attn_mult::blinded_q(ops, q, bl);
    let bk = out_attn_mult::blinded_kt(ops, kt, bl);
    let m = matrix::product(ops, bq, bk, 2 * n);
    let c = out_attn_mult::combined(ops, m, bl.a, bl.b, n);
    let p = matrix::product(ops, q, kt, n);
    let (a, b) = (bl.a, bl.b);
    assert forall|i: int| 0 <= i < n implies #[trigger] c[i] == p[i] by {
        assert(q[i].len() == d && bl.r_q[i].len() == d);
        assert forall|j: int| 0 <= j < n implies #[trigger] c[i][j] == p[i][j] by {
            let (x, y) = (q[i], bl.r_q[i]);
            let (u, v) = (matrix::col(kt, j), matrix::col(bl.r_kt, j));
            let (top, low) = (bq[i], bq[n + i]);
            let (left, right) = (matrix::col(bk, j), matrix::col(bk, n + j));
            assert forall|t: int| 0 <= t < d implies #[trigger] top[t] == 1real * x[t] + 1real
                * y[t] by {}
            assert forall|t: int| 0 <= t < d implies #[trigger] low[t] == a * y[t] + 0real
                * y[t] by {
                exact::lemma_times_comm(a, y[t]);
            }
            assert forall|t: int| 0 <= t < d implies #[trigger] left[t] == 1real * u[t] + 1real
                * v[t] by {
                assert(kt[t].len() == n && bl.r_kt[t].len() == n);
            }
            assert forall|t: int| 0 <= t < d implies #[trigger] right[t] == b * v[t] + 0real
                * v[t] by {
                assert(kt[t].len() == n && bl.r_kt[t].len() == n);
                exact::lemma_times_comm(b, v[t]);
            }
            // The plain products that the blocks are made of.
            let (xu, xv, yu, yv) = (
                matrix::dot(ops, x, u, d),
                matrix::dot(ops, x, v, d),
                matrix::dot(ops, y, u, d),
                matrix::dot(ops, y, v, d),
            );
            lemma_right_combination(ops, x, left, u, v, 1real, 1real, d);
            lemma_right_combination(ops, y, left, u, v, 1real, 1real, d);
            lemma_right_combination(ops, x, right, v, v, b, 0real, d);
            lemma_right_combination(ops, y, right, v, v, b, 0real, d);
            exact::lemma_dot_combination(ops, top, x, y, 1real, 1real, left, d);
            exact::lemma_dot_combination(ops, top, x, y, 1real, 1real, right, d);
            exact::lemma_dot_combination(ops, low, y, y, a, 0real, left, d);
            exact::lemma_dot_combination(ops, low, y, y, a, 0real, right, d);
            assert(m[i][j] == xu + xv + yu + yv);
            assert(m[i][n + j] == b * (xv + yv)) by {
                exact::lemma_distribute(xv, yv, b);
            }
            assert(m[n + i][j] == a * (yu + yv));
            assert(m[n + i][n + j] == (a * b) * yv) by {
                exact::lemma_times_assoc(a, b, yv);
            }
            lemma_divided_out(b, xv + yv);
            lemma_divided_out(a, yu + yv);
            assert(a * b != 0real) by {
                if a * b == 0real {
                    lemma_divided_out(a, b);
                    exact::lemma_quotient(0real, a);
                    assert(0real * a == 0real);
                    lemma_divided_out(a, 0real);
                    assert(a * 0real == 0real);
                }
            }
            lemma_divided_out(a * b, yv);
        }
        assert(c[i] =~= p[i]);
    }
    assert(c =~= p);
}

/// Sums of products are linear in the right factor.
proof fn lemma_right_combination(
    ops: Ops<real>,
    x: Seq<real>,
    y: Seq<real>,
    u: Seq<real>,
    v: Seq<real>,
    a: real,
    b: real,
    k: nat,
)
    requires
        exact::exact(ops),
        forall|i: int| 0 <= i < k ==> #[trigger] y[i] == a * u[i] + b * v[i],
    ensures
        matrix::dot(ops, x, y, k) == a * matrix::dot(ops, x, u, k) + b * matrix::dot(ops, x, v, k),
{
    exact::lemma_dot_combination(ops, y, u, v, a, b, x, k);
    exact::lemma_dot_swap(ops, y, x, k);
    exact::lemma_dot_swap(ops, u, x, k);
    exact::lemma_dot_swap(ops, v, x, k);
}

/// From the exact product of the blinded queries and keys, the product of the plain ones is
/// recovered.
pub proof fn law_blinded_product_recovers(
    ops: Ops<real>,
    q: Seq<Seq<real>>,
    kt: Seq<Seq<real>>,
    bl: Blinding<real>,
    n: nat,
    d: nat,
)
    requires
        2 * n <= usize::MAX,
        exact::exact(ops),
        is_blinding(bl, n, d),
        matrix::is_grid(q, n, d),
        matrix::is_grid(kt, d, n),
    ensures
        out_attn_mult::recovered(
            ops,
            matrix::product(
                ops,
                out_attn_mult::stacked_q(ops, q, bl),
                out_attn_mult::stacked_kt(ops, kt, bl),
                2 * n,
            ),
            bl,
            n,
        ) == matrix::product(ops, q, kt, n),
{
    let bq = out_attn_mult::blinded_q(ops, q, bl);
    let bk = out_attn_mult::blinded_kt(ops, kt, bl);
    assert(matrix::is_grid(bk, d, 2 * n)) by {
        assert forall|t: int| 0 <= t < d implies #[trigger] bk[t].len() == 2 * n by {
            assert(kt[t].len() == n && bl.r_kt[t].len() == n);
        }
    }
    lemma_orders_undone(ops, bq, bk, bl.lambda_q, bl.lambda_k, 2 * n);
    lemma_blocks_combine(ops, q, kt, bl, n, d);
}

/// What is handed to the engine are full grids.
proof fn lemma_stacked_grids(
    ops: Ops<real>,
    q: Seq<Seq<real>>,
    kt: Seq<Seq<real>>,
    bl: Blinding<real>,
    n: nat,
    d: nat,
)
    requires
        is_blinding(bl, n, d),
        matrix::is_grid(q, n, d),
        matrix::is_grid(kt, d, n),
    ensures
        matrix::is_grid(out_attn_mult::stacked_q(ops, q, bl), 2 * n, d),
        matrix::is_grid(out_attn_mult::stacked_kt(ops, kt, bl), d, 2 * n),
{
    let bq = out_attn_mult::blinded_q(ops, q, bl);
    let sq = out_attn_mult::stacked_q(ops, q, bl);
    assert forall|i: int| 0 <= i < 2 * n implies #[trigger] sq[i].len() == d by {
        let k = bl.lambda_q[i] as int;
        assert(0 <= k < 2 * n);
        if k < n {
            assert(bq[k] == matrix::sum(ops, q, bl.r_q)[k]);
            assert(q[k].len() == d);
        } else {
            assert(bq[k] == matrix::scaled(ops, bl.r_q, bl.a)[k - n]);
            assert(bl.r_q[k - n].len() == d);
        }
    }
}

/// An engine that multiplies exactly: the run succeeds, and its result is the product of the
/// plain queries and keys, whatever secrets were drawn and however many probes there are.
pub proof fn law_honest_run_gives_the_scores(
    ops: Ops<real>,
    q: Seq<Seq<real>>,
    kt: Seq<Seq<real>>,
    bl: Blinding<real>,
    n: nat,
    d: nat,
    probes: nat,
    tilde: Matrix<real>,
    s: rng::RngState,
    r: Result<Matrix<real>, OffloadError>,
    after: rng::RngState,
)
    requires
        2 * n <= usize::MAX,
        exact::exact(ops),
        is_blinding(bl, n, d),
        matrix::is_grid(q, n, d),
        matrix::is_grid(kt, d, n),
        tilde@ == matrix::product(
            ops,
            out_attn_mult::stacked_q(ops, q, bl),
            out_attn_mult::stacked_kt(ops, kt, bl),
            2 * n,
        ),
        tilde.width() == 2 * n,
        out_attn_mult::concluded(
            ops,
            Ok(tilde),
            out_attn_mult::stacked_q(ops, q, bl),
            out_attn_mult::stacked_kt(ops, kt, bl),
            bl,
            n,
            probes,
            s,
            r,
            after,
        ),
    ensures
        r matches Ok(out) && out@ == matrix::product(ops, q, kt, n),
{
    let sq = out_attn_mult::stacked_q(ops, q, bl);
    let sk = out_attn_mult::stacked_kt(ops, kt, bl);
    lemma_stacked_grids(ops, q, kt, bl, n, d);
    recovery::law_exact_product_is_accepted(ops, probes, sq, sk, 2 * n, 0, s);
    law_blinded_product_recovers(ops, q, kt, bl, n, d);
}

/// An engine that multiplies every head exactly: the run succeeds, and its results are the
/// products of the plain queries and keys of every head.
pub proof fn law_honest_batch_gives_the_scores(
    ops: Ops<real>,
    q: Seq<Seq<Seq<real>>>,
    kt: Seq<Seq<Seq<real>>>,
    bls: Seq<Blinding<real>>,
    n: nat,
    d: nat,
    probes: nat,
    sq: Seq<Seq<Seq<real>>>,
    skt: Seq<Seq<Seq<real>>>,
    tilde: Tensor3<real>,
    s: rng::RngState,
    r: Result<Tensor3<real>, OffloadError>,
    after: rng::RngState,
)
    requires
        2 * n <= usize::MAX,
        exact::exact(ops),
        matrix::is_stack(q, q.len(), n, d),
        matrix::is_stack(kt, q.len(), d, n),
        kt.len() == q.len(),
        bls.len() == q.len(),
        sq.len() == q.len(),
        skt.len() == q.len(),
        tilde@.len() == q.len(),
        tilde.height() == 2 * n,
        tilde.width() == 2 * n,
        forall|h: int|
            0 <= h < q.len() ==> {
                &&& is_blinding(#[trigger] bls[h], n, d)
                &&& sq[h] == out_attn_mult::stacked_q(ops, q[h], bls[h])
                &&& skt[h] == out_attn_mult::stacked_kt(ops, kt[h], bls[h])
                &&& tilde@[h] == matrix::product(ops, sq[h], skt[h], 2 * n)
            },
        out_attn_mult::concluded_heads(ops, Ok(tilde), sq, skt, bls, n, probes, s, r, after),
    ensures
        r matches Ok(out) && out@.len() == q.len() && forall|h: int|
            0 <= h < q.len() ==> #[trigger] out@[h] == matrix::product(ops, q[h], kt[h], n),
{
    lemma_heads_accepted(ops, q, kt, bls, n, d, probes, sq, skt, tilde@, 0, s);
    let out = r->Ok_0;
    assert forall|h: int| 0 <= h < q.len() implies #[trigger] out@[h] == matrix::product(
        ops,
        q[h],
        kt[h],
        n,
    ) by {
        assert(is_blinding(bls[h], n, d));
        assert(matrix::is_grid(q[h], n, d));
        assert(matrix::is_grid(kt[h], d, n));
        law_blinded_product_recovers(ops, q[h], kt[h], bls[h], n, d);
    }
}

proof fn lemma_heads_accepted(
    ops: Ops<real>,
    q: Seq<Seq<Seq<real>>>,
    kt: Seq<Seq<Seq<real>>>,
    bls: Seq<Blinding<real>>,
    n: nat,
    d: nat,
    probes: nat,
    sq: Seq<Seq<Seq<real>>>,
    skt: Seq<Seq<Seq<real>>>,
    tilde: Seq<Seq<Seq<real>>>,
    h: nat,
    s: rng::RngState,
)
    requires
        exact::exact(ops),
        matrix::is_stack(q, q.len(), n, d),
        matrix::is_stack(kt, q.len(), d, n),
        kt.len() == q.len(),
        bls.len() == q.len(),
        sq.len() == q.len(),
        skt.len() == q.len(),
        tilde.len() == q.len(),
        forall|h: int|
            0 <= h < q.len() ==> {
                &&& is_blinding(#[trigger] bls[h], n, d)
                &&& sq[h] == out_attn_mult::stacked_q(ops, q[h], bls[h])
                &&& skt[h] == out_attn_mult::stacked_kt(ops, kt[h], bls[h])
                &&& tilde[h] == matrix::product(ops, sq[h], skt[h], 2 * n)
            },
    ensures
        out_attn_mult::outcome_heads(ops, probes, sq, skt, tilde, 2 * n, h, s).0 is None,
    decreases q.len() - h,
{
    if h < q.len() {
        let g = h as int;
        assert(is_blinding(bls[g], n, d));
        assert(matrix::is_grid(q[g], n, d));
        assert(matrix::is_grid(kt[g], d, n));
        lemma_stacked_grids(ops, q[g], kt[g], bls[g], n, d);
        recovery::law_exact_product_is_accepted(ops, probes, sq[g], skt[g], 2 * n, 0, s);
        let found = integrity::outcome(ops, probes, sq[g], skt[g], tilde[g], 2 * n, 0, s);
        lemma_heads_accepted(ops, q, kt, bls, n, d, probes, sq, skt, tilde, h + 1, found.1);
    }
}

} // verus!
