//! Attention does not depend on the order in which the engine sees the tokens.
//!
//! All that is asked of the arithmetic is that sums and maxima do not depend on the order of
//! their terms.

use vstd::prelude::*;
use vstd::seq_lib::{commutative_foldl, lemma_fold_left_permutation};

use crate::attention;
use crate::attention::{AttentionMask, PermAttnConfig};
use crate::error::OffloadError;
use crate::matrix;
use crate::matrix::Tensor3;
use crate::rng;
use crate::scalar::{Ops, Scalar};
use crate::sim::RayonCpuEngine;
use crate::softmax;
use crate::substrate;
use crate::substrate::GpuOffloadEngine;

verus! {

/// Terms of sums and maxima may be exchanged.
pub open spec fn order_free<T>(ops: Ops<T>) -> bool {
    &&& forall|v: T, x: T, y: T| #[trigger]
        (ops.add)((ops.add)(v, x), y) == (ops.add)((ops.add)(v, y), x)
    &&& forall|v: T, x: T, y: T| #[trigger]
        (ops.max)((ops.max)(v, x), y) == (ops.max)((ops.max)(v, y), x)
}

/// Wrapping integer arithmetic is free of order.
pub proof fn law_wrapping_is_order_free()
    ensures
        order_free(i64::ops()),
{
}

/// Entry `j` of the result is entry `p[j]` of `row`.
pub open spec fn reordered<T>(row: Seq<T>, p: Seq<usize>) -> Seq<T> {
    Seq::new(p.len(), |j: int| row[p[j] as int])
}

/// Without the place of the largest number, the rest is a permutation of the numbers below it.
proof fn lemma_permutation_less(p: Seq<usize>, n: nat, k: int)
    requires
        n > 0,
        rng::is_permutation(p, n),
        0 <= k < n,
        p[k] == n - 1,
    ensures
        rng::is_permutation(p.remove(k), (n - 1) as nat),
{
    let q = p.remove(k);
    assert forall|i: int| 0 <= i < n - 1 implies #[trigger] q[i] < n - 1 by {
        if i < k {
            assert(p[i] < n && p[i] != p[k]);
        } else {
            assert(p[i + 1] < n && p[k] != p[i + 1]);
        }
    }
    assert forall|v: usize| v < n - 1 implies #[trigger] q.contains(v) by {
        assert(p.contains(v));
        let i = p.index_of(v);
        if i < k {
            assert(q[i] == v);
        } else {
            assert(q[i - 1] == v);
        }
    }
}

/// Reordering keeps the multiset of entries.
proof fn lemma_reordered_multiset<T>(row: Seq<T>, p: Seq<usize>, n: nat)
    requires
        row.len() == n,
        n <= usize::MAX,
        rng::is_permutation(p, n),
    ensures
        reordered(row, p).to_multiset() == row.to_multiset(),
    decreases n,
{
    let r = reordered(row, p);
    if n == 0 {
        assert(r =~= row);
    } else {
        assert(p.contains((n - 1) as usize));
        let k = p.index_of((n - 1) as usize);
        let less = row.drop_last();
        lemma_permutation_less(p, n, k);
        lemma_reordered_multiset(less, p.remove(k), (n - 1) as nat);
        assert(r.remove(k) =~= reordered(less, p.remove(k)));
        vstd::seq_lib::to_multiset_remove(r, k);
        vstd::seq_lib::to_multiset_build(less, row.last());
        assert(less.push(row.last()) =~= row);
        r.to_multiset_ensures();
        assert(r.contains(r[k]));
        assert(r.to_multiset().count(r[k]) > 0);
        assert(r.to_multiset() =~= r.to_multiset().remove(r[k]).insert(r[k]));
    }
}

proof fn lemma_max_folds<T>(ops: Ops<T>, row: Seq<T>, k: nat)
    requires
        k <= row.len(),
    ensures
        softmax::row_max(ops, row, k) == row.take(k as int).fold_left(ops.lowest, ops.max),
    decreases k,
{
    let s = row.take(k as int);
    if k > 0 {
        lemma_max_folds(ops, row, (k - 1) as nat);
        assert(s.drop_last() =~= row.take(k - 1));
        assert(s.last() == row[k - 1]);
    }
}

proof fn lemma_total_folds<T>(ops: Ops<T>, row: Seq<T>, k: nat)
    requires
        k <= row.len(),
    ensures
        softmax::row_total(ops, row, k) == row.take(k as int).fold_left(ops.zero(), ops.add),
    decreases k,
{
    let s = row.take(k as int);
    if k > 0 {
        lemma_total_folds(ops, row, (k - 1) as nat);
        assert(s.drop_last() =~= row.take(k - 1));
        assert(s.last() == row[k - 1]);
    }
}

/// The largest entry and the sum of a row do not depend on its order.
proof fn lemma_folds_reordered<T>(ops: Ops<T>, row: Seq<T>, p: Seq<usize>, n: nat)
    requires
        order_free(ops),
        row.len() == n,
        n <= usize::MAX,
        rng::is_permutation(p, n),
    ensures
        softmax::row_max(ops, reordered(row, p), n) == softmax::row_max(ops, row, n),
        softmax::row_total(ops, reordered(row, p), n) == softmax::row_total(ops, row, n),
{
    let r = reordered(row, p);
    lemma_reordered_multiset(row, p, n);
    lemma_max_folds(ops, r, n);
    lemma_max_folds(ops, row, n);
    lemma_total_folds(ops, r, n);
    lemma_total_folds(ops, row, n);
    assert(r.take(n as int) =~= r);
    assert(row.take(n as int) =~= row);
    assert(commutative_foldl(ops.max));
    assert(commutative_foldl(ops.add));
    lemma_fold_left_permutation(r, row, ops.max, ops.lowest);
    lemma_fold_left_permutation(r, row, ops.add, ops.zero());
}

/// Softmax commutes with reordering.
proof fn lemma_softmax_reordered<T>(ops: Ops<T>, row: Seq<T>, p: Seq<usize>, n: nat)
    requires
        order_free(ops),
        row.len() == n,
        n <= usize::MAX,
        rng::is_permutation(p, n),
    ensures
        softmax::softmax(ops, reordered(row, p)) == reordered(softmax::softmax(ops, row), p),
{
    let r = reordered(row, p);
    lemma_folds_reordered(ops, row, p, n);
    let e = softmax::exponentials(ops, row);
    assert(softmax::exponentials(ops, r) =~= reordered(e, p));
    lemma_folds_reordered(ops, e, p, n);
    assert(softmax::softmax(ops, r) =~= reordered(softmax::softmax(ops, row), p));
}

proof fn lemma_dot_totals<T>(ops: Ops<T>, x: Seq<T>, y: Seq<T>, z: Seq<T>, k: nat)
    requires
        forall|i: int| 0 <= i < k ==> #[trigger] z[i] == (ops.mul)(x[i], y[i]),
    ensures
        matrix::dot(ops, x, y, k) == softmax::row_total(ops, z, k),
    decreases k,
{
    if k > 0 {
        lemma_dot_totals(ops, x, y, z, (k - 1) as nat);
        assert(z[k - 1] == (ops.mul)(x[k - 1], y[k - 1]));
    }
}

/// A sum of products does not depend on the order of its terms.
proof fn lemma_dot_reordered<T>(ops: Ops<T>, x: Seq<T>, y: Seq<T>, p: Seq<usize>, n: nat)
    requires
        order_free(ops),
        x.len() == n,
        y.len() == n,
        n <= usize::MAX,
        rng::is_permutation(p, n),
    ensures
        matrix::dot(ops, reordered(x, p), reordered(y, p), n) == matrix::dot(ops, x, y, n),
{
    let z = Seq::new(n, |i: int| (ops.mul)(x[i], y[i]));
    lemma_dot_totals(ops, x, y, z, n);
    lemma_dot_totals(ops, reordered(x, p), reordered(y, p), reordered(z, p), n);
    lemma_folds_reordered(ops, z, p, n);
}

/// Attention of one head in plain order, with the penalty on positions after the query's.
pub open spec fn attended<T>(
    ops: Ops<T>,
    q: Seq<Seq<T>>,
    k: Seq<Seq<T>>,
    v: Seq<Seq<T>>,
    d: nat,
    scale: T,
    mask: AttentionMask,
    penalty: T,
    offset: nat,
) -> Seq<Seq<T>> {
    let scores = matrix::product(ops, q, matrix::transpose(k, d), k.len());
    let w = softmax::softmax_rows(
        ops,
        attention::masked_scores(
            ops,
            scores,
            scale,
            mask,
            penalty,
            rng::identity_perm(q.len()),
            rng::identity_perm(k.len()),
            offset,
        ),
    );
    matrix::product(ops, w, v, d)
}

/// The same in the order that the engine sees, put back in order at the end.
pub open spec fn attended_reordered<T>(
    ops: Ops<T>,
    q: Seq<Seq<T>>,
    k: Seq<Seq<T>>,
    v: Seq<Seq<T>>,
    d: nat,
    scale: T,
    mask: AttentionMask,
    penalty: T,
    p_q: Seq<usize>,
    p_kv: Seq<usize>,
    offset: nat,
) -> Seq<Seq<T>> {
    let scores = matrix::product(
        ops,
        matrix::permuted_rows(q, p_q),
        matrix::transpose(matrix::permuted_rows(k, p_kv), d),
        k.len(),
    );
    let w = softmax::softmax_rows(
        ops,
        attention::masked_scores(ops, scores, scale, mask, penalty, p_q, p_kv, offset),
    );
    matrix::permuted_rows(
        matrix::product(ops, w, matrix::permuted_rows(v, p_kv), d),
        matrix::inverse(p_q),
    )
}

/// Attention over tokens in any order, put back in order, is attention in plain order: the
/// scores are permuted on both sides, softmax lets the order through, and the weighted sum of
/// the values does not depend on it.
pub proof fn law_attention_ignores_order<T>(
    ops: Ops<T>,
    q: Seq<Seq<T>>,
    k: Seq<Seq<T>>,
    v: Seq<Seq<T>>,
    d: nat,
    scale: T,
    mask: AttentionMask,
    penalty: T,
    p_q: Seq<usize>,
    p_kv: Seq<usize>,
    offset: nat,
)
    requires
        order_free(ops),
        q.len() <= usize::MAX,
        k.len() <= usize::MAX,
        matrix::is_grid(q, q.len(), d),
        matrix::is_grid(k, k.len(), d),
        matrix::is_grid(v, k.len(), d),
        rng::is_permutation(p_q, q.len()),
        rng::is_permutation(p_kv, k.len()),
    ensures
        attended_reordered(ops, q, k, v, d, scale, mask, penalty, p_q, p_kv, offset) == attended(
            ops,
            q,
            k,
            v,
            d,
            scale,
            mask,
            penalty,
            offset,
        ),
{
    let (n_q, n_kv) = (q.len(), k.len());
    let (iq, ik) = (rng::identity_perm(n_q), rng::identity_perm(n_kv));
    let plain = matrix::product(ops, q, matrix::transpose(k, d), n_kv);
    let base = attention::masked_scores(ops, plain, scale, mask, penalty, iq, ik, offset);
    let kp = matrix::permuted_rows(k, p_kv);
    let seen = matrix::product(
        ops,
        matrix::permuted_rows(q, p_q),
        matrix::transpose(kp, d),
        n_kv,
    );
    let moved = attention::masked_scores(ops, seen, scale, mask, penalty, p_q, p_kv, offset);
    let vp = matrix::permuted_rows(v, p_kv);
    let wb = softmax::softmax_rows(ops, base);
    let wm = softmax::softmax_rows(ops, moved);
    let ctx = matrix::product(ops, wm, vp, d);
    let want = attended(ops, q, k, v, d, scale, mask, penalty, offset);
    let got = attended_reordered(ops, q, k, v, d, scale, mask, penalty, p_q, p_kv, offset);
    // Every row of scores is a reordered row.
    assert forall|i: int| 0 <= i < n_q implies #[trigger] moved[i] == reordered(
        base[p_q[i] as int],
        p_kv,
    ) by {
        let a = p_q[i] as int;
        assert(0 <= a < n_q);
        assert forall|j: int| 0 <= j < n_kv implies #[trigger] moved[i][j] == base[a][p_kv[j] as int]
            by {
            let b = p_kv[j] as int;
            assert(0 <= b < n_kv);
            assert(k[b].len() == d && q[a].len() == d);
            assert(matrix::col(matrix::transpose(k, d), b) =~= k[b]);
            assert(matrix::col(matrix::transpose(kp, d), j) =~= k[b]);
            assert(seen[i][j] == plain[a][b]);
            assert(iq[a] == p_q[i] && ik[b] == p_kv[j]);
        }
        assert(moved[i] =~= reordered(base[a], p_kv));
    }
    // So every row of the context is a row of plain attention.
    assert forall|i: int| 0 <= i < n_q implies #[trigger] ctx[i] == want[p_q[i] as int] by {
        let a = p_q[i] as int;
        assert(0 <= a < n_q);
        assert(moved[i] == reordered(base[a], p_kv));
        lemma_softmax_reordered(ops, base[a], p_kv, n_kv);
        assert forall|c: int| 0 <= c < d implies #[trigger] ctx[i][c] == want[a][c] by {
            assert(matrix::col(vp, c) =~= reordered(matrix::col(v, c), p_kv));
            lemma_dot_reordered(ops, wb[a], matrix::col(v, c), p_kv, n_kv);
        }
        assert(ctx[i] =~= want[a]);
    }
    let inv = matrix::inverse(p_q);
    assert forall|i: int| 0 <= i < n_q implies #[trigger] got[i] == want[i] by {
        assert(p_q.contains(i as usize));
        assert(p_q[inv[i] as int] == i);
        assert(ctx[inv[i] as int] == want[p_q[inv[i] as int] as int]);
    }
    assert(got =~= want);
}

/// The engine answers every product of two stacks that fit with the products.
pub open spec fn multiplies<T: Scalar, E: GpuOffloadEngine<T>>(engine: &E) -> bool {
    forall|a: &Tensor3<T>, b: &Tensor3<T>, r: Result<Tensor3<T>, OffloadError>|
        a.regular() && b.regular() && a@.len() == b@.len() && a.width() == b.height()
            && #[trigger] substrate::answers_batched(engine, a, b, r) ==> (r matches Ok(z) && {
            &&& z@.len() == a@.len()
            &&& z.height() == a.height()
            &&& z.width() == b.width()
            &&& z@ == Seq::new(
                a@.len(),
                |h: int| matrix::product(T::ops(), a@[h], b@[h], b.width()),
            )
        })
}

/// The engine on the calling thread multiplies.
pub proof fn law_thread_engine_multiplies<T: Scalar>(engine: &RayonCpuEngine<T>)
    ensures
        multiplies::<T, RayonCpuEngine<T>>(engine),
{
    assert forall|a: &Tensor3<T>, b: &Tensor3<T>, r: Result<Tensor3<T>, OffloadError>|
        a.regular() && b.regular() && a@.len() == b@.len() && a.width() == b.height()
            && #[trigger] substrate::answers_batched(engine, a, b, r) implies (r matches Ok(z) && {
        &&& z@.len() == a@.len()
            &&& z.height() == a.height()
            &&& z.width() == b.width()
        &&& z@ == Seq::new(
            a@.len(),
            |h: int| matrix::product(T::ops(), a@[h], b@[h], b.width()),
        )
    }) by {
        let z = r->Ok_0;
        assert(r is Ok);
        assert forall|h: int| 0 <= h < a@.len() implies #[trigger] z@[h] == matrix::product(
            T::ops(),
            a@[h],
            b@[h],
            b.width(),
        ) by {
            assert(z.slice(h)@ == z@[h]);
        }
        assert(z@ =~= Seq::new(
            a@.len(),
            |h: int| matrix::product(T::ops(), a@[h], b@[h], b.width()),
        ));
    }
}

/// A run of the protocol against an engine that multiplies gives attention in plain order.
proof fn lemma_run_attends<T: Scalar, E: GpuOffloadEngine<T>>(
    engine: &E,
    q: Seq<Seq<Seq<T>>>,
    k: Seq<Seq<Seq<T>>>,
    v: Seq<Seq<Seq<T>>>,
    n_q: nat,
    n_kv: nat,
    d: nat,
    scale: T,
    mask: AttentionMask,
    penalty: T,
    p_q: Seq<usize>,
    p_kv: Seq<usize>,
    offset: nat,
    out: Seq<Seq<Seq<T>>>,
)
    requires
        order_free(T::ops()),
        multiplies::<T, E>(engine),
        n_q <= usize::MAX,
        n_kv <= usize::MAX,
        matrix::is_stack(q, q.len(), n_q, d),
        matrix::is_stack(k, q.len(), n_kv, d),
        matrix::is_stack(v, q.len(), n_kv, d),
        rng::is_permutation(p_q, n_q),
        rng::is_permutation(p_kv, n_kv),
        attention::protocol_run(
            engine,
            attention::permuted(q, p_q),
            attention::transposed(attention::permuted(k, p_kv), d),
            v,
            d,
            d,
            scale,
            mask,
            penalty,
            p_q,
            p_kv,
            offset,
            out,
        ),
    ensures
        out == Seq::new(
            q.len(),
            |h: int|
                attended(T::ops(), q[h], k[h], v[h], d, scale, mask, penalty, offset),
        ),
{
    let ops = T::ops();
    let heads = q.len();
    let sent_q = attention::permuted(q, p_q);
    let sent_k = attention::transposed(attention::permuted(k, p_kv), d);
    let (a, b, scores, w, c, ctx) = choose|
        a: &Tensor3<T>,
        b: &Tensor3<T>,
        scores: Tensor3<T>,
        w: &Tensor3<T>,
        c: &Tensor3<T>,
        ctx: Tensor3<T>,
    |
        {
            &&& #[trigger] substrate::answers_batched(
                engine,
                a,
                b,
                Ok::<Tensor3<T>, OffloadError>(scores),
            )
            &&& #[trigger] substrate::answers_batched(
                engine,
                w,
                c,
                Ok::<Tensor3<T>, OffloadError>(ctx),
            )
            &&& a@ == sent_q
            &&& attention::shaped(a, heads, p_q.len(), d)
            &&& b@ == sent_k
            &&& attention::shaped(b, heads, d, p_kv.len())
            &&& w@ == attention::weights(
                ops,
                scores@,
                heads,
                scale,
                mask,
                penalty,
                p_q,
                p_kv,
                offset,
            )
            &&& attention::shaped(w, heads, p_q.len(), p_kv.len())
            &&& c@ == attention::permuted(v, p_kv)
            &&& attention::shaped(c, heads, p_kv.len(), d)
            &&& out == attention::restored(ctx@, heads, p_q, d)
        };
    let want = Seq::new(
        heads,
        |h: int| attended(ops, q[h], k[h], v[h], d, scale, mask, penalty, offset),
    );
    assert forall|h: int| 0 <= h < heads implies #[trigger] out[h] == want[h] by {
        assert(matrix::is_grid(q[h], n_q, d));
        assert(matrix::is_grid(k[h], n_kv, d));
        assert(matrix::is_grid(v[h], n_kv, d));
        assert(scores@[h] == matrix::product(ops, a@[h], b@[h], n_kv));
        assert(ctx@[h] == matrix::product(ops, w@[h], c@[h], d));
        let soft = softmax::softmax_rows(
            ops,
            attention::masked_scores(ops, scores@[h], scale, mask, penalty, p_q, p_kv, offset),
        );
        assert forall|i: int| 0 <= i < n_q implies (#[trigger] soft[i]).len() == n_kv by {
            assert(scores@[h][i].len() == n_kv);
        }
        assert(w@[h] =~= soft);
        let inv = matrix::inverse(p_q);
        assert forall|i: int| 0 <= i < n_q implies #[trigger] out[h][i] == ctx@[h][inv[i] as int] by {
            assert(p_q.contains(i as usize));
            assert(0 <= inv[i] < n_q);
            assert(ctx@[h][inv[i] as int].len() == d);
        }
        assert(out[h] =~= matrix::permuted_rows(ctx@[h], inv));
        law_attention_ignores_order(
            ops,
            q[h],
            k[h],
            v[h],
            d,
            scale,
            mask,
            penalty,
            p_q,
            p_kv,
            offset,
        );
    }
    assert(out =~= want);
}

/// An engine that multiplies does not let a run fail.
proof fn lemma_run_cannot_fail<T: Scalar, E: GpuOffloadEngine<T>>(
    engine: &E,
    q: Seq<Seq<Seq<T>>>,
    kt: Seq<Seq<Seq<T>>>,
    v: Seq<Seq<Seq<T>>>,
    d: nat,
    d_v: nat,
    scale: T,
    mask: AttentionMask,
    penalty: T,
    p_q: Seq<usize>,
    p_kv: Seq<usize>,
    offset: nat,
    e: OffloadError,
)
    requires
        multiplies::<T, E>(engine),
    ensures
        !attention::protocol_failure(
            engine,
            q,
            kt,
            v,
            d,
            d_v,
            scale,
            mask,
            penalty,
            p_q,
            p_kv,
            offset,
            e,
        ),
{
}

/// Without noise, and with an engine that multiplies, attention over one sequence succeeds
/// and is attention in plain order, whatever order was drawn.
pub proof fn law_permuted_attention_is_plain<T: Scalar, E: GpuOffloadEngine<T>>(
    engine: &E,
    q: &Tensor3<T>,
    k: &Tensor3<T>,
    v: &Tensor3<T>,
    scale: T,
    mask: AttentionMask,
    cfg: PermAttnConfig<T>,
    s: rng::RngState,
    r: Result<Tensor3<T>, OffloadError>,
    after: rng::RngState,
)
    requires
        order_free(T::ops()),
        multiplies::<T, E>(engine),
        q.regular(),
        k.regular(),
        v.regular(),
        q@.len() <= usize::MAX,
        q.height() <= usize::MAX,
        q.width() <= usize::MAX,
        attention::shaped(k, q@.len(), q.height(), q.width()),
        attention::shaped(v, q@.len(), q.height(), q.width()),
        !(T::ops().lt)(T::ops().zero(), cfg.noise_sigma),
        attention::permuted_run(engine, q, k, v, scale, mask, cfg, s, r, after),
    ensures
        r matches Ok(out) && out@ == Seq::new(
            q@.len(),
            |h: int|
                attended(
                    T::ops(),
                    q@[h],
                    k@[h],
                    v@[h],
                    q.width(),
                    scale,
                    mask,
                    cfg.causal_mask_neg,
                    0,
                ),
        ),
{
    let n = q.height();
    let d = q.width();
    let p = rng::drawn_perm(s, n);
    let sent = attention::shipped(
        T::ops(),
        rng::after_perm(s, n),
        q@,
        k@,
        n,
        n,
        d,
        cfg.noise_sigma,
        p,
        p,
    );
    match r {
        Ok(out) => {
            lemma_run_attends(
                engine,
                q@,
                k@,
                v@,
                n,
                n,
                d,
                scale,
                mask,
                cfg.causal_mask_neg,
                p,
                p,
                0,
                out@,
            );
        },
        Err(e) => {
            lemma_run_cannot_fail(
                engine,
                sent.0,
                sent.1,
                v@,
                d,
                d,
                scale,
                mask,
                cfg.causal_mask_neg,
                p,
                p,
                0,
                e,
            );
        },
    }
}

/// Without noise, and with an engine that multiplies, attention over a cache succeeds and is
/// attention in plain order, whatever orders were drawn.
pub proof fn law_cached_attention_is_plain<T: Scalar, E: GpuOffloadEngine<T>>(
    engine: &E,
    q: &Tensor3<T>,
    k: &Tensor3<T>,
    v: &Tensor3<T>,
    scale: T,
    q_pos_offset: usize,
    mask: AttentionMask,
    cfg: PermAttnConfig<T>,
    s: rng::RngState,
    r: Result<Tensor3<T>, OffloadError>,
    after: rng::RngState,
)
    requires
        order_free(T::ops()),
        multiplies::<T, E>(engine),
        q.regular(),
        k.regular(),
        v.regular(),
        q@.len() <= usize::MAX,
        k.height() <= usize::MAX,
        q.width() <= usize::MAX,
        q_pos_offset + q.height() <= k.height(),
        attention::shaped(k, q@.len(), k.height(), q.width()),
        attention::shaped(v, q@.len(), k.height(), q.width()),
        !(T::ops().lt)(T::ops().zero(), cfg.noise_sigma),
        attention::cached_run(engine, q, k, v, scale, q_pos_offset, mask, cfg, s, r, after),
    ensures
        r matches Ok(out) && out@ == Seq::new(
            q@.len(),
            |h: int|
                attended(
                    T::ops(),
                    q@[h],
                    k@[h],
                    v@[h],
                    q.width(),
                    scale,
                    mask,
                    cfg.causal_mask_neg,
                    q_pos_offset as nat,
                ),
        ),
{
    let (n_q, n_kv, d) = (q.height(), k.height(), q.width());
    let mid = rng::after_perm(s, n_q);
    let p_q = rng::drawn_perm(s, n_q);
    let p_kv = rng::drawn_perm(mid, n_kv);
    let sent = attention::shipped(
        T::ops(),
        rng::after_perm(mid, n_kv),
        q@,
        k@,
        n_q,
        n_kv,
        d,
        cfg.noise_sigma,
        p_q,
        p_kv,
    );
    match r {
        Ok(out) => {
            lemma_run_attends(
                engine,
                q@,
                k@,
                v@,
                n_q,
                n_kv,
                d,
                scale,
                mask,
                cfg.causal_mask_neg,
                p_q,
                p_kv,
                q_pos_offset as nat,
                out@,
            );
        },
        Err(e) => {
            lemma_run_cannot_fail(
                engine,
                sent.0,
                sent.1,
                v@,
                d,
                d,
                scale,
                mask,
                cfg.causal_mask_neg,
                p_q,
                p_kv,
                q_pos_offset as nat,
                e,
            );
        },
    }
}

/// The exponentials of a row add up to more than zero.
pub open spec fn has_weight<T>(ops: Ops<T>, row: Seq<T>) -> bool {
    let e = softmax::exponentials(ops, row);
    (ops.lt)(ops.zero(), softmax::row_total(ops, e, e.len()))
}

/// Scores of one head in plain order, with the penalty on positions after the query's.
pub open spec fn penalised_scores<T>(
    ops: Ops<T>,
    q: Seq<Seq<T>>,
    k: Seq<Seq<T>>,
    d: nat,
    scale: T,
    mask: AttentionMask,
    penalty: T,
) -> Seq<Seq<T>> {
    attention::masked_scores(
        ops,
        matrix::product(ops, q, matrix::transpose(k, d), k.len()),
        scale,
        mask,
        penalty,
        rng::identity_perm(q.len()),
        rng::identity_perm(k.len()),
        0,
    )
}

/// Where the exponentials of every row add up to more than zero, attention in plain order is
/// the unshielded attention of an executor that does not permute. Under the causal mask this
/// asks for a penalty that leaves the same exponentials as the lowest score does.
pub proof fn law_plain_order_is_unshielded_attention<T>(
    ops: Ops<T>,
    q: Seq<Seq<T>>,
    k: Seq<Seq<T>>,
    v: Seq<Seq<T>>,
    d: nat,
    scale: T,
    mask: AttentionMask,
    penalty: T,
)
    requires
        forall|i: int|
            0 <= i < q.len() ==> #[trigger] has_weight(
                ops,
                attention::plain_scores(ops, q, k, d, scale, mask)[i],
            ),
        mask == AttentionMask::Causal ==> forall|i: int|
            0 <= i < q.len() ==> #[trigger] softmax::exponentials(
                ops,
                penalised_scores(ops, q, k, d, scale, mask, penalty)[i],
            ) == softmax::exponentials(
                ops,
                attention::plain_scores(ops, q, k, d, scale, mask)[i],
            ),
    ensures
        attended(ops, q, k, v, d, scale, mask, penalty, 0) == attention::plain_head(
            ops,
            q,
            k,
            v,
            d,
            scale,
            mask,
        ),
{
    let plain = attention::plain_scores(ops, q, k, d, scale, mask);
    let masked = penalised_scores(ops, q, k, d, scale, mask, penalty);
    let a = softmax::softmax_rows(ops, masked);
    let b = Seq::new(plain.len(), |i: int| softmax::guarded_softmax(ops, plain[i]));
    assert forall|i: int| 0 <= i < q.len() implies #[trigger] a[i] == b[i] by {
        if mask == AttentionMask::Unmasked {
            assert(masked[i] =~= plain[i]);
        }
        assert(softmax::exponentials(ops, masked[i]) == softmax::exponentials(ops, plain[i]));
        assert(has_weight(ops, plain[i]));
    }
    assert(a =~= b);
}

} // verus!
