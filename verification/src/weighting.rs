//! What attention computes over exact arithmetic: every output row is the mean of the values,
//! weighted by the exponentials of the scores.

use vstd::prelude::*;

use crate::attention;
use crate::attention::AttentionMask;
use crate::equivariance;
use crate::exact;
use crate::matrix;
use crate::rng;
use crate::scalar::Ops;
use crate::softmax;

verus! {

/// `exp` takes the sum of `x` and `y` to a product.
pub open spec fn multiplies_at(ops: Ops<real>, x: real, y: real) -> bool {
    (ops.exp)(x + y) == (ops.exp)(x) * (ops.exp)(y)
}

/// `exp` is positive and takes sums to products.
pub open spec fn exponential(ops: Ops<real>) -> bool {
    &&& forall|x: real| (#[trigger] (ops.exp)(x)) > 0real
    &&& forall|x: real, y: real| #[trigger] multiplies_at(ops, x, y)
}

/// `w` shares out one whole over the entries of `row`, in proportion to their exponentials.
pub open spec fn is_weighting(ops: Ops<real>, row: Seq<real>, w: Seq<real>) -> bool {
    &&& w.len() == row.len()
    &&& forall|i: int| 0 <= i < w.len() ==> #[trigger] w[i] > 0real
    &&& forall|i: int, j: int|
        0 <= i < w.len() && 0 <= j < w.len() ==> #[trigger] w[i] * (ops.exp)(row[j])
            == #[trigger] w[j] * (ops.exp)(row[i])
    &&& exact::total(w, w.len()) == 1real
}

/// Sums over exact arithmetic are sums.
proof fn lemma_row_total(ops: Ops<real>, x: Seq<real>, k: nat)
    requires
        exact::exact(ops),
    ensures
        softmax::row_total(ops, x, k) == exact::total(x, k),
    decreases k,
{
    if k > 0 {
        lemma_row_total(ops, x, (k - 1) as nat);
    }
}

/// A sum of positive numbers is positive, where there are any.
proof fn lemma_total_positive(x: Seq<real>, k: nat)
    requires
        k > 0,
        forall|i: int| 0 <= i < k ==> #[trigger] x[i] > 0real,
    ensures
        exact::total(x, k) > 0real,
    decreases k,
{
    assert(x[k - 1] > 0real);
    if k > 1 {
        lemma_total_positive(x, (k - 1) as nat);
    } else {
        assert(exact::total(x, 0) == 0real);
    }
}

/// A common factor of all terms is a factor of their sum.
proof fn lemma_total_scales(x: Seq<real>, y: Seq<real>, c: real, k: nat)
    requires
        forall|i: int| 0 <= i < k ==> #[trigger] y[i] == x[i] * c,
    ensures
        exact::total(y, k) == exact::total(x, k) * c,
    decreases k,
{
    if k > 0 {
        lemma_total_scales(x, y, c, (k - 1) as nat);
        assert(y[k - 1] == x[k - 1] * c);
        exact::lemma_distribute(exact::total(x, (k - 1) as nat), x[k - 1], c);
    }
}

/// The exponentials of a row stand to each other as those of its entries less a shift.
proof fn lemma_shifted(ops: Ops<real>, x: real, y: real, shift: real)
    requires
        exponential(ops),
    ensures
        (ops.exp)(x - shift) * (ops.exp)(y) == (ops.exp)(y - shift) * (ops.exp)(x),
{
    assert(multiplies_at(ops, x - shift, y));
    assert(multiplies_at(ops, y - shift, x));
    assert((x - shift) + y == (y - shift) + x);
}

/// Softmax gives every entry of a row a positive weight. The weights add up to one and stand to
/// each other as the exponentials of the entries do, guarded or not.
pub proof fn law_softmax_weighs_by_exponentials(ops: Ops<real>, row: Seq<real>)
    requires
        exact::exact(ops),
        exponential(ops),
        row.len() > 0,
    ensures
        is_weighting(ops, row, softmax::softmax(ops, row)),
        is_weighting(ops, row, softmax::guarded_softmax(ops, row)),
{
    let n = row.len();
    let e = softmax::exponentials(ops, row);
    let top = softmax::row_max(ops, row, n);
    lemma_row_total(ops, e, n);
    assert forall|i: int| 0 <= i < n implies #[trigger] e[i] > 0real by {
        assert((ops.exp)(row[i] - top) > 0real);
    }
    lemma_total_positive(e, n);
    let t = exact::total(e, n);
    let u = 1real / t;
    exact::lemma_quotient(1real, t);
    assert(u > 0real) by {
        if u <= 0real {
            exact::lemma_distribute(0real, u, t);
            if u < 0real {
                exact::lemma_times_positive(0real - u, t);
                exact::lemma_distribute(0real, u, t);
            }
        }
    }
    let w = softmax::softmax(ops, row);
    assert(w == softmax::guarded_softmax(ops, row));
    assert forall|i: int| 0 <= i < n implies #[trigger] w[i] == e[i] * u by {}
    assert forall|i: int| 0 <= i < n implies #[trigger] w[i] > 0real by {
        exact::lemma_times_positive(e[i], u);
    }
    assert forall|i: int, j: int| 0 <= i < n && 0 <= j < n implies #[trigger] w[i] * (ops.exp)(
        row[j],
    ) == #[trigger] w[j] * (ops.exp)(row[i]) by {
        let (xi, xj) = ((ops.exp)(row[i]), (ops.exp)(row[j]));
        lemma_shifted(ops, row[i], row[j], top);
        assert(e[i] == (ops.exp)(row[i] - top));
        assert(e[j] == (ops.exp)(row[j] - top));
        assert(e[i] * xj == e[j] * xi);
        exact::lemma_times_comm(e[i], u);
        exact::lemma_times_comm(e[j], u);
        exact::lemma_times_assoc(u, e[i], xj);
        exact::lemma_times_assoc(u, e[j], xi);
    }
    lemma_total_scales(e, w, u, n);
    exact::lemma_times_comm(t, u);
}

/// Subtracting one number from every entry of a row changes no weight, whatever `exp` is: only
/// the distances from the largest entry reach it.
pub proof fn law_softmax_ignores_shifts(ops: Ops<real>, row: Seq<real>, shift: real)
    requires
        exact::exact(ops),
        forall|i: int|
            0 <= i < row.len() ==> ops.lowest <= #[trigger] row[i] && ops.lowest <= row[i] - shift,
    ensures
        softmax::softmax(ops, Seq::new(row.len(), |i: int| row[i] - shift)) == softmax::softmax(
            ops,
            row,
        ),
        softmax::guarded_softmax(ops, Seq::new(row.len(), |i: int| row[i] - shift))
            == softmax::guarded_softmax(ops, row),
{
    let n = row.len();
    let moved = Seq::new(n, |i: int| row[i] - shift);
    assert forall|i: int| 0 <= i < n implies ops.lowest <= #[trigger] moved[i] by {
        assert(ops.lowest <= row[i]);
    }
    if n > 0 {
        lemma_largest(ops, row, n);
        lemma_largest(ops, moved, n);
        let (a, b) = (softmax::row_max(ops, row, n), softmax::row_max(ops, moved, n));
        let i = choose|i: int| 0 <= i < n && row[i] == a;
        let j = choose|j: int| 0 <= j < n && moved[j] == b;
        assert(moved[i] <= b);
        assert(row[j] <= a);
        assert(b == a - shift);
    }
    assert(softmax::exponentials(ops, moved) =~= softmax::exponentials(ops, row));
}

/// Where no entry is below the lowest value, the maximum is an entry that none exceeds.
proof fn lemma_largest(ops: Ops<real>, row: Seq<real>, k: nat)
    requires
        exact::exact(ops),
        0 < k <= row.len(),
        forall|i: int| 0 <= i < row.len() ==> ops.lowest <= #[trigger] row[i],
    ensures
        exists|i: int| 0 <= i < k && row[i] == softmax::row_max(ops, row, k),
        forall|i: int| 0 <= i < k ==> #[trigger] row[i] <= softmax::row_max(ops, row, k),
    decreases k,
{
    let m = softmax::row_max(ops, row, k);
    let before = softmax::row_max(ops, row, (k - 1) as nat);
    assert(ops.lowest <= row[k - 1]);
    if k == 1 {
        assert(before == ops.lowest);
        assert(row[0] == m);
    } else {
        lemma_largest(ops, row, (k - 1) as nat);
        let i = choose|i: int| 0 <= i < k - 1 && row[i] == before;
        if before >= row[k - 1] {
            assert(row[i] == m);
        } else {
            assert(row[k - 1] == m);
        }
    }
}

/// A row weighted like the exponentials `e`, times their sum, is the row weighted by them.
proof fn lemma_weighted_mean(w: Seq<real>, e: Seq<real>, x: Seq<real>, k: nat)
    requires
        w.len() == e.len(),
        k <= w.len(),
        forall|i: int, j: int|
            0 <= i < w.len() && 0 <= j < w.len() ==> #[trigger] w[i] * e[j] == #[trigger] w[j]
                * e[i],
        exact::total(w, w.len()) == 1real,
    ensures
        exact::inner(w, x, k) * exact::total(e, e.len()) == exact::inner(e, x, k),
    decreases k,
{
    let t = exact::total(e, e.len());
    if k == 0 {
        exact::lemma_distribute(0real, 0real, t);
    } else {
        lemma_weighted_mean(w, e, x, (k - 1) as nat);
        let (wi, ei, xi) = (w[k - 1], e[k - 1], x[k - 1]);
        assert(wi * t == ei) by {
            let we = Seq::new(e.len(), |j: int| e[j] * wi);
            let ew = Seq::new(e.len(), |j: int| w[j] * ei);
            lemma_total_scales(e, we, wi, e.len());
            lemma_total_scales(w, ew, ei, e.len());
            assert forall|j: int| 0 <= j < e.len() implies #[trigger] we[j] == ew[j] by {
                assert(w[k - 1] * e[j] == w[j] * e[k - 1]);
                exact::lemma_times_comm(e[j], wi);
            }
            assert(we =~= ew);
            exact::lemma_times_comm(t, wi);
        }
        exact::lemma_distribute(exact::inner(w, x, (k - 1) as nat), wi * xi, t);
        exact::lemma_times_comm(wi, xi);
        exact::lemma_times_assoc(xi, wi, t);
        exact::lemma_times_comm(xi, ei);
    }
}

/// Entry `c` of the mean of the rows of `v`, weighted by the exponentials of the scores.
pub open spec fn is_weighted_mean(
    ops: Ops<real>,
    scores: Seq<real>,
    v: Seq<Seq<real>>,
    c: int,
    out: real,
) -> bool {
    let e = Seq::new(scores.len(), |j: int| (ops.exp)(scores[j]));
    let x = Seq::new(v.len(), |j: int| v[j][c]);
    out * exact::total(e, e.len()) == exact::inner(e, x, e.len())
}

/// Weights by softmax make weighted means.
proof fn lemma_mean_by_softmax(
    ops: Ops<real>,
    scores: Seq<real>,
    w: Seq<real>,
    v: Seq<Seq<real>>,
    c: int,
)
    requires
        exact::exact(ops),
        is_weighting(ops, scores, w),
        v.len() == scores.len(),
    ensures
        is_weighted_mean(ops, scores, v, c, matrix::dot(ops, w, matrix::col(v, c), v.len())),
{
    let e = Seq::new(scores.len(), |j: int| (ops.exp)(scores[j]));
    let x = Seq::new(v.len(), |j: int| v[j][c]);
    assert(x =~= matrix::col(v, c));
    assert forall|i: int, j: int| 0 <= i < w.len() && 0 <= j < w.len() implies #[trigger] w[i]
        * e[j] == #[trigger] w[j] * e[i] by {}
    lemma_weighted_mean(w, e, x, w.len());
    exact::law_dot_is_the_inner_product(ops, w, x, v.len());
}

/// The score of a key for a query: their inner product times the scale, less the penalty where
/// the key comes after the query.
pub open spec fn score(
    q: Seq<real>,
    k: Seq<real>,
    d: nat,
    scale: real,
    after: bool,
    penalty: real,
) -> real {
    scale * exact::inner(q, k, d) - if after {
        penalty
    } else {
        0real
    }
}

/// Every output entry of attention is a mean of the values in its column, weighted by the
/// exponentials of the scaled inner products of the query with the keys. Under the causal mask
/// the keys after the query's position have the penalty taken off their score.
pub proof fn law_attention_is_a_weighted_mean(
    ops: Ops<real>,
    q: Seq<Seq<real>>,
    k: Seq<Seq<real>>,
    v: Seq<Seq<real>>,
    d: nat,
    scale: real,
    mask: AttentionMask,
    penalty: real,
    offset: nat,
    i: int,
    c: int,
)
    requires
        exact::exact(ops),
        exponential(ops),
        matrix::is_grid(q, q.len(), d),
        matrix::is_grid(k, k.len(), d),
        matrix::is_grid(v, k.len(), d),
        0 < k.len() <= usize::MAX,
        q.len() <= usize::MAX,
        0 <= i < q.len(),
        0 <= c < d,
    ensures
        is_weighted_mean(
            ops,
            Seq::new(
                k.len(),
                |j: int|
                    score(
                        q[i],
                        k[j],
                        d,
                        scale,
                        mask == AttentionMask::Causal && j > offset + i,
                        penalty,
                    ),
            ),
            v,
            c,
            equivariance::attended(ops, q, k, v, d, scale, mask, penalty, offset)[i][c],
        ),
{
    let m = k.len();
    let scores = matrix::product(ops, q, matrix::transpose(k, d), m);
    let p_q = rng::identity_perm(q.len());
    let p_kv = rng::identity_perm(m);
    let masked = attention::masked_scores(ops, scores, scale, mask, penalty, p_q, p_kv, offset);
    let wanted = Seq::new(
        m,
        |j: int|
            score(
                q[i],
                k[j],
                d,
                scale,
                mask == AttentionMask::Causal && j > offset + i,
                penalty,
            ),
    );
    assert forall|j: int| 0 <= j < m implies #[trigger] masked[i][j] == wanted[j] by {
        lemma_raw_score(ops, q, k, d, i, j);
        exact::lemma_times_comm(scores[i][j], scale);
    }
    assert(masked[i] =~= wanted);
    law_softmax_weighs_by_exponentials(ops, wanted);
    lemma_mean_by_softmax(ops, wanted, softmax::softmax(ops, wanted), v, c);
}

/// An entry of the product of queries and transposed keys is an inner product.
proof fn lemma_raw_score(
    ops: Ops<real>,
    q: Seq<Seq<real>>,
    k: Seq<Seq<real>>,
    d: nat,
    i: int,
    j: int,
)
    requires
        exact::exact(ops),
        matrix::is_grid(q, q.len(), d),
        matrix::is_grid(k, k.len(), d),
        0 <= i < q.len(),
        0 <= j < k.len(),
    ensures
        matrix::product(ops, q, matrix::transpose(k, d), k.len())[i][j] == exact::inner(
            q[i],
            k[j],
            d,
        ),
{
    let kt = matrix::transpose(k, d);
    assert(k[j].len() == d);
    assert(matrix::col(kt, j) =~= k[j]);
    exact::law_dot_is_the_inner_product(ops, q[i], k[j], d);
}

/// The same of attention without any shielding, where a key after the query has the lowest
/// score under the causal mask.
pub proof fn law_plain_attention_is_a_weighted_mean(
    ops: Ops<real>,
    q: Seq<Seq<real>>,
    k: Seq<Seq<real>>,
    v: Seq<Seq<real>>,
    d: nat,
    scale: real,
    mask: AttentionMask,
    i: int,
    c: int,
)
    requires
        exact::exact(ops),
        exponential(ops),
        matrix::is_grid(q, q.len(), d),
        matrix::is_grid(k, k.len(), d),
        matrix::is_grid(v, k.len(), d),
        k.len() > 0,
        0 <= i < q.len(),
        0 <= c < d,
    ensures
        is_weighted_mean(
            ops,
            Seq::new(
                k.len(),
                |j: int|
                    if mask == AttentionMask::Causal && j > i {
                        ops.lowest
                    } else {
                        score(q[i], k[j], d, scale, false, 0real)
                    },
            ),
            v,
            c,
            attention::plain_head(ops, q, k, v, d, scale, mask)[i][c],
        ),
{
    let m = k.len();
    let scores = attention::plain_scores(ops, q, k, d, scale, mask);
    let wanted = Seq::new(
        m,
        |j: int|
            if mask == AttentionMask::Causal && j > i {
                ops.lowest
            } else {
                score(q[i], k[j], d, scale, false, 0real)
            },
    );
    assert forall|j: int| 0 <= j < m implies #[trigger] scores[i][j] == wanted[j] by {
        lemma_raw_score(ops, q, k, d, i, j);
        exact::lemma_times_comm(exact::inner(q[i], k[j], d), scale);
    }
    assert(scores[i] =~= wanted);
    law_softmax_weighs_by_exponentials(ops, wanted);
    lemma_mean_by_softmax(ops, wanted, softmax::guarded_softmax(ops, wanted), v, c);
}

/// Unshielded attention over values of a single entry: every output entry is the mean of those
/// values, weighted by the exponentials of the scores, whatever its column.
pub proof fn law_single_values_stand_for_all(
    ops: Ops<real>,
    q: Seq<Seq<real>>,
    k: Seq<Seq<real>>,
    v: Seq<Seq<real>>,
    d: nat,
    scale: real,
    i: int,
    c: int,
)
    requires
        exact::exact(ops),
        exponential(ops),
        matrix::is_grid(q, q.len(), d),
        matrix::is_grid(k, k.len(), d),
        matrix::is_grid(v, k.len(), 1),
        k.len() > 0,
        0 <= i < q.len(),
        0 <= c < d,
    ensures
        is_weighted_mean(
            ops,
            Seq::new(k.len(), |j: int| score(q[i], k[j], d, scale, false, 0real)),
            v,
            0,
            attention::plain_rows(ops, q, k, v, d, 1, scale, AttentionMask::Unmasked)[i][c],
        ),
{
    let m = k.len();
    let mask = AttentionMask::Unmasked;
    let scores = attention::plain_scores(ops, q, k, d, scale, mask);
    let wanted = Seq::new(m, |j: int| score(q[i], k[j], d, scale, false, 0real));
    assert forall|j: int| 0 <= j < m implies #[trigger] scores[i][j] == wanted[j] by {
        lemma_raw_score(ops, q, k, d, i, j);
        exact::lemma_times_comm(exact::inner(q[i], k[j], d), scale);
    }
    assert(scores[i] =~= wanted);
    law_softmax_weighs_by_exponentials(ops, wanted);
    lemma_mean_by_softmax(ops, wanted, softmax::guarded_softmax(ops, wanted), v, 0);
}

/// The weights that are made of the engine's scores share out one whole over the keys of each
/// query, in proportion to the exponentials of the scaled scores, less the penalty where the key
/// stands at a position after the query's.
pub proof fn law_weights_share_out_one_whole(
    ops: Ops<real>,
    scores: Seq<Seq<Seq<real>>>,
    heads: nat,
    scale: real,
    mask: AttentionMask,
    penalty: real,
    p_q: Seq<usize>,
    p_kv: Seq<usize>,
    offset: nat,
    h: int,
    i: int,
)
    requires
        exact::exact(ops),
        exponential(ops),
        matrix::is_stack(scores, scores.len(), p_q.len(), p_kv.len()),
        heads <= scores.len(),
        p_kv.len() > 0,
        0 <= h < heads,
        0 <= i < p_q.len(),
    ensures
        is_weighting(
            ops,
            Seq::new(
                p_kv.len(),
                |j: int|
                    scale * scores[h][i][j] - if mask == AttentionMask::Causal && p_kv[j] > offset
                        + p_q[i] {
                        penalty
                    } else {
                        0real
                    },
            ),
            attention::weights(
                ops,
                scores,
                heads,
                scale,
                mask,
                penalty,
                p_q,
                p_kv,
                offset,
            )[h][i],
        ),
{
    let n = p_kv.len();
    let wanted = Seq::new(
        n,
        |j: int|
            scale * scores[h][i][j] - if mask == AttentionMask::Causal && p_kv[j] > offset
                + p_q[i] {
                penalty
            } else {
                0real
            },
    );
    let masked = attention::masked_scores(
        ops,
        scores[h],
        scale,
        mask,
        penalty,
        p_q,
        p_kv,
        offset,
    );
    assert(matrix::is_grid(scores[h], p_q.len(), n));
    assert(scores[h][i].len() == n);
    assert forall|j: int| 0 <= j < n implies #[trigger] masked[i][j] == wanted[j] by {
        exact::lemma_times_comm(scores[h][i][j], scale);
    }
    assert(masked[i] =~= wanted);
    law_softmax_weighs_by_exponentials(ops, wanted);
    let rows = softmax::softmax_rows(ops, masked);
    assert(rows.len() == p_q.len());
    assert(rows[i].len() == n);
}

} // verus!
