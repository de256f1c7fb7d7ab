//! Permutation-shielded attention.
//!
//! The engine multiplies queries, keys and values whose rows have been reordered by secret
//! permutations, optionally with Gaussian noise on queries and keys. Softmax and the causal
//! mask stay on the trusted side, so that the engine sees neither; the rows of the answer
//! are put back in order at the end.

use vstd::prelude::*;

use crate::error::OffloadError;
use crate::gaussian;
use crate::matrix;
use crate::matrix::{Matrix, Tensor3};
use crate::rng;
use crate::rng::MaskRng;
use crate::scalar::{Ops, Scalar};
use crate::softmax;
use crate::substrate;
use crate::substrate::GpuOffloadEngine;

verus! {

/// Which positions a query may not attend to.
#[derive(Debug, Clone, Copy, PartialEq, Eq, Structural)]
pub enum AttentionMask {
    /// No position is barred: attention runs in both directions.
    Unmasked,
    /// Those after its own.
    Causal,
}

/// Noise on queries and keys, and the penalty that bars a position.
#[derive(Debug)]
pub struct PermAttnConfig<T> {
    /// Standard deviation of the noise; none is added where it is not above zero.
    pub noise_sigma: T,
    /// What is taken off the score of a barred position.
    pub causal_mask_neg: T,
}

impl<T: Copy> Clone for PermAttnConfig<T> {
    fn clone(&self) -> (r: PermAttnConfig<T>)
        ensures
            r == *self,
    {
        *self
    }
}

impl<T: Copy> Copy for PermAttnConfig<T> {

}

/// No noise, and a penalty of thirty.
pub open spec fn noiseless<T>(ops: Ops<T>) -> PermAttnConfig<T> {
    PermAttnConfig { noise_sigma: ops.zero(), causal_mask_neg: (ops.from_int)(30) }
}

/// Noise of one hundredth, and a penalty of thirty.
pub open spec fn noisy_default<T>(ops: Ops<T>) -> PermAttnConfig<T> {
    PermAttnConfig {
        noise_sigma: (ops.div)(ops.one(), (ops.from_int)(100)),
        causal_mask_neg: (ops.from_int)(30),
    }
}

impl<T: Scalar> PermAttnConfig<T> {
    /// Pure permutation.
    pub fn disabled_noise() -> (r: PermAttnConfig<T>)
        ensures
            r == noiseless(T::ops()),
    {
        PermAttnConfig { noise_sigma: T::from_int(0), causal_mask_neg: T::from_int(30) }
    }

    /// Permutation with noise of one hundredth.
    pub fn hidden_no_more() -> (r: PermAttnConfig<T>)
        ensures
            r == noisy_default(T::ops()),
    {
        PermAttnConfig {
            noise_sigma: T::from_int(1).over(T::from_int(100)),
            causal_mask_neg: T::from_int(30),
        }
    }
}

impl<T: Scalar> Default for PermAttnConfig<T> {
    fn default() -> (r: PermAttnConfig<T>)
        ensures
            r == noiseless(T::ops()),
    {
        PermAttnConfig::disabled_noise()
    }
}

/// The stream after noise for a stack has been drawn from it.
pub open spec fn after_noise<T>(
    ops: Ops<T>,
    s: rng::RngState,
    heads: nat,
    rows: nat,
    cols: nat,
) -> rng::RngState
    decreases heads,
{
    if heads == 0 {
        s
    } else {
        gaussian::after_normal_rows(
            ops,
            after_noise(ops, s, (heads - 1) as nat, rows, cols),
            rows,
            cols,
        )
    }
}

/// A stack plus noise, drawn matrix by matrix and row by row.
pub open spec fn with_noise<T>(
    ops: Ops<T>,
    s: rng::RngState,
    t: Seq<Seq<Seq<T>>>,
    rows: nat,
    cols: nat,
    sigma: T,
) -> Seq<Seq<Seq<T>>> {
    Seq::new(
        t.len(),
        |h: int|
            matrix::sum(
                ops,
                t[h],
                gaussian::normal_rows(
                    ops,
                    after_noise(ops, s, h as nat, rows, cols),
                    rows,
                    cols,
                    sigma,
                ),
            ),
    )
}

/// Every matrix of a stack with its rows reordered.
pub open spec fn permuted<T>(t: Seq<Seq<Seq<T>>>, p: Seq<usize>) -> Seq<Seq<Seq<T>>> {
    Seq::new(t.len(), |h: int| matrix::permuted_rows(t[h], p))
}

/// Every matrix of a stack transposed.
pub open spec fn transposed<T>(t: Seq<Seq<Seq<T>>>, cols: nat) -> Seq<Seq<Seq<T>>> {
    Seq::new(t.len(), |h: int| matrix::transpose(t[h], cols))
}

/// Position `p_kv[j]` of the keys comes after the position of query `p_q[i]`.
pub open spec fn barred(
    mask: AttentionMask,
    p_q: Seq<usize>,
    p_kv: Seq<usize>,
    offset: nat,
    i: int,
    j: int,
) -> bool {
    mask == AttentionMask::Causal && p_kv[j] > offset + p_q[i]
}

/// Scores of one head, scaled and with the penalty on barred positions.
pub open spec fn masked_scores<T>(
    ops: Ops<T>,
    scores: Seq<Seq<T>>,
    scale: T,
    mask: AttentionMask,
    penalty: T,
    p_q: Seq<usize>,
    p_kv: Seq<usize>,
    offset: nat,
) -> Seq<Seq<T>> {
    Seq::new(
        scores.len(),
        |i: int|
            Seq::new(
                scores[i].len(),
                |j: int|
                    {
                        let x = (ops.mul)(scores[i][j], scale);
                        if mask == AttentionMask::Unmasked {
                            x
                        } else if barred(mask, p_q, p_kv, offset, i, j) {
                            (ops.add)(x, (ops.neg)(penalty))
                        } else {
                            (ops.add)(x, ops.zero())
                        }
                    },
            ),
    )
}

/// Attention weights of the first `heads` heads. Weights for a single query, or a single key,
/// stand for all.
pub open spec fn weights<T>(
    ops: Ops<T>,
    scores: Seq<Seq<Seq<T>>>,
    heads: nat,
    scale: T,
    mask: AttentionMask,
    penalty: T,
    p_q: Seq<usize>,
    p_kv: Seq<usize>,
    offset: nat,
) -> Seq<Seq<Seq<T>>> {
    Seq::new(
        heads,
        |h: int|
            matrix::spread_over(
                softmax::softmax_rows(
                    ops,
                    masked_scores(ops, scores[h], scale, mask, penalty, p_q, p_kv, offset),
                ),
                p_q.len(),
                p_kv.len(),
            ),
    )
}

/// Scores from which the weights of `heads` heads can be made: every head is there, and spreads
/// over the queries and keys. A causal mask asks for a score at every position.
pub open spec fn usable_scores<T>(
    scores: Tensor3<T>,
    heads: nat,
    n_q: nat,
    n_kv: nat,
    mask: AttentionMask,
) -> bool {
    heads == 0 || {
        &&& scores@.len() >= heads
        &&& scores.height() == n_q || scores.height() == 1
        &&& scores.width() == n_kv || scores.width() == 1
        &&& mask == AttentionMask::Causal && n_q > 0 && n_kv > 0 ==> scores.height() >= n_q
            && scores.width() >= n_kv
    }
}

/// Context from which the rows of `heads` heads can be taken: every head and row that is looked
/// at is there, as wide as the values or one entry that stands for all.
pub open spec fn usable_context<T>(ctx: Tensor3<T>, heads: nat, n_q: nat, d_v: nat) -> bool {
    heads == 0 || n_q == 0 || {
        &&& ctx@.len() >= heads
        &&& ctx.height() >= n_q
        &&& ctx.width() == d_v || ctx.width() == 1
    }
}

/// The rows of every head's context back in order.
pub open spec fn restored<T>(
    ctx: Seq<Seq<Seq<T>>>,
    heads: nat,
    p_q: Seq<usize>,
    d_v: nat,
) -> Seq<Seq<Seq<T>>> {
    Seq::new(
        heads,
        |h: int|
            Seq::new(
                p_q.len(),
                |i: int| matrix::row_over(ctx[h][matrix::inverse(p_q)[i] as int], d_v),
            ),
    )
}

/// What of the queries and keys is handed to the engine, and the stream afterwards.
pub open spec fn shipped<T>(
    ops: Ops<T>,
    s: rng::RngState,
    q: Seq<Seq<Seq<T>>>,
    k: Seq<Seq<Seq<T>>>,
    n_q: nat,
    n_kv: nat,
    d: nat,
    sigma: T,
    p_q: Seq<usize>,
    p_kv: Seq<usize>,
) -> (Seq<Seq<Seq<T>>>, Seq<Seq<Seq<T>>>, rng::RngState) {
    if (ops.lt)(ops.zero(), sigma) {
        let mid = after_noise(ops, s, q.len(), n_q, d);
        (
            with_noise(ops, s, permuted(q, p_q), n_q, d, sigma),
            transposed(with_noise(ops, mid, permuted(k, p_kv), n_kv, d, sigma), d),
            after_noise(ops, mid, k.len(), n_kv, d),
        )
    } else {
        (permuted(q, p_q), transposed(permuted(k, p_kv), d), s)
    }
}

/// Reorders the rows of every matrix.
pub fn permute_heads<T: Scalar>(t: &Tensor3<T>, p: &Vec<usize>) -> (r: Tensor3<T>)
    requires
        forall|i: int| 0 <= i < p@.len() ==> #[trigger] p@[i] < t.height(),
    ensures
        r@ == permuted(t@, p@),
        r.height() == p@.len(),
        r.width() == t.width(),
{
    let (heads, n, d) = t.dim();
    let m: usize = p.len();
    let mut out: Vec<Matrix<T>> = Vec::new();
    for h in 0..heads
        invariant
            forall|i: int| 0 <= i < p@.len() ==> #[trigger] p@[i] < t.height(),
            heads == t@.len(),
            d == t.width(),
            m == p@.len(),
            out@.len() == h,
            forall|g: int| 0 <= g < h ==> (#[trigger] out@[g])@ == matrix::permuted_rows(t@[g], p@),
            forall|g: int| 0 <= g < h ==> (#[trigger] out@[g]).width() == d,
    {
        let x = t.head(h).permute_rows(p);
        out.push(x);
    }
    let r: Tensor3<T> = Tensor3::of_heads(out, m, d);
    assert(r@ =~= permuted(t@, p@));
    r
}

/// Transposes every matrix.
pub fn transpose_heads<T: Scalar>(t: &Tensor3<T>) -> (r: Tensor3<T>)
    ensures
        r@ == transposed(t@, t.width()),
        r.height() == t.width(),
        r.width() == t.height(),
{
    let (heads, n, d) = t.dim();
    let mut out: Vec<Matrix<T>> = Vec::new();
    for h in 0..heads
        invariant
            heads == t@.len(),
            n == t.height(),
            d == t.width(),
            out@.len() == h,
            forall|g: int| 0 <= g < h ==> (#[trigger] out@[g])@ == matrix::transpose(t@[g], d as nat),
            forall|g: int| 0 <= g < h ==> (#[trigger] out@[g]).width() == n,
            forall|g: int| 0 <= g < h ==> (#[trigger] out@[g])@.len() == d,
    {
        let x = t.head(h).transposed();
        out.push(x);
    }
    let r: Tensor3<T> = Tensor3::of_heads(out, d, n);
    assert(r@ =~= transposed(t@, d as nat));
    r
}

/// Adds Gaussian noise of deviation `sigma` to every entry.
pub fn add_gaussian<T: Scalar>(t: &Tensor3<T>, sigma: T, rng: &mut MaskRng) -> (r: Tensor3<T>)
    ensures
        r@ == with_noise(T::ops(), old(rng)@, t@, t.height(), t.width(), sigma),
        r.height() == t.height(),
        r.width() == t.width(),
        final(rng)@ == after_noise(T::ops(), old(rng)@, t@.len(), t.height(), t.width()),
{
    let ghost start = rng@;
    let (heads, n, d) = t.dim();
    let ghost target = with_noise(T::ops(), start, t@, n as nat, d as nat, sigma);
    let mut out: Vec<Matrix<T>> = Vec::new();
    for h in 0..heads
        invariant
            heads == t@.len(),
            n == t.height(),
            d == t.width(),
            rng@ == after_noise(T::ops(), start, h as nat, n as nat, d as nat),
            target == with_noise(T::ops(), start, t@, n as nat, d as nat, sigma),
            out@.len() == h,
            forall|g: int| 0 <= g < h ==> (#[trigger] out@[g])@ == target[g],
            forall|g: int| 0 <= g < h ==> (#[trigger] out@[g]).width() == d,
            forall|g: int| 0 <= g < h ==> (#[trigger] out@[g])@.len() == n,
    {
        let noise: Matrix<T> = gaussian::sample_normal(n, d, sigma, rng);
        let x = t.head(h).plus(&noise);
        out.push(x);
    }
    let r: Tensor3<T> = Tensor3::of_heads(out, n, d);
    assert(r@ =~= target);
    r
}

/// Scales and masks the scores of one head.
fn mask_head<T: Scalar>(
    scores: &Matrix<T>,
    scale: T,
    mask: AttentionMask,
    penalty: T,
    p_q: &Vec<usize>,
    p_kv: &Vec<usize>,
    offset: usize,
) -> (r: Matrix<T>)
    requires
        mask == AttentionMask::Causal ==> {
            &&& scores@.len() == p_q@.len()
            &&& scores.width() == p_kv@.len()
        },
        forall|i: int| 0 <= i < p_q@.len() ==> offset + #[trigger] p_q@[i] <= usize::MAX,
    ensures
        r@.len() == scores@.len(),
        r@ == masked_scores(
            T::ops(),
            scores@,
            scale,
            mask,
            penalty,
            p_q@,
            p_kv@,
            offset as nat,
        ),
        r.width() == scores.width(),
{
    let n: usize = scores.nrows();
    let w: usize = scores.ncols();
    let bar: T = penalty.negated();
    let zero: T = T::from_int(0);
    let ghost target = masked_scores(
        T::ops(),
        scores@,
        scale,
        mask,
        penalty,
        p_q@,
        p_kv@,
        offset as nat,
    );
    let mut rows: Vec<Vec<T>> = Vec::new();
    for i in 0..n
        invariant
            n == scores@.len(),
            w == scores.width(),
            matrix::is_grid(scores@, n as nat, w as nat),
            mask == AttentionMask::Causal ==> n == p_q@.len() && w == p_kv@.len(),
            forall|i: int| 0 <= i < p_q@.len() ==> offset + #[trigger] p_q@[i] <= usize::MAX,
            bar == (T::ops().neg)(penalty),
            zero == T::ops().zero(),
            target == masked_scores(
                T::ops(),
                scores@,
                scale,
                mask,
                penalty,
                p_q@,
                p_kv@,
                offset as nat,
            ),
            rows@.len() == i,
            forall|a: int| 0 <= a < i ==> #[trigger] rows@[a]@ == target[a],
            forall|a: int| 0 <= a < i ==> #[trigger] rows@[a]@.len() == w,
    {
        let own: usize = match mask {
            AttentionMask::Unmasked => 0,
            AttentionMask::Causal => {
                assert(offset + p_q@[i as int] <= usize::MAX);
                offset + p_q[i]
            },
        };
        let mut row: Vec<T> = Vec::new();
        for j in 0..w
            invariant
                n == scores@.len(),
                w == scores.width(),
                matrix::is_grid(scores@, n as nat, w as nat),
                i < n,
                mask == AttentionMask::Causal ==> {
                    &&& n == p_q@.len()
                    &&& w == p_kv@.len()
                    &&& own == offset + p_q@[i as int]
                },
                bar == (T::ops().neg)(penalty),
                zero == T::ops().zero(),
                target == masked_scores(
                    T::ops(),
                    scores@,
                    scale,
                    mask,
                    penalty,
                    p_q@,
                    p_kv@,
                    offset as nat,
                ),
                row@.len() == j,
                forall|b: int| 0 <= b < j ==> #[trigger] row@[b] == target[i as int][b],
        {
            let x: T = scores.get(i, j).times(scale);
            let y: T = match mask {
                AttentionMask::Unmasked => x,
                AttentionMask::Causal => if p_kv[j] > own {
                    x.plus(bar)
                } else {
                    x.plus(zero)
                },
            };
            row.push(y);
        }
        assert(row@ =~= target[i as int]);
        rows.push(row);
    }
    let m: Matrix<T> = Matrix::of_rows(rows, w);
    assert(m@ =~= target);
    m
}

/// Attention weights of one head.
fn head_weights<T: Scalar>(
    scores: &Matrix<T>,
    scale: T,
    mask: AttentionMask,
    penalty: T,
    p_q: &Vec<usize>,
    p_kv: &Vec<usize>,
    offset: usize,
) -> (r: Matrix<T>)
    requires
        p_q@.len() <= p_kv@.len(),
        scores@.len() == p_q@.len() || scores@.len() == 1,
        scores.width() == p_kv@.len() || scores.width() == 1,
        mask == AttentionMask::Causal && p_q@.len() > 0 ==> {
            &&& scores@.len() == p_q@.len()
            &&& scores.width() == p_kv@.len()
        },
        forall|i: int| 0 <= i < p_q@.len() ==> offset + #[trigger] p_q@[i] <= usize::MAX,
    ensures
        r@ == matrix::spread_over(
            softmax::softmax_rows(
                T::ops(),
                masked_scores(
                    T::ops(),
                    scores@,
                    scale,
                    mask,
                    penalty,
                    p_q@,
                    p_kv@,
                    offset as nat,
                ),
            ),
            p_q@.len(),
            p_kv@.len(),
        ),
        r@.len() == p_q@.len(),
        r.width() == p_kv@.len(),
{
    if p_q.len() == 0 {
        return Matrix::zeros(0, p_kv.len());
    }
    let masked: Matrix<T> = mask_head(scores, scale, mask, penalty, p_q, p_kv, offset);
    let x: Matrix<T> = softmax::softmax_rowwise(&masked);
    matrix::spread(x, p_q.len(), p_kv.len()).unwrap()
}

/// Attention weights from the engine's scores: scaled, masked, softmaxed.
pub fn attention_weights<T: Scalar>(
    scores: &Tensor3<T>,
    heads: usize,
    scale: T,
    mask: AttentionMask,
    penalty: T,
    p_q: &Vec<usize>,
    p_kv: &Vec<usize>,
    offset: usize,
) -> (r: Tensor3<T>)
    requires
        p_q@.len() <= p_kv@.len(),
        usable_scores(*scores, heads as nat, p_q@.len(), p_kv@.len(), mask),
        forall|i: int| 0 <= i < p_q@.len() ==> offset + #[trigger] p_q@[i] <= usize::MAX,
    ensures
        r@ == weights(
            T::ops(),
            scores@,
            heads as nat,
            scale,
            mask,
            penalty,
            p_q@,
            p_kv@,
            offset as nat,
        ),
        r.height() == p_q@.len(),
        r.width() == p_kv@.len(),
{
    let n: usize = p_q.len();
    let w: usize = p_kv.len();
    let ghost target = weights(
        T::ops(),
        scores@,
        heads as nat,
        scale,
        mask,
        penalty,
        p_q@,
        p_kv@,
        offset as nat,
    );
    let mut out: Vec<Matrix<T>> = Vec::new();
    for h in 0..heads
        invariant
            n == p_q@.len(),
            w == p_kv@.len(),
            n <= w,
            usable_scores(*scores, heads as nat, n as nat, w as nat, mask),
            forall|i: int| 0 <= i < p_q@.len() ==> offset + #[trigger] p_q@[i] <= usize::MAX,
            target == weights(
                T::ops(),
                scores@,
                heads as nat,
                scale,
                mask,
                penalty,
                p_q@,
                p_kv@,
                offset as nat,
            ),
            out@.len() == h,
            forall|g: int| 0 <= g < h ==> (#[trigger] out@[g])@ == target[g],
            forall|g: int| 0 <= g < h ==> (#[trigger] out@[g]).width() == w,
            forall|g: int| 0 <= g < h ==> (#[trigger] out@[g])@.len() == n,
    {
        let x = head_weights(scores.head(h), scale, mask, penalty, p_q, p_kv, offset);
        out.push(x);
    }
    let r: Tensor3<T> = Tensor3::of_heads(out, n, w);
    assert(r@ =~= target);
    r
}

/// The rows of every head's context back in order.
fn restore_rows<T: Scalar>(ctx: &Tensor3<T>, heads: usize, p_q: &Vec<usize>, d_v: usize) -> (r:
    Tensor3<T>)
    requires
        rng::is_permutation(p_q@, p_q@.len()),
        usable_context(*ctx, heads as nat, p_q@.len(), d_v as nat),
    ensures
        r@ == restored(ctx@, heads as nat, p_q@, d_v as nat),
        r.height() == p_q@.len(),
        r.width() == d_v,
{
    let n: usize = p_q.len();
    let back: Vec<usize> = matrix::invert(p_q);
    let ghost target = restored(ctx@, heads as nat, p_q@, d_v as nat);
    let mut out: Vec<Matrix<T>> = Vec::new();
    for h in 0..heads
        invariant
            n == p_q@.len(),
            back@ == matrix::inverse(p_q@),
            back@.len() == n,
            forall|i: int| 0 <= i < back@.len() ==> #[trigger] back@[i] < n,
            usable_context(*ctx, heads as nat, n as nat, d_v as nat),
            target == restored(ctx@, heads as nat, p_q@, d_v as nat),
            out@.len() == h,
            forall|g: int| 0 <= g < h ==> (#[trigger] out@[g])@ == target[g],
            forall|g: int| 0 <= g < h ==> (#[trigger] out@[g]).width() == d_v,
            forall|g: int| 0 <= g < h ==> (#[trigger] out@[g])@.len() == n,
    {
        let x: Matrix<T> = if n == 0 {
            Matrix::zeros(0, d_v)
        } else {
            let rows: Matrix<T> = ctx.head(h).permute_rows(&back);
            matrix::spread(rows, n, d_v).unwrap()
        };
        assert(x@ =~= target[h as int]);
        out.push(x);
    }
    let r: Tensor3<T> = Tensor3::of_heads(out, n, d_v);
    assert(r@ =~= target);
    r
}

/// A stack of so many matrices of so many rows and columns.
pub open spec fn shaped<T>(t: &Tensor3<T>, heads: nat, rows: nat, cols: nat) -> bool {
    t.regular() && t@.len() == heads && t.height() == rows && t.width() == cols
}

/// One run of the protocol: `q` and `kt` go to the engine, the weights made of its answer
/// and the reordered values go to it next, and `out` is the second answer with its rows
/// back in order.
pub open spec fn protocol_run<T: Scalar, E: GpuOffloadEngine<T>>(
    engine: &E,
    q: Seq<Seq<Seq<T>>>,
    kt: Seq<Seq<Seq<T>>>,
    v: Seq<Seq<Seq<T>>>,
    d: nat,
    d_v: nat,
    scale: T,
    mask: AttentionMask,
    penalty: T,
    p_q: Seq<usize>,
    p_kv: Seq<usize>,
    offset: nat,
    out: Seq<Seq<Seq<T>>>,
) -> bool {
    exists|
        a: &Tensor3<T>,
        b: &Tensor3<T>,
        scores: Tensor3<T>,
        w: &Tensor3<T>,
        c: &Tensor3<T>,
        ctx: Tensor3<T>,
    |
        {
            &&& #[trigger] substrate::answers_batched(
                engine,
                a,
                b,
                Ok::<Tensor3<T>, OffloadError>(scores),
            )
            &&& #[trigger] substrate::answers_batched(
                engine,
                w,
                c,
                Ok::<Tensor3<T>, OffloadError>(ctx),
            )
            &&& a@ == q
            &&& shaped(a, q.len(), p_q.len(), d)
            &&& b@ == kt
            &&& shaped(b, q.len(), d, p_kv.len())
            &&& usable_scores(scores, q.len(), p_q.len(), p_kv.len(), mask)
            &&& w@ == weights(T::ops(), scores@, q.len(), scale, mask, penalty, p_q, p_kv, offset)
            &&& shaped(w, q.len(), p_q.len(), p_kv.len())
            &&& c@ == permuted(v, p_kv)
            &&& shaped(c, q.len(), p_kv.len(), d_v)
            &&& usable_context(ctx, q.len(), p_q.len(), d_v)
            &&& out == restored(ctx@, q.len(), p_q, d_v)
        }
}

/// How a run of the protocol ends in the error `e`: the engine refuses the first or the
/// second product, or answers one of them in a shape that cannot be used.
pub open spec fn protocol_failure<T: Scalar, E: GpuOffloadEngine<T>>(
    engine: &E,
    q: Seq<Seq<Seq<T>>>,
    kt: Seq<Seq<Seq<T>>>,
    v: Seq<Seq<Seq<T>>>,
    d: nat,
    d_v: nat,
    scale: T,
    mask: AttentionMask,
    penalty: T,
    p_q: Seq<usize>,
    p_kv: Seq<usize>,
    offset: nat,
    e: OffloadError,
) -> bool {
    ||| refused_or_misshapen(
        engine,
        q,
        kt,
        q.len(),
        p_q.len(),
        d,
        p_kv.len(),
        |t: Tensor3<T>| usable_scores(t, q.len(), p_q.len(), p_kv.len(), mask),
        e,
    )
    ||| exists|a: &Tensor3<T>, b: &Tensor3<T>, scores: Tensor3<T>|
        {
            &&& #[trigger] substrate::answers_batched(
                engine,
                a,
                b,
                Ok::<Tensor3<T>, OffloadError>(scores),
            )
            &&& a@ == q
            &&& shaped(a, q.len(), p_q.len(), d)
            &&& b@ == kt
            &&& shaped(b, q.len(), d, p_kv.len())
            &&& usable_scores(scores, q.len(), p_q.len(), p_kv.len(), mask)
            &&& refused_or_misshapen(
                engine,
                weights(T::ops(), scores@, q.len(), scale, mask, penalty, p_q, p_kv, offset),
                permuted(v, p_kv),
                q.len(),
                p_q.len(),
                p_kv.len(),
                d_v,
                |t: Tensor3<T>| usable_context(t, q.len(), p_q.len(), d_v),
                e,
            )
        }
}

/// The engine refuses a product with `e`, or answers it in a shape that cannot be used.
pub open spec fn refused_or_misshapen<T: Scalar, E: GpuOffloadEngine<T>>(
    engine: &E,
    lhs: Seq<Seq<Seq<T>>>,
    rhs: Seq<Seq<Seq<T>>>,
    heads: nat,
    rows: nat,
    inner: nat,
    cols: nat,
    usable: spec_fn(Tensor3<T>) -> bool,
    e: OffloadError,
) -> bool {
    exists|a: &Tensor3<T>, b: &Tensor3<T>, r: Result<Tensor3<T>, OffloadError>|
        {
            &&& #[trigger] substrate::answers_batched(engine, a, b, r)
            &&& a@ == lhs
            &&& shaped(a, heads, rows, inner)
            &&& b@ == rhs
            &&& shaped(b, heads, inner, cols)
            &&& match r {
                Err(x) => x == e,
                Ok(t) => e == OffloadError::AnswerShape && !usable(t),
            }
        }
}

/// The protocol between sampling the permutations and returning.
fn run_protocol<T: Scalar, E: GpuOffloadEngine<T>>(
    engine: &E,
    q: &Tensor3<T>,
    k: &Tensor3<T>,
    v: &Tensor3<T>,
    scale: T,
    offset: usize,
    mask: AttentionMask,
    cfg: PermAttnConfig<T>,
    p_q: &Vec<usize>,
    p_kv: &Vec<usize>,
    rng: &mut MaskRng,
) -> (r: Result<Tensor3<T>, OffloadError>)
    requires
        q@.len() == k@.len(),
        q@.len() == v@.len(),
        q.width() == k.width(),
        v.height() == k.height(),
        q.height() <= k.height(),
        rng::is_permutation(p_q@, q.height()),
        rng::is_permutation(p_kv@, k.height()),
        offset + q.height() <= usize::MAX,
    ensures
        ({
            let sent = shipped(
                T::ops(),
                old(rng)@,
                q@,
                k@,
                q.height(),
                k.height(),
                q.width(),
                cfg.noise_sigma,
                p_q@,
                p_kv@,
            );
            &&& final(rng)@ == sent.2
            &&& r matches Ok(out) ==> {
                &&& out@.len() == q@.len()
                &&& out.height() == q.height()
                &&& out.width() == v.width()
                &&& protocol_run(
                    engine,
                    sent.0,
                    sent.1,
                    v@,
                    q.width(),
                    v.width(),
                    scale,
                    mask,
                    cfg.causal_mask_neg,
                    p_q@,
                    p_kv@,
                    offset as nat,
                    out@,
                )
            }
            &&& r matches Err(e) ==> protocol_failure(
                engine,
                sent.0,
                sent.1,
                v@,
                q.width(),
                v.width(),
                scale,
                mask,
                cfg.causal_mask_neg,
                p_q@,
                p_kv@,
                offset as nat,
                e,
            )
        }),
{
    let (heads, n_q, d) = q.dim();
    let (_, n_kv, _) = k.dim();
    let (_, _, d_v) = v.dim();
    let mut q_perm: Tensor3<T> = permute_heads(q, p_q);
    let mut k_perm: Tensor3<T> = permute_heads(k, p_kv);
    let v_perm: Tensor3<T> = permute_heads(v, p_kv);
    if T::from_int(0).below(cfg.noise_sigma) {
        q_perm = add_gaussian(&q_perm, cfg.noise_sigma, rng);
        k_perm = add_gaussian(&k_perm, cfg.noise_sigma, rng);
    }
    let kt_perm: Tensor3<T> = transpose_heads(&k_perm);
    let _ = q_perm.dim();
    let _ = kt_perm.dim();
    let first = engine.matmul_dynamic_batched(&q_perm, &kt_perm);
    assert(substrate::answers_batched(engine, &q_perm, &kt_perm, first));
    let scores: Tensor3<T> = match first {
        Ok(t) => t,
        Err(e) => {
            return Err(e);
        },
    };
    let ghost usable = |t: Tensor3<T>|
        usable_scores(t, heads as nat, n_q as nat, n_kv as nat, mask);
    let (s_heads, s_rows, s_cols) = scores.dim();
    let partial: bool = s_rows < n_q || s_cols < n_kv;
    if heads > 0 && (s_heads < heads || (s_rows != n_q && s_rows != 1) || (s_cols != n_kv && s_cols
        != 1) || (mask == AttentionMask::Causal && n_q > 0 && n_kv > 0 && partial)) {
        assert(!usable(scores));
        return Err(OffloadError::AnswerShape);
    }
    assert forall|i: int| 0 <= i < p_q@.len() implies offset + #[trigger] p_q@[i]
        <= usize::MAX by {
        assert(p_q@[i] < n_q);
    }
    let probs: Tensor3<T> = attention_weights(
        &scores,
        heads,
        scale,
        mask,
        cfg.causal_mask_neg,
        p_q,
        p_kv,
        offset,
    );
    let _ = probs.dim();
    let _ = v_perm.dim();
    let second = engine.matmul_dynamic_batched(&probs, &v_perm);
    assert(substrate::answers_batched(engine, &probs, &v_perm, second));
    let ctx: Tensor3<T> = match second {
        Ok(t) => t,
        Err(e) => {
            return Err(e);
        },
    };
    let ghost usable = |t: Tensor3<T>| usable_context(t, heads as nat, n_q as nat, d_v as nat);
    let (c_heads, c_rows, c_cols) = ctx.dim();
    if heads > 0 && n_q > 0 && (c_heads < heads || c_rows < n_q || (c_cols != d_v && c_cols != 1)) {
        assert(!usable(ctx));
        return Err(OffloadError::AnswerShape);
    }
    Ok(restore_rows(&ctx, heads, p_q, d_v))
}

/// The shapes of queries, keys and values.
pub open spec fn dims<T>(t: &Tensor3<T>) -> (usize, usize, usize) {
    (t@.len() as usize, t.height() as usize, t.width() as usize)
}

/// The outcome of attention over one sequence: the stream before and after, and the result.
pub open spec fn permuted_run<T: Scalar, E: GpuOffloadEngine<T>>(
    engine: &E,
    q: &Tensor3<T>,
    k: &Tensor3<T>,
    v: &Tensor3<T>,
    scale: T,
    mask: AttentionMask,
    cfg: PermAttnConfig<T>,
    s: rng::RngState,
    r: Result<Tensor3<T>, OffloadError>,
    after: rng::RngState,
) -> bool {
    if dims(k) != dims(q) {
        &&& r == Err::<Tensor3<T>, OffloadError>(
            OffloadError::AttentionKeyShape { k: dims(k), q: dims(q) },
        )
        &&& after == s
    } else if dims(v) != dims(q) {
        &&& r == Err::<Tensor3<T>, OffloadError>(
            OffloadError::AttentionValueShape { v: dims(v), q: dims(q) },
        )
        &&& after == s
    } else {
        let n = q.height();
        let p = rng::drawn_perm(s, n);
        let sent = shipped(
            T::ops(),
            rng::after_perm(s, n),
            q@,
            k@,
            n,
            n,
            q.width(),
            cfg.noise_sigma,
            p,
            p,
        );
        &&& rng::is_permutation(p, n)
        &&& after == sent.2
        &&& r matches Ok(out) ==> {
            &&& dims(&out) == dims(q)
            &&& protocol_run(
                engine,
                sent.0,
                sent.1,
                v@,
                q.width(),
                v.width(),
                scale,
                mask,
                cfg.causal_mask_neg,
                p,
                p,
                0,
                out@,
            )
        }
        &&& r matches Err(e) ==> protocol_failure(
            engine,
            sent.0,
            sent.1,
            v@,
            q.width(),
            v.width(),
            scale,
            mask,
            cfg.causal_mask_neg,
            p,
            p,
            0,
            e,
        )
    }
}

/// Attention of every head under one permutation shared by queries, keys and values.
/// Keys, then values, of another shape than the queries are refused.
pub fn permuted_attention<T: Scalar, E: GpuOffloadEngine<T>>(
    engine: &E,
    q: &Tensor3<T>,
    k: &Tensor3<T>,
    v: &Tensor3<T>,
    scale: T,
    mask: AttentionMask,
    cfg: PermAttnConfig<T>,
    rng: &mut MaskRng,
) -> (r: Result<Tensor3<T>, OffloadError>)
    ensures
        permuted_run(engine, q, k, v, scale, mask, cfg, old(rng)@, r, final(rng)@),
{
    let q_dim: (usize, usize, usize) = q.dim();
    let k_dim: (usize, usize, usize) = k.dim();
    if k_dim.0 != q_dim.0 || k_dim.1 != q_dim.1 || k_dim.2 != q_dim.2 {
        return Err(OffloadError::AttentionKeyShape { k: k_dim, q: q_dim });
    }
    let v_dim: (usize, usize, usize) = v.dim();
    if v_dim.0 != q_dim.0 || v_dim.1 != q_dim.1 || v_dim.2 != q_dim.2 {
        return Err(OffloadError::AttentionValueShape { v: v_dim, q: q_dim });
    }
    let perm: Vec<usize> = rng.permutation(q_dim.1);
    run_protocol(engine, q, k, v, scale, 0, mask, cfg, &perm, &perm, rng)
}

/// The outcome of attention over a cache: the stream before and after, and the result.
pub open spec fn cached_run<T: Scalar, E: GpuOffloadEngine<T>>(
    engine: &E,
    q: &Tensor3<T>,
    k: &Tensor3<T>,
    v: &Tensor3<T>,
    scale: T,
    q_pos_offset: usize,
    mask: AttentionMask,
    cfg: PermAttnConfig<T>,
    s: rng::RngState,
    r: Result<Tensor3<T>, OffloadError>,
    after: rng::RngState,
) -> bool {
    let n_q = q.height();
    let n_kv = k.height();
    let expected = (dims(q).0, dims(k).1, dims(q).2);
    if dims(k) != expected {
        &&& r == Err::<Tensor3<T>, OffloadError>(
            OffloadError::CachedKeyShape { k: dims(k), expected },
        )
        &&& after == s
    } else if dims(v) != expected {
        &&& r == Err::<Tensor3<T>, OffloadError>(
            OffloadError::CachedValueShape { v: dims(v), expected },
        )
        &&& after == s
    } else if n_q > n_kv {
        &&& r == Err::<Tensor3<T>, OffloadError>(
            OffloadError::TooManyQueries { n_q: n_q as usize, n_kv: n_kv as usize },
        )
        &&& after == s
    } else if q_pos_offset + n_q > n_kv {
        &&& r == Err::<Tensor3<T>, OffloadError>(
            OffloadError::QueriesPastCache {
                q_pos_offset,
                n_q: n_q as usize,
                n_kv: n_kv as usize,
            },
        )
        &&& after == s
    } else {
        let mid = rng::after_perm(s, n_q);
        let p_q = rng::drawn_perm(s, n_q);
        let p_kv = rng::drawn_perm(mid, n_kv);
        let sent = shipped(
            T::ops(),
            rng::after_perm(mid, n_kv),
            q@,
            k@,
            n_q,
            n_kv,
            q.width(),
            cfg.noise_sigma,
            p_q,
            p_kv,
        );
        &&& rng::is_permutation(p_q, n_q)
        &&& rng::is_permutation(p_kv, n_kv)
        &&& after == sent.2
        &&& r matches Ok(out) ==> {
            &&& dims(&out) == dims(q)
            &&& protocol_run(
                engine,
                sent.0,
                sent.1,
                v@,
                q.width(),
                v.width(),
                scale,
                mask,
                cfg.causal_mask_neg,
                p_q,
                p_kv,
                q_pos_offset as nat,
                out@,
            )
        }
        &&& r matches Err(e) ==> protocol_failure(
            engine,
            sent.0,
            sent.1,
            v@,
            q.width(),
            v.width(),
            scale,
            mask,
            cfg.causal_mask_neg,
            p_q,
            p_kv,
            q_pos_offset as nat,
            e,
        )
    }
}

/// Attention of queries over a longer cache of keys and values, under two independent
/// permutations; query `i` stands at position `q_pos_offset + i`. Refused, in this order:
/// keys or values of the wrong shape, more queries than cached positions, queries past the
/// cache.
pub fn permuted_attention_cached<T: Scalar, E: GpuOffloadEngine<T>>(
    engine: &E,
    q: &Tensor3<T>,
    k: &Tensor3<T>,
    v: &Tensor3<T>,
    scale: T,
    q_pos_offset: usize,
    mask: AttentionMask,
    cfg: PermAttnConfig<T>,
    rng: &mut MaskRng,
) -> (r: Result<Tensor3<T>, OffloadError>)
    ensures
        cached_run(
            engine,
            q,
            k,
            v,
            scale,
            q_pos_offset,
            mask,
            cfg,
            old(rng)@,
            r,
            final(rng)@,
        ),
{
    let (heads, n_q, d) = q.dim();
    let k_dim: (usize, usize, usize) = k.dim();
    let n_kv: usize = k_dim.1;
    let expected: (usize, usize, usize) = (heads, n_kv, d);
    if k_dim.0 != heads || k_dim.2 != d {
        return Err(OffloadError::CachedKeyShape { k: k_dim, expected });
    }
    let v_dim: (usize, usize, usize) = v.dim();
    if v_dim.0 != heads || v_dim.1 != n_kv || v_dim.2 != d {
        return Err(OffloadError::CachedValueShape { v: v_dim, expected });
    }
    if n_q > n_kv {
        return Err(OffloadError::TooManyQueries { n_q, n_kv });
    }
    if q_pos_offset > n_kv - n_q {
        return Err(OffloadError::QueriesPastCache { q_pos_offset, n_q, n_kv });
    }
    let perm_q: Vec<usize> = rng.permutation(n_q);
    let perm_kv: Vec<usize> = rng.permutation(n_kv);
    run_protocol(engine, q, k, v, scale, q_pos_offset, mask, cfg, &perm_q, &perm_kv, rng)
}

/// Scores of one head without any shielding: scaled, and the lowest value where the key
/// comes after the query.
pub open spec fn plain_scores<T>(
    ops: Ops<T>,
    q: Seq<Seq<T>>,
    k: Seq<Seq<T>>,
    d: nat,
    scale: T,
    mask: AttentionMask,
) -> Seq<Seq<T>> {
    let s = matrix::product(ops, q, matrix::transpose(k, d), k.len());
    Seq::new(
        q.len(),
        |i: int|
            Seq::new(
                k.len(),
                |j: int|
                    if mask == AttentionMask::Causal && j > i {
                        ops.lowest
                    } else {
                        (ops.mul)(s[i][j], scale)
                    },
            ),
    )
}

/// Attention of one head without any shielding.
pub open spec fn plain_head<T>(
    ops: Ops<T>,
    q: Seq<Seq<T>>,
    k: Seq<Seq<T>>,
    v: Seq<Seq<T>>,
    d: nat,
    scale: T,
    mask: AttentionMask,
) -> Seq<Seq<T>> {
    let s = plain_scores(ops, q, k, d, scale, mask);
    matrix::product(
        ops,
        Seq::new(s.len(), |i: int| softmax::guarded_softmax(ops, s[i])),
        v,
        d,
    )
}

/// Attention of one head without any shielding, for values that are `d_v` wide: values of a
/// single entry stand for all.
pub open spec fn plain_rows<T>(
    ops: Ops<T>,
    q: Seq<Seq<T>>,
    k: Seq<Seq<T>>,
    v: Seq<Seq<T>>,
    d: nat,
    d_v: nat,
    scale: T,
    mask: AttentionMask,
) -> Seq<Seq<T>> {
    if d_v == d {
        plain_head(ops, q, k, v, d, scale, mask)
    } else {
        let s = plain_scores(ops, q, k, d, scale, mask);
        let ctx = matrix::product(
            ops,
            Seq::new(s.len(), |i: int| softmax::guarded_softmax(ops, s[i])),
            v,
            d_v,
        );
        Seq::new(ctx.len(), |i: int| matrix::row_over(ctx[i], d))
    }
}

/// The outcome of attention without any shielding. Refused, where there are heads: keys, then
/// values, that do not fit the queries.
pub open spec fn plain_run<T: Scalar>(
    q: &Tensor3<T>,
    k: &Tensor3<T>,
    v: &Tensor3<T>,
    scale: T,
    mask: AttentionMask,
    r: Result<Tensor3<T>, OffloadError>,
) -> bool {
    let d = q.width();
    if q@.len() > 0 && (k@.len() < q@.len() || k.width() != d) {
        r == Err::<Tensor3<T>, OffloadError>(
            OffloadError::AttentionKeyShape { k: dims(k), q: dims(q) },
        )
    } else if q@.len() > 0 && (v@.len() < q@.len() || v.height() != k.height() || (v.width() != d
        && v.width() != 1)) {
        r == Err::<Tensor3<T>, OffloadError>(
            OffloadError::AttentionValueShape { v: dims(v), q: dims(q) },
        )
    } else {
        r matches Ok(out) && {
            &&& out@ == Seq::new(
                q@.len(),
                |h: int| plain_rows(T::ops(), q@[h], k@[h], v@[h], d, v.width(), scale, mask),
            )
            &&& out.height() == q.height()
            &&& out.width() == d
        }
    }
}

fn plain_attention_head<T: Scalar>(
    q: &Matrix<T>,
    k: &Matrix<T>,
    v: &Matrix<T>,
    scale: T,
    mask: AttentionMask,
) -> (r: Matrix<T>)
    requires
        k.width() == q.width(),
        v.width() == q.width() || v.width() == 1,
        v@.len() == k@.len(),
    ensures
        r@ == plain_rows(T::ops(), q@, k@, v@, q.width(), v.width(), scale, mask),
        r@.len() == q@.len(),
        r.width() == q.width(),
{
    let n: usize = q.nrows();
    let d: usize = q.ncols();
    let m: usize = k.nrows();
    let raw: Matrix<T> = q.times(&k.transposed());
    let ghost target = plain_scores(T::ops(), q@, k@, d as nat, scale, mask);
    let mut rows: Vec<Vec<T>> = Vec::new();
    for i in 0..n
        invariant
            n == q@.len(),
            m == k@.len(),
            raw@ == matrix::product(
                T::ops(),
                q@,
                matrix::transpose(k@, d as nat),
                m as nat,
            ),
            raw@.len() == n,
            raw.width() == m,
            target == plain_scores(T::ops(), q@, k@, d as nat, scale, mask),
            rows@.len() == i,
            forall|a: int|
                0 <= a < i ==> #[trigger] rows@[a]@ == softmax::guarded_softmax(
                    T::ops(),
                    target[a],
                ),
            forall|a: int| 0 <= a < i ==> #[trigger] rows@[a]@.len() == m,
    {
        let mut row: Vec<T> = Vec::new();
        for j in 0..m
            invariant
                i < n,
                n == q@.len(),
                m == k@.len(),
                raw@ == matrix::product(
                    T::ops(),
                    q@,
                    matrix::transpose(k@, d as nat),
                    m as nat,
                ),
                raw@.len() == n,
                raw.width() == m,
                target == plain_scores(T::ops(), q@, k@, d as nat, scale, mask),
                row@.len() == j,
                forall|b: int| 0 <= b < j ==> #[trigger] row@[b] == target[i as int][b],
        {
            let x: T = if mask == AttentionMask::Causal && j > i {
                T::lowest()
            } else {
                raw.get(i, j).times(scale)
            };
            row.push(x);
        }
        assert(row@ =~= target[i as int]);
        let probs = softmax::guarded_softmax_row(&row);
        rows.push(probs);
    }
    let probs: Matrix<T> = Matrix::of_rows(rows, m);
    assert(probs@ =~= Seq::new(
        target.len(),
        |i: int| softmax::guarded_softmax(T::ops(), target[i]),
    ));
    let ghost ctx = matrix::product(T::ops(), probs@, v@, v.width());
    let rows: Matrix<T> = probs.times(v);
    let _ = rows.nrows();
    if rows.ncols() == d {
        return rows;
    }
    let wide: Matrix<T> = matrix::spread(rows, n, d).unwrap();
    assert(wide@ =~= Seq::new(ctx.len(), |i: int| matrix::row_over(ctx[i], d as nat)));
    wide
}

/// Attention without any shielding.
pub fn plain_attention<T: Scalar>(
    q: &Tensor3<T>,
    k: &Tensor3<T>,
    v: &Tensor3<T>,
    scale: T,
    mask: AttentionMask,
) -> (r: Result<Tensor3<T>, OffloadError>)
    ensures
        plain_run(q, k, v, scale, mask, r),
{
    let q_dim: (usize, usize, usize) = q.dim();
    let k_dim: (usize, usize, usize) = k.dim();
    let v_dim: (usize, usize, usize) = v.dim();
    let (heads, n, d) = q_dim;
    if heads > 0 && (k_dim.0 < heads || k_dim.2 != d) {
        return Err(OffloadError::AttentionKeyShape { k: k_dim, q: q_dim });
    }
    if heads > 0 && (v_dim.0 < heads || v_dim.1 != k_dim.1 || (v_dim.2 != d && v_dim.2 != 1)) {
        return Err(OffloadError::AttentionValueShape { v: v_dim, q: q_dim });
    }
    let ghost target = Seq::new(
        q@.len(),
        |h: int|
            plain_rows(T::ops(), q@[h], k@[h], v@[h], q.width(), v.width(), scale, mask),
    );
    let mut outs: Vec<Matrix<T>> = Vec::new();
    for h in 0..heads
        invariant
            heads == q@.len(),
            n == q.height(),
            d == q.width(),
            heads > 0 ==> {
                &&& k@.len() >= heads
                &&& k.width() == d
                &&& v@.len() >= heads
                &&& v.height() == k.height()
                &&& v.width() == d || v.width() == 1
            },
            target == Seq::new(
                q@.len(),
                |h: int|
                    plain_rows(T::ops(), q@[h], k@[h], v@[h], q.width(), v.width(), scale, mask),
            ),
            outs@.len() == h,
            forall|g: int| 0 <= g < h ==> (#[trigger] outs@[g])@ == target[g],
            forall|g: int|
                0 <= g < h ==> (#[trigger] outs@[g])@.len() == n && outs@[g].width() == d,
    {
        let out = plain_attention_head(q.head(h), k.head(h), v.head(h), scale, mask);
        outs.push(out);
    }
    let out: Tensor3<T> = Tensor3::of_heads(outs, n, d);
    assert(out@ =~= target);
    Ok(out)
}

} // verus!
