//! What of the random stream goes into the secrets, so that what the engine sees depends on it:
//! the orders, the signs, the dense masks, the blinding and the noise.

use vstd::arithmetic::power2::pow2;
use vstd::bits::lemma_u32_shr_is_div;
use vstd::prelude::*;

use crate::attention;
use crate::dct4;
use crate::error::OffloadError;
use crate::exact;
use crate::executor::Exec;
use crate::gaussian;
use crate::haar;
use crate::hd3;
use crate::householder;
use crate::mask;
use crate::mask::MaskKind;
use crate::matrix;
use crate::matrix::Matrix;
use crate::out_attn_mult;
use crate::rng;
use crate::scalar::Ops;
use crate::shield;
use crate::snapshot;
use crate::soundness;
use crate::substrate::WeightHandle;

verus! {

/// An order that is drawn is what shuffling `0, 1, .., n - 1` at that place of the stream gives,
/// and the stream goes on where the shuffle left it.
pub proof fn law_orders_are_shuffled(s: rng::RngState, n: nat)
    ensures
        ({
            let shuffled = rng::shuffle_outcome(
                Seq::new(n, |i: int| i as usize),
                s.seed,
                s.stream,
                s.word_pos,
            );
            &&& rng::drawn_perm(s, n) == shuffled.0
            &&& rng::after_perm(s, n).word_pos == shuffled.1
            &&& rng::after_perm(s, n).seed == s.seed
            &&& rng::after_perm(s, n).stream == s.stream
        }),
{
    assert(Seq::new(n, |i: int| i as usize) =~= rng::identity_perm(n));
}

/// Binary digit `k` of a word.
pub open spec fn is_set(w: u32, k: nat) -> bool {
    (w as int / pow2(k) as int) % 2 == 1
}

proof fn lemma_bit(w: u32, k: int)
    requires
        0 <= k < 32,
    ensures
        hd3::bit(w, k) == is_set(w, k as nat),
{
    let sh = k as u32;
    lemma_u32_shr_is_div(w, sh);
    let x = w >> sh;
    assert(x & 1u32 == x % 2u32) by (bit_vector);
}

/// Every sign of a cascade is a binary digit of its own: those of the three diagonals come from
/// the words of the stream in turn, 32 to a word, lowest digit first.
pub proof fn law_signs_are_digits_of_the_stream<T>(
    ops: Ops<T>,
    s: rng::RngState,
    n: nat,
    i: int,
)
    requires
        0 <= i < n,
    ensures
        ({
            let words = ((n + 31) / 32) as nat;
            let at = (i / 32) as nat;
            let k = (i % 32) as nat;
            let c = hd3::sampled(ops, s, n);
            let e = dct4::sampled(ops, s, n);
            &&& c.d1.len() == n && c.d2.len() == n && c.d3.len() == n
            &&& c.d1[i] == is_set(rng::word_at(s, at), k)
            &&& c.d2[i] == is_set(rng::word_at(s, words + at), k)
            &&& c.d3[i] == is_set(rng::word_at(s, words + words + at), k)
            &&& (e.d1, e.d2, e.d3) == (c.d1, c.d2, c.d3)
        }),
{
    let w = hd3::sign_words(n);
    let at = (i / 32) as nat;
    lemma_bit(rng::word_at(s, at), i % 32);
    lemma_bit(rng::word_at(s, w + at), i % 32);
    lemma_bit(rng::word_at(s, w + w + at), i % 32);
    rng::lemma_skip(s, w, at);
    rng::lemma_skip(s, w, w);
    rng::lemma_skip(s, w + w, at);
}

/// The square of draws that a dense mask is made of.
pub open spec fn drawn_square(ops: Ops<real>, s: rng::RngState, n: nat) -> Seq<Seq<real>> {
    Seq::new(n, |i: int| Seq::new(n, |j: int| gaussian::draw(ops, s, (i * n + j) as nat)))
}

/// A dense mask is the orthogonal factor of a square of draws, each its own: its transpose takes
/// them to an upper triangular matrix whose diagonal is not negative. Only a column that is too
/// short to be reflected keeps entries below the diagonal.
pub proof fn law_dense_mask_triangularises_the_draws(ops: Ops<real>, s: rng::RngState, n: nat)
    requires
        exact::exact(ops),
    ensures
        ({
            let r = householder::turned(ops, haar::sampled(ops, s, n), drawn_square(ops, s, n));
            &&& forall|j: int| 0 <= j < n ==> #[trigger] r[j][j] >= 0real
            &&& forall|j: int|
                0 <= j < n ==> householder::is_cleared(r, j) || #[trigger] householder::is_faint(
                    ops,
                    r,
                    j,
                )
        }),
{
    let g = gaussian::normal_rows(ops, s, n, n, ops.one());
    lemma_unit_rows(ops, s, n, n);
    assert(g =~= drawn_square(ops, s, n)) by {
        assert forall|i: int| 0 <= i < n implies #[trigger] g[i] == drawn_square(ops, s, n)[i] by {
            assert(g[i] =~= drawn_square(ops, s, n)[i]);
        }
    }
    householder::law_factor_triangularises(ops, g);
}

/// Rows of draws at deviation one.
proof fn lemma_unit_rows(ops: Ops<real>, s: rng::RngState, rows: nat, cols: nat)
    requires
        exact::exact(ops),
    ensures
        forall|i: int, j: int|
            0 <= i < rows && 0 <= j < cols ==> #[trigger] gaussian::normal_rows(
                ops,
                s,
                rows,
                cols,
                ops.one(),
            )[i][j] == gaussian::draw(ops, s, (i * cols + j) as nat),
{
    assert forall|i: int, j: int|
        0 <= i < rows && 0 <= j < cols implies #[trigger] gaussian::normal_rows(
        ops,
        s,
        rows,
        cols,
        ops.one(),
    )[i][j] == gaussian::draw(ops, s, (i * cols + j) as nat) by {
        gaussian::law_entries_are_drawn_in_turn(ops, s, rows, cols, ops.one(), i, j);
        let z = gaussian::draw(ops, s, (i * cols + j) as nat);
        assert(ops.one() == 1real);
        assert((ops.mul)(z, ops.one()) == z * 1real);
    }
}

/// A blinding scalar has a size between one half and three halves; its sign is a digit of the
/// word after the draw that gave the size.
pub proof fn law_blinding_scalars_are_bounded(ops: Ops<real>, s: rng::RngState)
    requires
        exact::exact(ops),
    ensures
        ({
            let x = out_attn_mult::drawn_scalar(ops, s).0;
            let then = (ops.uniform)(1real / 2real, 3real / 2real, s).1;
            &&& rng::word(then) % 2 == 0 ==> 1real / 2real <= x <= 3real / 2real
            &&& rng::word(then) % 2 != 0 ==> 1real / 2real <= 0real - x <= 3real / 2real
            &&& out_attn_mult::drawn_scalar(ops, s).1 == rng::skip(then, 1)
        }),
{
    let lo = (ops.div)(ops.one(), ops.two());
    let hi = (ops.div)((ops.from_int)(3), ops.two());
    assert(lo == 1real / 2real);
    assert(hi == 3real / 2real);
    assert(lo <= (ops.uniform)(lo, hi, s).0 <= hi);
    let w = rng::word((ops.uniform)(lo, hi, s).1);
    assert(w & 1u32 == w % 2u32) by (bit_vector);
}

/// What the engine sees of the queries of a head: every row twice, once with draws of the stream
/// added, once those draws alone, times a scalar that is not zero; of the keys the same by
/// columns, with the draws and the scalar that follow.
pub proof fn law_blinded_operands_are_drowned(
    ops: Ops<real>,
    s: rng::RngState,
    q: Seq<Seq<real>>,
    kt: Seq<Seq<real>>,
    n: nat,
    d: nat,
    u: int,
    t: int,
)
    requires
        exact::exact(ops),
        matrix::is_grid(q, n, d),
        matrix::is_grid(kt, d, n),
        out_attn_mult::drawn(ops, s, n, d).0.ordered(n),
        0 <= u < 2 * n,
        0 <= t < d,
    ensures
        ({
            let bl = out_attn_mult::drawn(ops, s, n, d).0;
            let x = out_attn_mult::stacked_q(ops, q, bl)[u][t];
            let i = bl.lambda_q[u] as int;
            let y = out_attn_mult::stacked_kt(ops, kt, bl)[t][u];
            let j = bl.lambda_k[u] as int;
            &&& i < n ==> x == q[i][t] + gaussian::draw(ops, s, (i * d + t) as nat)
            &&& i >= n ==> x == bl.a * gaussian::draw(ops, s, ((i - n) * d + t) as nat)
            &&& j < n ==> y == kt[t][j] + gaussian::draw(ops, s, (n * d + (t * n + j)) as nat)
            &&& j >= n ==> y == bl.b * gaussian::draw(ops, s, (n * d + (t * n + (j - n))) as nat)
        }),
        out_attn_mult::drawn(ops, s, n, d).0.a == out_attn_mult::drawn_scalar(
            ops,
            gaussian::after_normals(ops, s, n * d + d * n),
        ).0,
        out_attn_mult::drawn(ops, s, n, d).0.b == out_attn_mult::drawn_scalar(
            ops,
            out_attn_mult::drawn_scalar(ops, gaussian::after_normals(ops, s, n * d + d * n)).1,
        ).0,
        out_attn_mult::drawn(ops, s, n, d).0.a != 0real,
        out_attn_mult::drawn(ops, s, n, d).0.b != 0real,
{
    let bl = out_attn_mult::drawn(ops, s, n, d).0;
    let i = bl.lambda_q[u] as int;
    let j = bl.lambda_k[u] as int;
    let s1 = gaussian::after_normal_rows(ops, s, n, d);
    lemma_unit_rows(ops, s, n, d);
    lemma_unit_rows(ops, s1, d, n);
    gaussian::lemma_after_normal_rows(ops, s, n, d);
    gaussian::lemma_after_normal_rows(ops, s1, d, n);
    gaussian::lemma_after_normals(ops, s, n * d, d * n);
    law_blinding_scalars_are_bounded(ops, gaussian::after_normals(ops, s, n * d + d * n));
    law_blinding_scalars_are_bounded(
        ops,
        out_attn_mult::drawn_scalar(ops, gaussian::after_normals(ops, s, n * d + d * n)).1,
    );
    let rows = out_attn_mult::blinded_q(ops, q, bl);
    if i < n {
        assert(rows[i] == matrix::row_sum(ops, q[i], bl.r_q[i]));
        assert(bl.r_q[i][t] == gaussian::draw(ops, s, (i * d + t) as nat));
    } else {
        assert(rows[i] == matrix::row_scaled(ops, bl.r_q[i - n], bl.a));
        assert(bl.r_q[i - n][t] == gaussian::draw(ops, s, ((i - n) * d + t) as nat));
        exact::lemma_times_comm(bl.r_q[i - n][t], bl.a);
    }
    let row = out_attn_mult::blinded_kt(ops, kt, bl)[t];
    assert(kt[t].len() == n);
    assert(t * n >= 0) by (nonlinear_arith)
        requires
            t >= 0,
    ;
    let c = if j < n {
        j
    } else {
        j - n
    };
    gaussian::lemma_after_normals(ops, s, n * d, (t * n + c) as nat);
    assert(bl.r_kt[t][c] == gaussian::draw(ops, s1, (t * n + c) as nat));
    exact::lemma_times_comm(bl.r_kt[t][c], bl.b);
}

/// The secrets of the heads after the first are those of a run that starts where the first head
/// stopped drawing: no head shares its draws with another.
pub proof fn law_heads_draw_in_turn<T>(ops: Ops<T>, s: rng::RngState, h: nat, n: nat, d: nat)
    ensures
        out_attn_mult::head_blinding(ops, s, 0, n, d) == out_attn_mult::drawn(ops, s, n, d).0,
        out_attn_mult::head_blinding(ops, s, h + 1, n, d) == out_attn_mult::head_blinding(
            ops,
            out_attn_mult::drawn(ops, s, n, d).1,
            h,
            n,
            d,
        ),
{
    lemma_after_heads(ops, s, h, n, d);
}

proof fn lemma_after_heads<T>(ops: Ops<T>, s: rng::RngState, h: nat, n: nat, d: nat)
    ensures
        out_attn_mult::after_heads(ops, s, h + 1, n, d) == out_attn_mult::after_heads(
            ops,
            out_attn_mult::drawn(ops, s, n, d).1,
            h,
            n,
            d,
        ),
    decreases h,
{
    if h > 0 {
        lemma_after_heads(ops, s, (h - 1) as nat, n, d);
    } else {
        assert(out_attn_mult::after_heads(ops, s, 0, n, d) == s);
    }
}

/// An entry as it is sent: with a draw times the deviation added, where the deviation is
/// positive.
pub open spec fn sent_entry<T>(ops: Ops<T>, x: T, z: T, sigma: T) -> T {
    if (ops.lt)(ops.zero(), sigma) {
        (ops.add)(x, (ops.mul)(z, sigma))
    } else {
        x
    }
}

/// What the engine sees of the queries and keys: every entry of a row, in the order that was
/// drawn, with its own draw of the stream added; first those of the queries, head by head, then
/// those of the keys. Without a positive deviation nothing is added.
pub proof fn law_attention_ships_noisy_rows<T>(
    ops: Ops<T>,
    s: rng::RngState,
    q: Seq<Seq<Seq<T>>>,
    k: Seq<Seq<Seq<T>>>,
    n_q: nat,
    n_kv: nat,
    d: nat,
    sigma: T,
    p_q: Seq<usize>,
    p_kv: Seq<usize>,
    h: int,
    i: int,
    l: int,
    j: int,
)
    requires
        rng::is_permutation(p_q, n_q),
        rng::is_permutation(p_kv, n_kv),
        matrix::is_stack(q, q.len(), n_q, d),
        matrix::is_stack(k, q.len(), n_kv, d),
        0 <= h < q.len(),
        0 <= i < n_q,
        0 <= l < n_kv,
        0 <= j < d,
    ensures
        ({
            let sent = attention::shipped(ops, s, q, k, n_q, n_kv, d, sigma, p_q, p_kv);
            let first = (q.len() * (n_q * d)) as nat;
            &&& sent.0[h][i][j] == sent_entry(
                ops,
                q[h][p_q[i] as int][j],
                gaussian::draw(ops, s, (h * (n_q * d) + (i * d + j)) as nat),
                sigma,
            )
            &&& sent.1[h][j][l] == sent_entry(
                ops,
                k[h][p_kv[l] as int][j],
                gaussian::draw(ops, s, (first + (h * (n_kv * d) + (l * d + j))) as nat),
                sigma,
            )
        }),
{
    let mid = attention::after_noise(ops, s, q.len(), n_q, d);
    lemma_after_noise(ops, s, q.len(), n_q, d);
    lemma_noise_entry(ops, s, h, n_q, d, sigma, i, j);
    lemma_noise_entry(ops, mid, h, n_kv, d, sigma, l, j);
    assert(matrix::is_grid(q[h], n_q, d));
    assert(matrix::is_grid(k[h], n_kv, d));
    let (a, b) = (p_q[i] as int, p_kv[l] as int);
    assert(q[h][a].len() == d && k[h][b].len() == d);
    let first = q.len() * (n_q * d);
    let place = h * (n_kv * d) + (l * d + j);
    assert(place >= 0) by (nonlinear_arith)
        requires
            place == h * (n_kv * d) + (l * d + j),
            h >= 0,
            l >= 0,
            j >= 0,
    ;
    gaussian::lemma_after_normals(ops, s, first, place as nat);
}

proof fn lemma_after_noise<T>(ops: Ops<T>, s: rng::RngState, heads: nat, rows: nat, cols: nat)
    ensures
        attention::after_noise(ops, s, heads, rows, cols) == gaussian::after_normals(
            ops,
            s,
            heads * (rows * cols),
        ),
    decreases heads,
{
    let step = rows * cols;
    if heads > 0 {
        let h = (heads - 1) as nat;
        lemma_after_noise(ops, s, h, rows, cols);
        gaussian::lemma_after_normal_rows(
            ops,
            attention::after_noise(ops, s, h, rows, cols),
            rows,
            cols,
        );
        gaussian::lemma_after_normals(ops, s, h * step, step);
        assert(h * step + step == heads * step) by (nonlinear_arith)
            requires
                h == heads - 1,
        ;
    } else {
        assert(heads * step == 0) by (nonlinear_arith)
            requires
                heads == 0,
        ;
    }
}

/// One entry of the noise of one head.
proof fn lemma_noise_entry<T>(
    ops: Ops<T>,
    s: rng::RngState,
    h: int,
    rows: nat,
    cols: nat,
    sigma: T,
    i: int,
    j: int,
)
    requires
        0 <= h,
        0 <= i < rows,
        0 <= j < cols,
    ensures
        gaussian::normal_rows(
            ops,
            attention::after_noise(ops, s, h as nat, rows, cols),
            rows,
            cols,
            sigma,
        )[i][j] == (ops.mul)(
            gaussian::draw(ops, s, (h * (rows * cols) + (i * cols + j)) as nat),
            sigma,
        ),
{
    let at = attention::after_noise(ops, s, h as nat, rows, cols);
    lemma_after_noise(ops, s, h as nat, rows, cols);
    gaussian::law_entries_are_drawn_in_turn(ops, at, rows, cols, sigma, i, j);
    assert(i * cols >= 0) by (nonlinear_arith)
        requires
            i >= 0,
    ;
    assert(h * (rows * cols) >= 0) by (nonlinear_arith)
        requires
            h >= 0,
    ;
    gaussian::lemma_after_normals(ops, s, (h * (rows * cols)) as nat, (i * cols + j) as nat);
}

/// Attention adds noise only where it is asked for; the usual noise has a deviation of one
/// hundredth, and a barred position loses thirty from its score either way.
pub proof fn law_usual_noise_is_a_hundredth(ops: Ops<real>)
    requires
        exact::exact(ops),
    ensures
        attention::noiseless(ops).noise_sigma == 0real,
        attention::noisy_default(ops).noise_sigma * 100real == 1real,
        attention::noiseless(ops).causal_mask_neg == 30real,
        attention::noisy_default(ops).causal_mask_neg == 30real,
{
    exact::lemma_quotient(1real, 100real);
}

/// Sampling a mask uses up the stream: a cascade the words of its three diagonals, a dense mask one
/// draw for every entry.
pub proof fn law_masks_use_up_the_stream<T>(ops: Ops<T>, s: rng::RngState, n: nat)
    ensures
        mask::after_family(ops, MaskKind::Hd3, s, n) == rng::skip(
            s,
            (3 * ((n + 31) / 32)) as nat,
        ),
        mask::after_family(ops, MaskKind::Dct4, s, n) == rng::skip(
            s,
            (3 * ((n + 31) / 32)) as nat,
        ),
        mask::after_family(ops, MaskKind::Haar, s, n) == gaussian::after_normals(ops, s, n * n),
{
    let w = hd3::sign_words(n);
    rng::lemma_skip(s, w, w);
    rng::lemma_skip(s, w + w, w);
    gaussian::lemma_after_normal_rows(ops, s, n, n);
}

/// The orders of a blinding are shuffled one after the other, from where its scalars were drawn;
/// the stream goes on where the second shuffle left it.
pub proof fn law_blinding_orders_are_shuffled<T>(ops: Ops<T>, s: rng::RngState, n: nat, d: nat)
    ensures
        ({
            let (bl, after) = out_attn_mult::drawn(ops, s, n, d);
            let entries = gaussian::after_normals(ops, s, n * d + d * n);
            let a = out_attn_mult::drawn_scalar(ops, entries);
            let b = out_attn_mult::drawn_scalar(ops, a.1);
            let numbers = Seq::new(2 * n, |i: int| i as usize);
            let first = rng::shuffle_outcome(numbers, b.1.seed, b.1.stream, b.1.word_pos);
            let next = rng::shuffle_outcome(numbers, b.1.seed, b.1.stream, first.1);
            &&& bl.lambda_q == first.0
            &&& bl.lambda_k == next.0
            &&& after == (rng::RngState { word_pos: next.1, ..b.1 })
        }),
{
    let s1 = gaussian::after_normal_rows(ops, s, n, d);
    gaussian::lemma_after_normal_rows(ops, s, n, d);
    gaussian::lemma_after_normal_rows(ops, s1, d, n);
    gaussian::lemma_after_normals(ops, s, n * d, d * n);
    assert(Seq::new(2 * n, |i: int| i as usize) =~= rng::identity_perm(2 * n));
}

/// Noise uses up one draw for every entry of the queries and keys; without noise nothing is drawn.
pub proof fn law_noise_uses_up_the_stream<T>(
    ops: Ops<T>,
    s: rng::RngState,
    q: Seq<Seq<Seq<T>>>,
    k: Seq<Seq<Seq<T>>>,
    n_q: nat,
    n_kv: nat,
    d: nat,
    sigma: T,
    p_q: Seq<usize>,
    p_kv: Seq<usize>,
)
    ensures
        attention::shipped(ops, s, q, k, n_q, n_kv, d, sigma, p_q, p_kv).2 == if (ops.lt)(
            ops.zero(),
            sigma,
        ) {
            gaussian::after_normals(
                ops,
                s,
                q.len() * (n_q * d) + k.len() * (n_kv * d),
            )
        } else {
            s
        },
{
    let mid = attention::after_noise(ops, s, q.len(), n_q, d);
    lemma_after_noise(ops, s, q.len(), n_q, d);
    lemma_after_noise(ops, mid, k.len(), n_kv, d);
    gaussian::lemma_after_normals(ops, s, q.len() * (n_q * d), k.len() * (n_kv * d));
}

/// An offload uses up the stream: first its mask, where it draws one, then its shield, then the
/// words of its probes. A shield with one mask for the whole pass uses up a draw for every entry;
/// one with a mask per offload, where it is not silent, the fewest whole blocks of 32 words that
/// give every entry a word.
pub proof fn law_offloads_use_up_the_stream<T, E>(
    ops: Ops<T>,
    e: Exec<T, E>,
    handle: WeightHandle,
    hidden: Matrix<T>,
    out: Matrix<T>,
    after: Exec<T, E>,
    r: Result<Matrix<T>, OffloadError>,
)
    requires
        e.linear_end(ops, handle, hidden, Ok(out), after, r),
    ensures
        ({
            let d = hidden.width();
            let rows = hidden@.len() + e.shield.k as nat;
            let entries = (e.shield.k * d) as nat;
            let (_, masked, then) = e.prepared(ops, hidden@, d);
            let start = e.mask_for(ops, hidden@.len()).1;
            let sigma = shield::deviation(ops, e.shield.energy_scale, hidden@, d);
            &&& e.per_forward_mask && e.session is Some ==> start == e.rng
            &&& !(e.per_forward_mask && e.session is Some) ==> start == mask::after_family(
                ops,
                mask::resolved(e.mask_kind, rows),
                e.rng,
                mask::operand_rows(e.mask_kind, rows),
            )
            &&& e.shield.k == 0 ==> then == start
            &&& e.shield.k > 0 && e.per_forward_mask ==> then == gaussian::after_normals(
                ops,
                start,
                entries,
            )
            &&& e.shield.k > 0 && !e.per_forward_mask && !ops.is_zero(sigma) ==> exists|words: nat|
                words % 32 == 0 && entries <= words < entries + 32 && then == #[trigger] rng::skip(
                    start,
                    words,
                )
            &&& e.verify_probes == 0 ==> after.rng == then
            &&& e.verify_probes > 0 && r is Ok ==> after.rng == rng::skip(
                then,
                e.verify_probes as nat * out.width(),
            )
        }),
{
    let d = hidden.width();
    let k = e.shield.k as nat;
    let (_, masked, then) = e.prepared(ops, hidden@, d);
    let start = e.mask_for(ops, hidden@.len()).1;
    let sigma = shield::deviation(ops, e.shield.energy_scale, hidden@, d);
    gaussian::lemma_after_normal_rows(ops, start, k, d);
    if !ops.is_zero(sigma) {
        gaussian::law_bulk_reads_whole_blocks(ops, k * d, sigma);
        if k > 0 && !e.per_forward_mask {
            assert(then == rng::skip(start, gaussian::bulk_words(ops, k * d, sigma)));
        }
    }
    if e.verify_probes > 0 && r is Ok {
        let w = e.weights[handle];
        soundness::law_probing_finds_the_first_failure(
            ops,
            e.verify_probes as nat,
            masked,
            w@,
            out@,
            w.width(),
            then,
        );
    }
}

/// Without probes an offload to several weights uses up what preparing its one operand does, and
/// no more.
pub proof fn law_batches_use_up_one_operand<T, E>(
    ops: Ops<T>,
    e: Exec<T, E>,
    handles: Seq<WeightHandle>,
    hidden: Matrix<T>,
    answer: Result<Vec<Matrix<T>>, OffloadError>,
    after: Exec<T, E>,
    r: Result<Vec<Matrix<T>>, OffloadError>,
)
    requires
        e.verify_probes == 0,
        e.many_end(ops, handles, hidden, answer, after, r),
    ensures
        after.rng == e.prepared(ops, hidden@, hidden.width()).2,
        after.session == e.session,
        after.shield == e.shield,
        after.weights == e.weights,
{
    let (_, masked, s) = e.prepared(ops, hidden@, hidden.width());
    if let Ok(outs) = answer {
        lemma_judged_quietly(ops, e, handles, masked, hidden.width(), outs@, 0, s);
        let sent = snapshot::Kept { rows: masked, width: hidden.width() };
        lemma_recording_keeps_the_rest(e, handles, sent, outs@, handles.len());
    }
}

proof fn lemma_judged_quietly<T, E>(
    ops: Ops<T>,
    e: Exec<T, E>,
    handles: Seq<WeightHandle>,
    masked: Seq<Seq<T>>,
    d: nat,
    outs: Seq<Matrix<T>>,
    i: nat,
    s: rng::RngState,
)
    requires
        e.verify_probes == 0,
    ensures
        e.judged_from(ops, handles, masked, d, outs, i, s).1 == s,
    decreases handles.len() - i,
{
    if i < handles.len() {
        lemma_judged_quietly(ops, e, handles, masked, d, outs, i + 1, s);
    }
}

proof fn lemma_recording_keeps_the_rest<T, E>(
    e: Exec<T, E>,
    handles: Seq<WeightHandle>,
    sent: snapshot::Kept<T>,
    outs: Seq<Matrix<T>>,
    count: nat,
)
    ensures
        ({
            let f = e.recorded_first(handles, sent, outs, count);
            f.session == e.session && f.shield == e.shield && f.weights == e.weights
        }),
    decreases count,
{
    if count > 0 {
        lemma_recording_keeps_the_rest(e, handles, sent, outs, (count - 1) as nat);
    }
}

} // verus!
