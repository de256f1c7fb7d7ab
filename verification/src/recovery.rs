//! Over exact arithmetic an honest engine's answers pass every probe, and what the executor
//! recovers from them is the product that was asked for.

use vstd::prelude::*;

use crate::cascade;
use crate::dct4;
use crate::error::OffloadError;
use crate::exact;
use crate::executor;
use crate::executor::Exec;
use crate::hd3;
use crate::householder;
use crate::integrity;
use crate::mask;
use crate::mask::MaskKind;
use crate::matrix;
use crate::matrix::Matrix;
use crate::pow2;
use crate::rng;
use crate::scalar::Ops;
use crate::substrate::WeightHandle;

verus! {

/// A mask that can be undone: an orthogonal matrix, or a cascade with the factor of its side.
pub open spec fn sound(ops: Ops<real>, m: mask::Family<real>) -> bool {
    match m {
        mask::Family::Haar(a) => householder::is_orthogonal(ops, a, a.len()),
        mask::Family::Hd3(c) => pow2::is_pow2(c.n) && c.inv_norm == hd3::hadamard_norm(ops, c.n),
        mask::Family::Dct4(c) => c.n >= 1 && c.inv_norm == dct4::cosine_norm(ops, c.n),
    }
}

/// Every sampled mask is sound, at a side that its kind allows.
pub proof fn law_sampled_masks_are_sound(
    ops: Ops<real>,
    kind: MaskKind,
    s: rng::RngState,
    n: nat,
)
    requires
        exact::exact(ops),
        kind == MaskKind::Hd3 ==> pow2::is_pow2(n),
        kind == MaskKind::Dct4 ==> n >= 1,
    ensures
        sound(ops, mask::sampled_family(ops, kind, s, n)),
        mask::sampled_family(ops, kind, s, n).n() == n,
{
    householder::law_sampled_mask_is_orthogonal(ops, s, n);
}

/// The transpose of an orthogonal matrix undoes it.
proof fn lemma_transpose_undoes(ops: Ops<real>, a: Seq<Seq<real>>, m: Seq<Seq<real>>, cols: nat)
    requires
        exact::exact(ops),
        householder::is_orthogonal(ops, a, a.len()),
        matrix::is_grid(m, a.len(), cols),
    ensures
        matrix::product(
            ops,
            matrix::transpose(a, a.len()),
            matrix::product(ops, a, m, cols),
            cols,
        ) == m,
{
    let n = a.len();
    let at = matrix::transpose(a, n);
    exact::lemma_product_regroups(ops, at, a, m, cols);
    let ata = matrix::product(ops, at, a, n);
    assert forall|i: int, j: int| 0 <= i < n && 0 <= j < n implies #[trigger] ata[i][j] == if i
        == j {
        1real
    } else {
        0real
    } by {
        assert(matrix::dot(ops, matrix::col(a, i), matrix::col(a, j), n) == if i == j {
            1real
        } else {
            0real
        });
    }
    exact::lemma_product_scales(ops, ata, m, n, cols, 1real);
    cascade::lemma_scaled_by_one(ops, m);
}

/// The product of a masked matrix with a weight, unmasked, is the product of the matrix with
/// the weight.
pub proof fn law_masks_recover_products(
    ops: Ops<real>,
    m: mask::Family<real>,
    x: Seq<Seq<real>>,
    w: Seq<Seq<real>>,
    o: nat,
)
    requires
        exact::exact(ops),
        sound(ops, m),
        matrix::is_grid(x, m.n(), w.len()),
    ensures
        m.unmasked(ops, matrix::product(ops, m.masked(ops, x, w.len()), w, o), o)
            == matrix::product(ops, x, w, o),
{
    match m {
        mask::Family::Haar(a) => {
            exact::lemma_product_regroups(ops, a, x, w, o);
            cascade::lemma_product_grid(ops, x, w, o);
            lemma_transpose_undoes(ops, a, matrix::product(ops, x, w, o), o);
        },
        mask::Family::Hd3(c) => {
            cascade::law_hd3_recovers_products(ops, c, x, w, o);
        },
        mask::Family::Dct4(c) => {
            cascade::law_dct4_recovers_products(ops, c, x, w, o);
        },
    }
}

/// Masking and then unmasking gives back every matrix.
pub proof fn law_masks_round_trip(
    ops: Ops<real>,
    m: mask::Family<real>,
    x: Seq<Seq<real>>,
    d: nat,
)
    requires
        exact::exact(ops),
        sound(ops, m),
        matrix::is_grid(x, m.n(), d),
    ensures
        m.unmasked(ops, m.masked(ops, x, d), d) == x,
{
    match m {
        mask::Family::Haar(a) => {
            lemma_transpose_undoes(ops, a, x, d);
        },
        mask::Family::Hd3(c) => {
            cascade::law_hd3_round_trip(ops, c, x, d);
        },
        mask::Family::Dct4(c) => {
            cascade::law_dct4_round_trip(ops, c, x, d);
        },
    }
}

/// The mask of an open forward pass, if there is one, is sound.
pub open spec fn session_sound<E>(ops: Ops<real>, e: Exec<real, E>) -> bool {
    e.session matches Some(s) ==> sound(ops, s.mask)
}

/// A mask drawn for an offload is sound and has room for its rows.
pub proof fn lemma_fresh_mask_sound<E>(ops: Ops<real>, e: Exec<real, E>, n: nat)
    requires
        exact::exact(ops),
        e.rows_error(n + e.shield.k) is None,
    ensures
        ({
            let s = n + e.shield.k as nat;
            let m = e.fresh_mask(ops, s).0;
            &&& sound(ops, m)
            &&& m.n() == mask::operand_rows(e.mask_kind, s)
            &&& m.n() >= s
        }),
{
    let s = n + e.shield.k as nat;
    let kind = mask::resolved(e.mask_kind, s);
    let side = mask::operand_rows(e.mask_kind, s);
    pow2::lemma_next_pow2(s);
    pow2::lemma_one_is_pow2();
    law_sampled_masks_are_sound(ops, kind, e.rng, side);
}

/// Opening a forward pass gives it a sound mask, that fits offloads of its length.
pub proof fn law_forward_pass_has_a_sound_mask<E>(ops: Ops<real>, e: Exec<real, E>, n: nat)
    requires
        exact::exact(ops),
        e.per_forward_mask,
        e.begin_error(n) is None,
    ensures
        session_sound(ops, e.begun(ops, n)),
        e.begun(ops, n).session is Some,
        !e.begun(ops, n).session_misfits(n),
{
    lemma_fresh_mask_sound(ops, Exec { shield: e.chosen_shield(n), ..e }, n);
}

/// The operand of an offload is a full grid that starts with the data.
proof fn lemma_operand<E>(
    ops: Ops<real>,
    e: Exec<real, E>,
    hidden: Seq<Seq<real>>,
    d: nat,
    side: nat,
    s: rng::RngState,
)
    requires
        matrix::is_grid(hidden, hidden.len(), d),
        side >= hidden.len() + e.shield.k,
    ensures
        matrix::is_grid(e.operand(ops, hidden, d, side, s), side, d),
        e.operand(ops, hidden, d, side, s).take(hidden.len() as int) == hidden,
{
    let sh = e.shielded(ops, hidden, d, s).0;
    let all = e.operand(ops, hidden, d, side, s);
    assert(sh.len() == hidden.len() + e.shield.k);
    assert forall|i: int| 0 <= i < side implies #[trigger] all[i].len() == d by {
        if i < hidden.len() {
            assert(all[i] == hidden[i]);
        } else if i < sh.len() {
            assert(all[i] == sh[i]);
        }
    }
    assert(all.take(hidden.len() as int) =~= hidden);
}

/// The first rows of a product are the product of the first rows.
proof fn lemma_product_take(
    ops: Ops<real>,
    a: Seq<Seq<real>>,
    w: Seq<Seq<real>>,
    o: nat,
    n: nat,
)
    requires
        n <= a.len(),
    ensures
        matrix::product(ops, a, w, o).take(n as int) == matrix::product(
            ops,
            a.take(n as int),
            w,
            o,
        ),
{
    let l = matrix::product(ops, a, w, o).take(n as int);
    let r = matrix::product(ops, a.take(n as int), w, o);
    assert forall|i: int| 0 <= i < n implies #[trigger] l[i] == r[i] by {
        assert(l[i] =~= r[i]);
    }
    assert(l =~= r);
}

/// From the exact product of the masked operand with a weight, the executor recovers the
/// product of the data with the weight.
pub proof fn law_exact_answer_opens_to_the_product<E>(
    ops: Ops<real>,
    e: Exec<real, E>,
    hidden: Seq<Seq<real>>,
    w: Seq<Seq<real>>,
    count: nat,
    out: Matrix<real>,
)
    requires
        exact::exact(ops),
        matrix::is_grid(hidden, hidden.len(), w.len()),
        e.offload_error(hidden.len(), w.len(), count) is None,
        session_sound(ops, e),
        out@ == matrix::product(
            ops,
            e.prepared(ops, hidden, w.len()).1,
            w,
            out.width(),
        ),
    ensures
        executor::opened(ops, e.prepared(ops, hidden, w.len()).0, out, hidden.len())
            == matrix::product(ops, hidden, w, out.width()),
{
    let n = hidden.len();
    let d = w.len();
    let s = n + e.shield.k as nat;
    let (m, stream) = e.mask_for(ops, n);
    lemma_fresh_mask_sound(ops, e, n);
    assert(m.n() >= s) by {
        if e.per_forward_mask && e.session is Some {
            assert(m.n() == mask::operand_rows(e.mask_kind, s));
        }
    }
    let x = e.operand(ops, hidden, d, m.n(), stream);
    lemma_operand(ops, e, hidden, d, m.n(), stream);
    law_masks_recover_products(ops, m, x, w, out.width());
    lemma_product_take(ops, x, w, out.width(), n);
}

/// A sum of products of numbers that are not negative is not negative.
proof fn lemma_dot_not_negative(ops: Ops<real>, x: Seq<real>, y: Seq<real>, k: nat)
    requires
        exact::exact(ops),
        forall|i: int| 0 <= i < k ==> #[trigger] x[i] >= 0real,
        forall|i: int| 0 <= i < k ==> #[trigger] y[i] >= 0real,
    ensures
        matrix::dot(ops, x, y, k) >= 0real,
    decreases k,
{
    if k > 0 {
        lemma_dot_not_negative(ops, x, y, (k - 1) as nat);
        let (a, b) = (x[k - 1], y[k - 1]);
        assert(a >= 0real && b >= 0real);
        if a > 0real && b > 0real {
            exact::lemma_times_positive(a, b);
        } else if a == 0real {
            assert(0real * b == 0real);
        } else {
            assert(a * 0real == 0real);
        }
    }
}

/// A row passes a probe exactly where it has the same inner product with it as the row of the
/// exact product.
pub proof fn law_probe_compares_with_the_product(
    ops: Ops<real>,
    lhs: Seq<Seq<real>>,
    rhs: Seq<Seq<real>>,
    observed: Seq<Seq<real>>,
    r: Seq<real>,
    i: int,
)
    requires
        exact::exact(ops),
        matrix::is_grid(lhs, lhs.len(), rhs.len()),
        matrix::is_grid(rhs, rhs.len(), r.len()),
        observed.len() == lhs.len(),
        0 <= i < lhs.len(),
    ensures
        integrity::passes(ops, lhs, rhs, observed, r, i) == (matrix::dot(
            ops,
            observed[i],
            r,
            r.len(),
        ) == matrix::dot(ops, matrix::product(ops, lhs, rhs, r.len())[i], r, r.len())),
{
    let exact_row = matrix::product(ops, lhs, rhs, r.len())[i];
    let inner = integrity::image(ops, rhs, r);
    exact::lemma_dot_exchange(ops, lhs[i], rhs, r, inner, exact_row, rhs.len(), r.len());
    let rs = integrity::sizes(ops, r);
    let ws = integrity::size_image(ops, rhs, rs);
    assert forall|k: int| 0 <= k < rhs.len() implies #[trigger] ws[k] >= 0real by {
        assert(rhs[k].len() == r.len());
        lemma_dot_not_negative(ops, integrity::sizes(ops, rhs[k]), rs, r.len());
    }
    assert(lhs[i].len() == rhs.len());
    lemma_dot_not_negative(ops, integrity::sizes(ops, lhs[i]), ws, rhs.len());
}

/// An answer with a single wrong entry in a row fails every probe that can be drawn.
pub proof fn law_single_wrong_entry_is_caught(
    ops: Ops<real>,
    lhs: Seq<Seq<real>>,
    rhs: Seq<Seq<real>>,
    observed: Seq<Seq<real>>,
    cols: nat,
    s: rng::RngState,
    i: int,
    j: int,
)
    requires
        exact::exact(ops),
        matrix::is_grid(lhs, lhs.len(), rhs.len()),
        matrix::is_grid(rhs, rhs.len(), cols),
        matrix::is_grid(observed, lhs.len(), cols),
        0 <= i < lhs.len(),
        0 <= j < cols,
        observed[i][j] != matrix::product(ops, lhs, rhs, cols)[i][j],
        forall|k: int|
            0 <= k < cols && k != j ==> #[trigger] observed[i][k] == matrix::product(
                ops,
                lhs,
                rhs,
                cols,
            )[i][k],
    ensures
        !integrity::passes(ops, lhs, rhs, observed, integrity::probe_vector(ops, s, cols), i),
{
    let r = integrity::probe_vector(ops, s, cols);
    let want = matrix::product(ops, lhs, rhs, cols)[i];
    let got = observed[i];
    law_probe_compares_with_the_product(ops, lhs, rhs, observed, r, i);
    let gap = Seq::new(
        cols,
        |k: int|
            if k == j {
                got[j] - want[j]
            } else {
                0real
            },
    );
    assert forall|k: int| 0 <= k < cols implies #[trigger] got[k] == 1real * want[k] + 1real
        * gap[k] by {}
    exact::lemma_dot_combination(ops, got, want, gap, 1real, 1real, r, cols);
    exact::lemma_dot_unit(ops, gap, r, j, got[j] - want[j], cols);
    let (g, x) = (got[j] - want[j], r[j]);
    assert(x != 0real);
    if g * x == 0real {
        let u = 1real / x;
        exact::lemma_quotient(1real, x);
        exact::lemma_times_comm(u, x);
        exact::lemma_times_assoc(g, x, u);
        assert(0real * u == 0real);
        assert(g * 1real == g);
        assert(g == 0real);
    }
}

/// The exact product passes every probe.
pub proof fn law_exact_product_passes(
    ops: Ops<real>,
    lhs: Seq<Seq<real>>,
    rhs: Seq<Seq<real>>,
    r: Seq<real>,
    i: int,
)
    requires
        exact::exact(ops),
        matrix::is_grid(lhs, lhs.len(), rhs.len()),
        matrix::is_grid(rhs, rhs.len(), r.len()),
        0 <= i < lhs.len(),
    ensures
        integrity::passes(ops, lhs, rhs, matrix::product(ops, lhs, rhs, r.len()), r, i),
{
    law_probe_compares_with_the_product(
        ops,
        lhs,
        rhs,
        matrix::product(ops, lhs, rhs, r.len()),
        r,
        i,
    );
}

proof fn lemma_none_fails(
    ops: Ops<real>,
    lhs: Seq<Seq<real>>,
    rhs: Seq<Seq<real>>,
    r: Seq<real>,
    i: int,
)
    requires
        exact::exact(ops),
        matrix::is_grid(lhs, lhs.len(), rhs.len()),
        matrix::is_grid(rhs, rhs.len(), r.len()),
        0 <= i <= lhs.len(),
    ensures
        integrity::first_failing(
            ops,
            lhs,
            rhs,
            matrix::product(ops, lhs, rhs, r.len()),
            r,
            i,
        ) == lhs.len(),
    decreases lhs.len() - i,
{
    if i < lhs.len() {
        law_exact_product_passes(ops, lhs, rhs, r, i);
        lemma_none_fails(ops, lhs, rhs, r, i + 1);
    }
}

/// However many probes there are, and whatever the stream holds, the exact product is never
/// taken for a tampered one.
pub proof fn law_exact_product_is_accepted(
    ops: Ops<real>,
    probes: nat,
    lhs: Seq<Seq<real>>,
    rhs: Seq<Seq<real>>,
    cols: nat,
    p: nat,
    s: rng::RngState,
)
    requires
        exact::exact(ops),
        matrix::is_grid(lhs, lhs.len(), rhs.len()),
        matrix::is_grid(rhs, rhs.len(), cols),
    ensures
        integrity::outcome(
            ops,
            probes,
            lhs,
            rhs,
            matrix::product(ops, lhs, rhs, cols),
            cols,
            p,
            s,
        ).0 is None,
    decreases probes - p,
{
    if p < probes {
        lemma_none_fails(ops, lhs, rhs, integrity::probe_vector(ops, s, cols), 0);
        law_exact_product_is_accepted(ops, probes, lhs, rhs, cols, p + 1, rng::skip(s, cols));
    }
}

/// The masked operand is a full grid of the data's width.
pub proof fn lemma_prepared_grid<E>(
    ops: Ops<real>,
    e: Exec<real, E>,
    hidden: Seq<Seq<real>>,
    d: nat,
    count: nat,
)
    requires
        exact::exact(ops),
        matrix::is_grid(hidden, hidden.len(), d),
        e.offload_error(hidden.len(), d, count) is None,
        session_sound(ops, e),
    ensures
        ({
            let x = e.prepared(ops, hidden, d).1;
            matrix::is_grid(x, x.len(), d)
        }),
{
    let n = hidden.len();
    let (m, stream) = e.mask_for(ops, n);
    lemma_fresh_mask_sound(ops, e, n);
    let x = e.operand(ops, hidden, d, m.n(), stream);
    lemma_operand(ops, e, hidden, d, m.n(), stream);
    match m {
        mask::Family::Haar(a) => {
            cascade::lemma_product_grid(ops, a, x, d);
        },
        mask::Family::Hd3(c) => {
            cascade::lemma_masked_grid(ops, c, x, d);
        },
        mask::Family::Dct4(c) => {
            cascade::lemma_masked_grid(ops, c, x, d);
        },
    }
}

/// Unmasking the masked operand gives back the operand before masking.
pub proof fn lemma_prepared_unmasks<E>(
    ops: Ops<real>,
    e: Exec<real, E>,
    hidden: Seq<Seq<real>>,
    d: nat,
    count: nat,
)
    requires
        exact::exact(ops),
        matrix::is_grid(hidden, hidden.len(), d),
        e.offload_error(hidden.len(), d, count) is None,
        session_sound(ops, e),
    ensures
        ({
            let s = hidden.len() + e.shield.k as nat;
            let (m, masked, _) = e.prepared(ops, hidden, d);
            let stream = e.mask_for(ops, hidden.len()).1;
            &&& m.n() == mask::operand_rows(e.mask_kind, s)
            &&& m.n() >= s
            &&& masked.len() == m.n()
            &&& m.unmasked(ops, masked, d) == e.operand(ops, hidden, d, m.n(), stream)
        }),
{
    let n = hidden.len();
    let (m, stream) = e.mask_for(ops, n);
    lemma_fresh_mask_sound(ops, e, n);
    let x = e.operand(ops, hidden, d, m.n(), stream);
    lemma_operand(ops, e, hidden, d, m.n(), stream);
    lemma_prepared_grid(ops, e, hidden, d, count);
    law_masks_round_trip(ops, m, x, d);
    match m {
        mask::Family::Haar(a) => {
            cascade::lemma_product_grid(ops, a, x, d);
        },
        mask::Family::Hd3(c) => {
            cascade::lemma_masked_grid(ops, c, x, d);
        },
        mask::Family::Dct4(c) => {
            cascade::lemma_masked_grid(ops, c, x, d);
        },
    }
}

/// Unmasking the masked operand gives back the data, above its shield rows, and rows of zeros
/// up to the mask's side.
pub proof fn law_masked_operand_unmasks<E>(
    ops: Ops<real>,
    e: Exec<real, E>,
    hidden: Seq<Seq<real>>,
    d: nat,
    count: nat,
)
    requires
        exact::exact(ops),
        matrix::is_grid(hidden, hidden.len(), d),
        e.offload_error(hidden.len(), d, count) is None,
        session_sound(ops, e),
    ensures
        ({
            let s = hidden.len() + e.shield.k as nat;
            let (m, masked, _) = e.prepared(ops, hidden, d);
            let bare = m.unmasked(ops, masked, d);
            &&& m.n() == mask::operand_rows(e.mask_kind, s)
            &&& masked.len() == m.n()
            &&& bare.len() == m.n()
            &&& bare.take(hidden.len() as int) == hidden
            &&& forall|i: int, j: int|
                s <= i < m.n() && 0 <= j < d ==> #[trigger] bare[i][j] == 0real
        }),
{
    let n = hidden.len();
    let s = n + e.shield.k as nat;
    let (m, stream) = e.mask_for(ops, n);
    lemma_prepared_unmasks(ops, e, hidden, d, count);
    let x = e.operand(ops, hidden, d, m.n(), stream);
    lemma_operand(ops, e, hidden, d, m.n(), stream);
    let sh = e.shielded(ops, hidden, d, stream).0;
    assert(sh.len() == s);
    assert forall|i: int, j: int| s <= i < m.n() && 0 <= j < d implies #[trigger] x[i][j]
        == 0real by {
        assert(x[i] == matrix::filled(ops.zero(), (m.n() - s) as nat, d)[i - s]);
    }
}

/// The weight that the executor holds for probing, if it probes, is `w`.
pub open spec fn holds_weight<E>(
    e: Exec<real, E>,
    handle: WeightHandle,
    w: Matrix<real>,
) -> bool {
    e.verify_probes > 0 ==> {
        &&& e.weights.contains_key(handle)
        &&& e.weights[handle]@ == w@
        &&& e.weights[handle].width() == w.width()
        &&& w@.len() + w.width() <= usize::MAX
    }
}

/// The exact answer is accepted.
proof fn lemma_exact_answer_judged<E>(
    ops: Ops<real>,
    e: Exec<real, E>,
    handle: WeightHandle,
    masked: Seq<Seq<real>>,
    w: Matrix<real>,
    out: Matrix<real>,
    s: rng::RngState,
)
    requires
        exact::exact(ops),
        matrix::is_grid(masked, masked.len(), w@.len()),
        matrix::is_grid(w@, w@.len(), w.width()),
        holds_weight(e, handle, w),
        out@ == matrix::product(ops, masked, w@, w.width()),
        out.width() == w.width(),
    ensures
        e.judged(ops, handle, masked, w@.len(), out, s).0 is None,
{
    if e.verify_probes > 0 {
        law_exact_product_is_accepted(
            ops,
            e.verify_probes as nat,
            masked,
            w@,
            w.width(),
            0,
            s,
        );
    }
}

/// An engine that multiplies exactly: the offload succeeds, and its result is the product of
/// the data with the weight, whatever mask and shield were drawn.
pub proof fn law_honest_offload_gives_the_product<E>(
    ops: Ops<real>,
    e: Exec<real, E>,
    handle: WeightHandle,
    hidden: Matrix<real>,
    w: Matrix<real>,
    out: Matrix<real>,
    after: Exec<real, E>,
    r: Result<Matrix<real>, OffloadError>,
)
    requires
        exact::exact(ops),
        matrix::is_grid(hidden@, hidden@.len(), hidden.width()),
        matrix::is_grid(w@, hidden.width(), w.width()),
        e.offload_error(hidden@.len(), hidden.width(), 1) is None,
        session_sound(ops, e),
        holds_weight(e, handle, w),
        out@ == matrix::product(
            ops,
            e.prepared(ops, hidden@, hidden.width()).1,
            w@,
            w.width(),
        ),
        out.width() == w.width(),
        e.linear_end(ops, handle, hidden, Ok(out), after, r),
    ensures
        r matches Ok(res) && res@ == matrix::product(ops, hidden@, w@, w.width()),
        session_sound(ops, after),
{
    let (m, masked, s) = e.prepared(ops, hidden@, hidden.width());
    lemma_prepared_grid(ops, e, hidden@, hidden.width(), 1);
    lemma_exact_answer_judged(ops, e, handle, masked, w, out, s);
    law_exact_answer_opens_to_the_product(ops, e, hidden@, w@, 1, out);
}

proof fn lemma_exact_answers_judged<E>(
    ops: Ops<real>,
    e: Exec<real, E>,
    handles: Seq<WeightHandle>,
    masked: Seq<Seq<real>>,
    d: nat,
    ws: Seq<Matrix<real>>,
    outs: Seq<Matrix<real>>,
    i: nat,
    s: rng::RngState,
)
    requires
        exact::exact(ops),
        matrix::is_grid(masked, masked.len(), d),
        outs.len() == handles.len(),
        ws.len() == handles.len(),
        forall|k: int|
            0 <= k < handles.len() ==> {
                &&& matrix::is_grid((#[trigger] ws[k])@, d, ws[k].width())
                &&& holds_weight(e, handles[k], ws[k])
                &&& outs[k]@ == matrix::product(ops, masked, ws[k]@, ws[k].width())
                &&& outs[k].width() == ws[k].width()
            },
    ensures
        e.judged_from(ops, handles, masked, d, outs, i, s).0 is None,
    decreases handles.len() - i,
{
    if i < handles.len() {
        let one = e.judged(ops, handles[i as int], masked, d, outs[i as int], s);
        assert(matrix::is_grid(ws[i as int]@, d, ws[i as int].width()));
        lemma_exact_answer_judged(
            ops,
            e,
            handles[i as int],
            masked,
            ws[i as int],
            outs[i as int],
            s,
        );
        lemma_exact_answers_judged(
            ops,
            e,
            handles,
            masked,
            d,
            ws,
            outs,
            i + 1,
            one.1,
        );
    }
}

/// An engine that multiplies exactly, asked for several products of one masked operand: the
/// offload succeeds, and every result is the product of the data with its weight.
pub proof fn law_honest_batch_gives_the_products<E>(
    ops: Ops<real>,
    e: Exec<real, E>,
    handles: Seq<WeightHandle>,
    hidden: Matrix<real>,
    ws: Seq<Matrix<real>>,
    outs: Vec<Matrix<real>>,
    after: Exec<real, E>,
    r: Result<Vec<Matrix<real>>, OffloadError>,
)
    requires
        exact::exact(ops),
        matrix::is_grid(hidden@, hidden@.len(), hidden.width()),
        e.offload_error(hidden@.len(), hidden.width(), handles.len()) is None,
        session_sound(ops, e),
        outs@.len() == handles.len(),
        ws.len() == handles.len(),
        forall|k: int|
            0 <= k < handles.len() ==> {
                &&& matrix::is_grid((#[trigger] ws[k])@, hidden.width(), ws[k].width())
                &&& holds_weight(e, handles[k], ws[k])
                &&& outs@[k]@ == matrix::product(
                    ops,
                    e.prepared(ops, hidden@, hidden.width()).1,
                    ws[k]@,
                    ws[k].width(),
                )
                &&& outs@[k].width() == ws[k].width()
            },
        e.many_end(ops, handles, hidden, Ok(outs), after, r),
    ensures
        r matches Ok(res) && res@.len() == handles.len() && forall|k: int|
            0 <= k < handles.len() ==> (#[trigger] res@[k])@ == matrix::product(
                ops,
                hidden@,
                ws[k]@,
                ws[k].width(),
            ),
{
    let d = hidden.width();
    let (m, masked, s) = e.prepared(ops, hidden@, d);
    lemma_prepared_grid(ops, e, hidden@, d, handles.len());
    lemma_exact_answers_judged(ops, e, handles, masked, d, ws, outs@, 0, s);
    let res = r->Ok_0;
    assert forall|k: int| 0 <= k < handles.len() implies (#[trigger] res@[k])@ == matrix::product(
        ops,
        hidden@,
        ws[k]@,
        ws[k].width(),
    ) by {
        assert(matrix::is_grid(ws[k]@, d, ws[k].width()));
        law_exact_answer_opens_to_the_product(
            ops,
            e,
            hidden@,
            ws[k]@,
            handles.len(),
            outs@[k],
        );
    }
}

/// Where a row of an answer fails the first probe, the offload is refused.
pub proof fn law_failing_row_is_refused<T, E>(
    ops: Ops<T>,
    e: Exec<T, E>,
    handle: WeightHandle,
    masked: Seq<Seq<T>>,
    d: nat,
    out: Matrix<T>,
    s: rng::RngState,
    row: int,
)
    requires
        e.verify_probes > 0,
        e.weights.contains_key(handle),
        0 <= row < masked.len(),
        !integrity::passes(
            ops,
            masked,
            e.weights[handle]@,
            out@,
            integrity::probe_vector(ops, s, e.weights[handle].width()),
            row,
        ),
    ensures
        e.judged(ops, handle, masked, d, out, s).0 is Some,
{
    let w = e.weights[handle];
    let r = integrity::probe_vector(ops, s, w.width());
    lemma_failing_is_found(ops, masked, w@, out@, r, 0, row);
}

proof fn lemma_failing_is_found<T>(
    ops: Ops<T>,
    lhs: Seq<Seq<T>>,
    rhs: Seq<Seq<T>>,
    observed: Seq<Seq<T>>,
    r: Seq<T>,
    i: int,
    row: int,
)
    requires
        0 <= i <= row < lhs.len(),
        !integrity::passes(ops, lhs, rhs, observed, r, row),
    ensures
        integrity::first_failing(ops, lhs, rhs, observed, r, i) <= row,
    decreases row - i,
{
    if i < row {
        lemma_failing_is_found(ops, lhs, rhs, observed, r, i + 1, row);
    }
}

} // verus!
