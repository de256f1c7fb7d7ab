//! How strong the shield is: every shield entry is a Gaussian draw times a deviation that grows
//! with the energy and with the norms of the data, whichever way the mask is chosen.

use vstd::prelude::*;

use crate::exact;
use crate::executor::Exec;
use crate::gaussian;
use crate::matrix;
use crate::recovery;
use crate::rng;
use crate::scalar::Ops;
use crate::shield;
use crate::shield::ShieldConfig;

verus! {

/// Bulk Gaussian values grow with their deviation.
pub open spec fn scales_pairs(ops: Ops<real>) -> bool {
    forall|u: u32, v: u32, sigma: real|
        {
            &&& (#[trigger] (ops.gauss_pair)(u, v, sigma)).0 == (ops.gauss_pair)(u, v, 1real).0
                * sigma
            &&& (ops.gauss_pair)(u, v, sigma).1 == (ops.gauss_pair)(u, v, 1real).1 * sigma
        }
}

/// Draw number `t` of the shield at deviation one: with a mask for the whole forward pass a
/// standard normal value, else half of the pair of bulk values that two words give.
pub open spec fn unit_draw(ops: Ops<real>, per_forward: bool, s: rng::RngState, t: nat) -> real {
    if per_forward {
        gaussian::draw(ops, s, t)
    } else {
        let p = (t / 2) as nat;
        let pair = (ops.gauss_pair)(
            rng::word_at(s, 2 * p) >> 8u32,
            rng::word_at(s, (2 * p + 1) as nat) >> 8u32,
            1real,
        );
        if t % 2 == 0 {
            pair.0
        } else {
            pair.1
        }
    }
}

/// `norms` are the Euclidean norms of the rows.
pub open spec fn are_norms(m: Seq<Seq<real>>, d: nat, norms: Seq<real>) -> bool {
    &&& norms.len() == m.len()
    &&& forall|i: int|
        0 <= i < m.len() ==> (#[trigger] norms[i]) >= 0real && norms[i] * norms[i] == exact::inner(
            m[i],
            m[i],
            d,
        )
}

/// `root` is the square root of `d`.
pub open spec fn is_root(d: nat, root: real) -> bool {
    &&& root >= 0real
    &&& root * root == d as real
}

/// `sigma` is the energy times the mean norm of the rows, over the square root of the width.
pub open spec fn is_deviation(energy: real, m: Seq<Seq<real>>, d: nat, sigma: real) -> bool {
    exists|norms: Seq<real>, root: real|
        {
            &&& #[trigger] are_norms(m, d, norms)
            &&& #[trigger] is_root(d, root)
            &&& (sigma * root) * (m.len() as real) == energy * exact::total(norms, m.len())
        }
}

/// Norms of the rows, as they are computed.
spec fn norms_of(ops: Ops<real>, m: Seq<Seq<real>>) -> Seq<real> {
    Seq::new(m.len(), |i: int| shield::row_norm(ops, m[i]))
}

/// A sum of squares is not negative.
proof fn lemma_squares(x: Seq<real>, k: nat)
    ensures
        exact::inner(x, x, k) >= 0real,
        forall|j: int| 0 <= j < k && #[trigger] x[j] != 0real ==> exact::inner(x, x, k) > 0real,
    decreases k,
{
    if k > 0 {
        lemma_squares(x, (k - 1) as nat);
        lemma_square(x[k - 1]);
    }
}

proof fn lemma_square(x: real)
    ensures
        x * x >= 0real,
        x != 0real ==> x * x > 0real,
{
    if x > 0real {
        exact::lemma_times_positive(x, x);
    } else if x < 0real {
        exact::lemma_times_positive(0real - x, 0real - x);
        exact::lemma_distribute(0real, x, 0real - x);
        exact::lemma_distribute(0real, x, x);
    } else {
        exact::lemma_distribute(0real, 0real, x);
    }
}

proof fn lemma_norms(ops: Ops<real>, m: Seq<Seq<real>>, d: nat, k: nat)
    requires
        exact::exact(ops),
        matrix::is_grid(m, m.len(), d),
        k <= m.len(),
    ensures
        are_norms(m, d, norms_of(ops, m)),
        shield::norm_sum(ops, m, k) == exact::total(norms_of(ops, m), k),
    decreases k,
{
    let norms = norms_of(ops, m);
    assert forall|i: int| 0 <= i < m.len() implies (#[trigger] norms[i]) >= 0real && norms[i]
        * norms[i] == exact::inner(m[i], m[i], d) by {
        assert(m[i].len() == d);
        exact::law_dot_is_the_inner_product(ops, m[i], m[i], d);
        lemma_squares(m[i], d);
    }
    if k > 0 {
        lemma_norms(ops, m, d, (k - 1) as nat);
    }
}

proof fn lemma_square_root_positive(root: real, d: nat)
    requires
        root >= 0real,
        root * root == d as real,
        d > 0,
    ensures
        root > 0real,
{
    if root == 0real {
        exact::lemma_distribute(0real, 0real, root);
    }
}

/// The deviation that is computed is the one that is meant, and scales with the energy.
proof fn lemma_deviation(ops: Ops<real>, energy: real, m: Seq<Seq<real>>, d: nat)
    requires
        exact::exact(ops),
        matrix::is_grid(m, m.len(), d),
        m.len() > 0,
        d > 0,
    ensures
        is_deviation(energy, m, d, shield::deviation(ops, energy, m, d)),
        forall|c: real| #[trigger]
            shield::deviation(ops, c * energy, m, d) == c * shield::deviation(ops, energy, m, d),
{
    let n = m.len() as real;
    let root = (ops.sqrt)(d as real);
    let norms = norms_of(ops, m);
    let mean = shield::mean_norm(ops, m);
    let sigma = shield::deviation(ops, energy, m, d);
    lemma_norms(ops, m, d, m.len());
    lemma_square_root_positive(root, d);
    let sum = exact::total(norms, m.len());
    exact::lemma_quotient(sum, n);
    assert(mean * n == sum);
    exact::lemma_quotient(energy * mean, root);
    assert(sigma * root == energy * mean);
    exact::lemma_times_assoc(energy, mean, n);
    assert(is_root(d, root));
    assert forall|c: real| #[trigger] shield::deviation(ops, c * energy, m, d) == c * sigma by {
        let scaled = shield::deviation(ops, c * energy, m, d);
        exact::lemma_quotient((c * energy) * mean, root);
        exact::lemma_times_assoc(c, energy, mean);
        exact::lemma_times_assoc(c, sigma, root);
        assert(scaled * root == (c * sigma) * root);
        exact::lemma_distribute(scaled, c * sigma, root);
        lemma_cancel(scaled - c * sigma, root);
    }
}

proof fn lemma_cancel(x: real, y: real)
    requires
        x * y == 0real,
        y > 0real,
    ensures
        x == 0real,
{
    if x > 0real {
        exact::lemma_times_positive(x, y);
    } else if x < 0real {
        exact::lemma_times_positive(0real - x, y);
        exact::lemma_distribute(0real, x, y);
    }
}

/// An entry of the shield is a draw times the deviation.
proof fn lemma_shield_entry<E>(
    ops: Ops<real>,
    e: Exec<real, E>,
    hidden: Seq<Seq<real>>,
    d: nat,
    s: rng::RngState,
    i: int,
    j: int,
)
    requires
        exact::exact(ops),
        scales_pairs(ops),
        0 <= i < e.shield.k,
        0 <= j < d,
    ensures
        e.shielded(ops, hidden, d, s).0.len() == hidden.len() + e.shield.k,
        e.shielded(ops, hidden, d, s).0[hidden.len() + i][j] == unit_draw(
            ops,
            e.per_forward_mask,
            s,
            (i * d + j) as nat,
        ) * shield::deviation(ops, e.shield.energy_scale, hidden, d),
{
    let k = e.shield.k as nat;
    let sigma = shield::deviation(ops, e.shield.energy_scale, hidden, d);
    assert(0 <= i * d + j < k * d) by (nonlinear_arith)
        requires
            0 <= i < k,
            0 <= j < d,
    ;
    if e.per_forward_mask {
        gaussian::law_entries_are_drawn_in_turn(ops, s, k, d, sigma, i, j);
    } else {
        let t = i * d + j;
        let values = gaussian::bulk(ops, s, k * d, sigma);
        let row = shield::bulk_rows(ops, s, k, d, sigma)[i];
        assert(row[j] == values[t]);
        if sigma == 0real {
            let z = unit_draw(ops, false, s, t as nat);
            exact::lemma_times_comm(z, 0real);
            exact::lemma_distribute(0real, 0real, z);
        }
    }
}

/// The rows that stand under the data before the mask is applied.
pub open spec fn shield_entry<E>(
    ops: Ops<real>,
    e: Exec<real, E>,
    hidden: Seq<Seq<real>>,
    d: nat,
    i: int,
    j: int,
) -> real {
    let (m, masked, _) = e.prepared(ops, hidden, d);
    m.unmasked(ops, masked, d)[hidden.len() + i][j]
}

proof fn lemma_bare_entry<E>(
    ops: Ops<real>,
    e: Exec<real, E>,
    hidden: Seq<Seq<real>>,
    d: nat,
    count: nat,
    i: int,
    j: int,
)
    requires
        exact::exact(ops),
        scales_pairs(ops),
        matrix::is_grid(hidden, hidden.len(), d),
        e.offload_error(hidden.len(), d, count) is None,
        recovery::session_sound(ops, e),
        0 <= i < e.shield.k,
        0 <= j < d,
    ensures
        shield_entry(ops, e, hidden, d, i, j) == unit_draw(
            ops,
            e.per_forward_mask,
            e.mask_for(ops, hidden.len()).1,
            (i * d + j) as nat,
        ) * shield::deviation(ops, e.shield.energy_scale, hidden, d),
{
    let (m, stream) = e.mask_for(ops, hidden.len());
    recovery::lemma_prepared_unmasks(ops, e, hidden, d, count);
    lemma_shield_entry(ops, e, hidden, d, stream, i, j);
    let sh = e.shielded(ops, hidden, d, stream).0;
    let x = e.operand(ops, hidden, d, m.n(), stream);
    assert(x[hidden.len() + i] == sh[hidden.len() + i]);
}

/// Whichever way the mask is chosen, what the mask hides holds below the data as many rows as
/// the shield has, and every entry of theirs is its own draw of the stream times one deviation:
/// the energy times the mean norm of the data rows, over the square root of their width.
pub proof fn law_shield_entries_are_scaled_draws<E>(
    ops: Ops<real>,
    e: Exec<real, E>,
    hidden: Seq<Seq<real>>,
    d: nat,
    count: nat,
) -> (sigma: real)
    requires
        exact::exact(ops),
        scales_pairs(ops),
        matrix::is_grid(hidden, hidden.len(), d),
        e.offload_error(hidden.len(), d, count) is None,
        recovery::session_sound(ops, e),
        hidden.len() > 0,
        d > 0,
    ensures
        is_deviation(e.shield.energy_scale, hidden, d, sigma),
        forall|i: int, j: int|
            0 <= i < e.shield.k && 0 <= j < d ==> #[trigger] shield_entry(
                ops,
                e,
                hidden,
                d,
                i,
                j,
            ) == unit_draw(
                ops,
                e.per_forward_mask,
                e.mask_for(ops, hidden.len()).1,
                (i * d + j) as nat,
            ) * sigma,
{
    let sigma = shield::deviation(ops, e.shield.energy_scale, hidden, d);
    lemma_deviation(ops, e.shield.energy_scale, hidden, d);
    assert forall|i: int, j: int| 0 <= i < e.shield.k && 0 <= j < d implies #[trigger] shield_entry(
        ops,
        e,
        hidden,
        d,
        i,
        j,
    ) == unit_draw(
        ops,
        e.per_forward_mask,
        e.mask_for(ops, hidden.len()).1,
        (i * d + j) as nat,
    ) * sigma by {
        lemma_bare_entry(ops, e, hidden, d, count, i, j);
    }
    sigma
}

/// The executor with the energy of its shield multiplied.
pub open spec fn energised<E>(e: Exec<real, E>, c: real) -> Exec<real, E> {
    Exec {
        shield: ShieldConfig { k: e.shield.k, energy_scale: c * e.shield.energy_scale },
        ..e
    }
}

/// A shield of `c` times the energy has `c` times the entries, and the same mask.
pub proof fn law_energy_scales_the_shield<E>(
    ops: Ops<real>,
    e: Exec<real, E>,
    c: real,
    hidden: Seq<Seq<real>>,
    d: nat,
    count: nat,
    i: int,
    j: int,
)
    requires
        exact::exact(ops),
        scales_pairs(ops),
        matrix::is_grid(hidden, hidden.len(), d),
        e.offload_error(hidden.len(), d, count) is None,
        recovery::session_sound(ops, e),
        hidden.len() > 0,
        0 <= i < e.shield.k,
        0 <= j < d,
    ensures
        shield_entry(ops, energised(e, c), hidden, d, i, j) == c * shield_entry(
            ops,
            e,
            hidden,
            d,
            i,
            j,
        ),
{
    let f = energised(e, c);
    let energy = e.shield.energy_scale;
    let z = unit_draw(
        ops,
        e.per_forward_mask,
        e.mask_for(ops, hidden.len()).1,
        (i * d + j) as nat,
    );
    assert(f.offload_error(hidden.len(), d, count) is None);
    assert(f.mask_for(ops, hidden.len()) == e.mask_for(ops, hidden.len()));
    lemma_bare_entry(ops, e, hidden, d, count, i, j);
    lemma_bare_entry(ops, f, hidden, d, count, i, j);
    lemma_deviation(ops, energy, hidden, d);
    let sigma = shield::deviation(ops, energy, hidden, d);
    assert(shield::deviation(ops, c * energy, hidden, d) == c * sigma);
    exact::lemma_times_comm(z, c * sigma);
    exact::lemma_times_assoc(c, sigma, z);
    exact::lemma_times_comm(sigma, z);
}

/// Where the energy is positive and the data is not all zero, a shield entry is zero only where
/// its draw is.
pub proof fn law_shield_is_not_silent<E>(
    ops: Ops<real>,
    e: Exec<real, E>,
    hidden: Seq<Seq<real>>,
    d: nat,
    count: nat,
    a: int,
    b: int,
    i: int,
    j: int,
)
    requires
        exact::exact(ops),
        scales_pairs(ops),
        matrix::is_grid(hidden, hidden.len(), d),
        e.offload_error(hidden.len(), d, count) is None,
        recovery::session_sound(ops, e),
        e.shield.energy_scale > 0real,
        0 <= a < hidden.len(),
        0 <= b < d,
        hidden[a][b] != 0real,
        0 <= i < e.shield.k,
        0 <= j < d,
        unit_draw(
            ops,
            e.per_forward_mask,
            e.mask_for(ops, hidden.len()).1,
            (i * d + j) as nat,
        ) != 0real,
    ensures
        shield_entry(ops, e, hidden, d, i, j) != 0real,
{
    let energy = e.shield.energy_scale;
    let sigma = shield::deviation(ops, energy, hidden, d);
    let z = unit_draw(
        ops,
        e.per_forward_mask,
        e.mask_for(ops, hidden.len()).1,
        (i * d + j) as nat,
    );
    lemma_bare_entry(ops, e, hidden, d, count, i, j);
    lemma_deviation(ops, energy, hidden, d);
    let (norms, root) = choose|norms: Seq<real>, root: real|
        {
            &&& #[trigger] are_norms(hidden, d, norms)
            &&& #[trigger] is_root(d, root)
            &&& (sigma * root) * (hidden.len() as real) == energy * exact::total(
                norms,
                hidden.len(),
            )
        };
    lemma_squares(hidden[a], d);
    assert(norms[a] > 0real) by {
        if norms[a] == 0real {
            exact::lemma_distribute(0real, 0real, norms[a]);
        }
    }
    lemma_some_positive(norms, a, hidden.len());
    exact::lemma_times_positive(energy, exact::total(norms, hidden.len()));
    if z * sigma == 0real {
        if sigma == 0real {
            exact::lemma_distribute(0real, 0real, root);
            exact::lemma_distribute(0real, 0real, hidden.len() as real);
        } else {
            if z > 0real {
                exact::lemma_times_comm(z, sigma);
                lemma_cancel(sigma, z);
            } else {
                exact::lemma_times_comm(z, sigma);
                exact::lemma_distribute(0real, z, sigma);
                lemma_cancel(sigma, 0real - z);
            }
        }
    }
}

/// Numbers that are not negative, of which one is positive, add up to more than zero.
proof fn lemma_some_positive(x: Seq<real>, a: int, k: nat)
    requires
        forall|i: int| 0 <= i < k ==> #[trigger] x[i] >= 0real,
        0 <= a,
        a < k ==> x[a] > 0real,
    ensures
        exact::total(x, k) >= 0real,
        a < k ==> exact::total(x, k) > 0real,
    decreases k,
{
    if k > 0 {
        lemma_some_positive(x, a, (k - 1) as nat);
        assert(x[k - 1] >= 0real);
    }
}

} // verus!
