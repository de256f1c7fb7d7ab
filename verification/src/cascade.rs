//! The sign-and-transform cascades over exact arithmetic: each is undone by its reverse, and
//! commutes with a product from the right.

use vstd::arithmetic::div_mod::{
    lemma_div_denominator, lemma_fundamental_div_mod, lemma_fundamental_div_mod_converse,
};
use vstd::prelude::*;

use crate::dct4;
use crate::exact;
use crate::hd3;
use crate::matrix;
use crate::pow2;
use crate::scalar::Ops;

verus! {

/// Row `i` is the first of its butterfly at step `h`.
spec fn leads(i: int, h: int) -> bool {
    (i / h) % 2 == 0
}

/// The other row of the butterfly of row `i` at step `h`.
spec fn partner(i: int, h: int) -> int {
    if leads(i, h) {
        i + h
    } else {
        i - h
    }
}

/// Shifting by a multiple of `h` shifts the quotient by `h`.
proof fn lemma_shift(i: int, h: int, k: int)
    requires
        h > 0,
    ensures
        (i + k * h) / h == i / h + k,
{
    let q = i / h;
    let r = i % h;
    lemma_fundamental_div_mod(i, h);
    assert((q + k) * h == h * q + k * h) by (nonlinear_arith);
    lemma_fundamental_div_mod_converse(i + k * h, h, q + k, r);
}

/// The two rows of a butterfly are each other's partner.
proof fn lemma_paired(i: int, h: int)
    requires
        h > 0,
    ensures
        leads(partner(i, h), h) == !leads(i, h),
        partner(partner(i, h), h) == i,
{
    lemma_shift(i, h, 1);
    lemma_shift(i, h, -1);
}

/// Butterflies at steps `h` and `2hk` act on separate bits of the row number.
proof fn lemma_separate(i: int, h: int, k: int)
    requires
        h > 0,
        k > 0,
        i >= 0,
        partner(i, h) >= 0,
    ensures
        leads(partner(i, h), 2 * h * k) == leads(i, 2 * h * k),
        leads(partner(i, 2 * h * k), h) == leads(i, h),
        partner(partner(i, h), 2 * h * k) == partner(partner(i, 2 * h * k), h),
{
    let g = 2 * h * k;
    assert(g == h * (2 * k)) by (nonlinear_arith)
        requires
            g == 2 * h * k,
    ;
    assert(g == 2 * k * h) by (nonlinear_arith)
        requires
            g == 2 * h * k,
    ;
    assert(g > 0) by (nonlinear_arith)
        requires
            g == 2 * h * k,
            h > 0,
            k > 0,
    ;
    let q = i / h;
    let p = partner(i, h);
    lemma_shift(i, h, 1);
    lemma_shift(i, h, -1);
    assert(p / h / 2 == q / 2);
    lemma_div_denominator(i, h, 2 * k);
    lemma_div_denominator(p, h, 2 * k);
    assert(i / h >= 0) by (nonlinear_arith)
        requires
            i >= 0,
            h > 0,
    ;
    assert(p / h >= 0) by (nonlinear_arith)
        requires
            p >= 0,
            h > 0,
    ;
    lemma_div_denominator(i / h, 2, k);
    lemma_div_denominator(p / h, 2, k);
    assert(i / g == p / g);
    lemma_shift(i, h, 2 * k);
    lemma_shift(i, h, -2 * k);
    assert(-2 * k * h == -g) by (nonlinear_arith)
        requires
            g == 2 * k * h,
    ;
}

/// Partners stay inside a matrix whose number of rows is a larger power of two.
proof fn lemma_inside(n: nat, h: nat, i: int)
    requires
        pow2::is_pow2(n),
        pow2::is_pow2(h),
        h < n,
        0 <= i < n,
    ensures
        h > 0,
        0 <= partner(i, h as int) < n,
{
    hd3::lemma_partner(n, h, i);
}

/// What one stage of butterflies puts in row `i`.
proof fn lemma_stage_entry(ops: Ops<real>, m: Seq<Seq<real>>, n: nat, d: nat, h: nat, i: int, j: int)
    requires
        exact::exact(ops),
        matrix::is_grid(m, n, d),
        pow2::is_pow2(n),
        pow2::is_pow2(h),
        h < n,
        0 <= i < n,
        0 <= j < d,
    ensures
        hd3::stage(ops, m, h as int)[i].len() == d,
        hd3::stage(ops, m, h as int)[i][j] == m[partner(i, h as int)][j] + if leads(i, h as int) {
            m[i][j]
        } else {
            0real - m[i][j]
        },
{
    lemma_inside(n, h, i);
    assert(m[i].len() == d);
    assert(m[partner(i, h as int)].len() == d);
}

/// A stage keeps the shape.
pub proof fn lemma_stage_grid(ops: Ops<real>, m: Seq<Seq<real>>, n: nat, d: nat, h: nat)
    requires
        matrix::is_grid(m, n, d),
        pow2::is_pow2(n),
        pow2::is_pow2(h),
        h < n,
    ensures
        matrix::is_grid(hd3::stage(ops, m, h as int), n, d),
{
    let s = hd3::stage(ops, m, h as int);
    assert forall|i: int| 0 <= i < n implies #[trigger] s[i].len() == d by {
        lemma_inside(n, h, i);
        assert(m[i].len() == d);
        assert(m[partner(i, h as int)].len() == d);
    }
}

/// A stage applied twice doubles.
proof fn lemma_stage_twice(ops: Ops<real>, m: Seq<Seq<real>>, n: nat, d: nat, h: nat)
    requires
        exact::exact(ops),
        matrix::is_grid(m, n, d),
        pow2::is_pow2(n),
        pow2::is_pow2(h),
        h < n,
    ensures
        hd3::stage(ops, hd3::stage(ops, m, h as int), h as int) == matrix::scaled(ops, m, 2real),
{
    let s = hd3::stage(ops, m, h as int);
    let t = hd3::stage(ops, s, h as int);
    let u = matrix::scaled(ops, m, 2real);
    lemma_stage_grid(ops, m, n, d, h);
    lemma_stage_grid(ops, s, n, d, h);
    assert forall|i: int| 0 <= i < n implies #[trigger] t[i] == u[i] by {
        assert(t[i].len() == d);
        assert(m[i].len() == d);
        assert forall|j: int| 0 <= j < d implies #[trigger] t[i][j] == u[i][j] by {
            let p = partner(i, h as int);
            lemma_inside(n, h, i);
            lemma_paired(i, h as int);
            lemma_stage_entry(ops, s, n, d, h, i, j);
            lemma_stage_entry(ops, m, n, d, h, i, j);
            lemma_stage_entry(ops, m, n, d, h, p, j);
        }
        assert(t[i] =~= u[i]);
    }
    assert(t =~= u);
}

/// Stages of different steps may be exchanged.
proof fn lemma_stages_exchange(
    ops: Ops<real>,
    m: Seq<Seq<real>>,
    n: nat,
    d: nat,
    h: nat,
    g: nat,
)
    requires
        exact::exact(ops),
        matrix::is_grid(m, n, d),
        pow2::is_pow2(n),
        pow2::is_pow2(h),
        pow2::is_pow2(g),
        h < g < n,
    ensures
        hd3::stage(ops, hd3::stage(ops, m, g as int), h as int) == hd3::stage(
            ops,
            hd3::stage(ops, m, h as int),
            g as int,
        ),
{
    let sg = hd3::stage(ops, m, g as int);
    let sh = hd3::stage(ops, m, h as int);
    let t = hd3::stage(ops, sg, h as int);
    let u = hd3::stage(ops, sh, g as int);
    lemma_stage_grid(ops, m, n, d, g);
    lemma_stage_grid(ops, m, n, d, h);
    lemma_stage_grid(ops, sg, n, d, h);
    lemma_stage_grid(ops, sh, n, d, g);
    pow2::lemma_pow2_step(h, g);
    let k = choose|k: nat| k > 0 && g == #[trigger] (2 * h * k);
    assert forall|i: int| 0 <= i < n implies #[trigger] t[i] == u[i] by {
        assert(t[i].len() == d);
        assert(u[i].len() == d);
        assert forall|j: int| 0 <= j < d implies #[trigger] t[i][j] == u[i][j] by {
            let ph = partner(i, h as int);
            let pg = partner(i, g as int);
            lemma_inside(n, h, i);
            lemma_inside(n, g, i);
            lemma_inside(n, g, ph);
            lemma_separate(i, h as int, k as int);
            lemma_stage_entry(ops, sg, n, d, h, i, j);
            lemma_stage_entry(ops, sh, n, d, g, i, j);
            lemma_stage_entry(ops, m, n, d, g, i, j);
            lemma_stage_entry(ops, m, n, d, g, ph, j);
            lemma_stage_entry(ops, m, n, d, h, i, j);
            lemma_stage_entry(ops, m, n, d, h, pg, j);
        }
        assert(t[i] =~= u[i]);
    }
    assert(t =~= u);
}

/// The stages from step `h` on keep the shape.
pub proof fn lemma_stages_grid(ops: Ops<real>, m: Seq<Seq<real>>, n: nat, d: nat, h: nat)
    requires
        matrix::is_grid(m, n, d),
        pow2::is_pow2(n),
        pow2::is_pow2(h),
    ensures
        matrix::is_grid(hd3::stages_from(ops, m, h), n, d),
    decreases (if h < n { n - h } else { 0 }),
{
    pow2::lemma_pow2_positive(h);
    if h < n {
        pow2::lemma_pow2_step(h, n);
        lemma_stage_grid(ops, m, n, d, h);
        lemma_stages_grid(ops, hd3::stage(ops, m, h as int), n, d, 2 * h);
    }
}

/// A stage may be exchanged with all stages of larger steps.
proof fn lemma_stage_past_stages(
    ops: Ops<real>,
    m: Seq<Seq<real>>,
    n: nat,
    d: nat,
    h: nat,
    g: nat,
)
    requires
        exact::exact(ops),
        matrix::is_grid(m, n, d),
        pow2::is_pow2(n),
        pow2::is_pow2(h),
        pow2::is_pow2(g),
        h < g,
        h < n,
    ensures
        hd3::stage(ops, hd3::stages_from(ops, m, g), h as int) == hd3::stages_from(
            ops,
            hd3::stage(ops, m, h as int),
            g,
        ),
    decreases (if g < n { n - g } else { 0 }),
{
    pow2::lemma_pow2_positive(g);
    lemma_stage_grid(ops, m, n, d, h);
    if g < n {
        pow2::lemma_pow2_step(g, n);
        lemma_stage_grid(ops, m, n, d, g);
        lemma_stage_past_stages(ops, hd3::stage(ops, m, g as int), n, d, h, 2 * g);
        lemma_stages_exchange(ops, m, n, d, h, g);
    }
}

/// A factor may be taken out of a stage.
proof fn lemma_stage_of_scaled(
    ops: Ops<real>,
    m: Seq<Seq<real>>,
    n: nat,
    d: nat,
    h: nat,
    c: real,
)
    requires
        exact::exact(ops),
        matrix::is_grid(m, n, d),
        pow2::is_pow2(n),
        pow2::is_pow2(h),
        h < n,
    ensures
        hd3::stage(ops, matrix::scaled(ops, m, c), h as int) == matrix::scaled(
            ops,
            hd3::stage(ops, m, h as int),
            c,
        ),
{
    let sm = matrix::scaled(ops, m, c);
    assert(matrix::is_grid(sm, n, d)) by {
        assert forall|i: int| 0 <= i < n implies #[trigger] sm[i].len() == d by {
            assert(m[i].len() == d);
        }
    }
    let t = hd3::stage(ops, sm, h as int);
    let s = hd3::stage(ops, m, h as int);
    let u = matrix::scaled(ops, s, c);
    lemma_stage_grid(ops, sm, n, d, h);
    lemma_stage_grid(ops, m, n, d, h);
    assert forall|i: int| 0 <= i < n implies #[trigger] t[i] == u[i] by {
        assert(t[i].len() == d);
        assert(s[i].len() == d);
        assert forall|j: int| 0 <= j < d implies #[trigger] t[i][j] == u[i][j] by {
            let p = partner(i, h as int);
            lemma_inside(n, h, i);
            lemma_stage_entry(ops, sm, n, d, h, i, j);
            lemma_stage_entry(ops, m, n, d, h, i, j);
            assert(m[i].len() == d && m[p].len() == d);
            exact::lemma_distribute(m[p][j], m[i][j], c);
        }
        assert(t[i] =~= u[i]);
    }
    assert(t =~= u);
}

/// A factor may be taken out of all stages from step `h` on.
proof fn lemma_stages_of_scaled(
    ops: Ops<real>,
    m: Seq<Seq<real>>,
    n: nat,
    d: nat,
    h: nat,
    c: real,
)
    requires
        exact::exact(ops),
        matrix::is_grid(m, n, d),
        pow2::is_pow2(n),
        pow2::is_pow2(h),
    ensures
        hd3::stages_from(ops, matrix::scaled(ops, m, c), h) == matrix::scaled(
            ops,
            hd3::stages_from(ops, m, h),
            c,
        ),
    decreases (if h < n { n - h } else { 0 }),
{
    pow2::lemma_pow2_positive(h);
    if h < n {
        pow2::lemma_pow2_step(h, n);
        lemma_stage_grid(ops, m, n, d, h);
        lemma_stage_of_scaled(ops, m, n, d, h, c);
        lemma_stages_of_scaled(ops, hd3::stage(ops, m, h as int), n, d, 2 * h, c);
    }
}

/// Two factors make one.
proof fn lemma_scaled_twice(ops: Ops<real>, m: Seq<Seq<real>>, a: real, b: real)
    requires
        exact::exact(ops),
    ensures
        matrix::scaled(ops, matrix::scaled(ops, m, a), b) == matrix::scaled(ops, m, a * b),
{
    let t = matrix::scaled(ops, matrix::scaled(ops, m, a), b);
    let u = matrix::scaled(ops, m, a * b);
    assert forall|i: int| 0 <= i < m.len() implies #[trigger] t[i] == u[i] by {
        assert forall|j: int| 0 <= j < m[i].len() implies #[trigger] t[i][j] == u[i][j] by {
            exact::lemma_times_assoc(m[i][j], a, b);
        }
        assert(t[i] =~= u[i]);
    }
    assert(t =~= u);
}

/// The factor one changes nothing.
pub proof fn lemma_scaled_by_one(ops: Ops<real>, m: Seq<Seq<real>>)
    requires
        exact::exact(ops),
    ensures
        matrix::scaled(ops, m, 1real) == m,
{
    let t = matrix::scaled(ops, m, 1real);
    assert forall|i: int| 0 <= i < m.len() implies #[trigger] t[i] == m[i] by {
        assert(t[i] =~= m[i]);
    }
    assert(t =~= m);
}

/// The stages from step `h` on, applied twice, scale by the number of rows over `h`.
proof fn lemma_stages_twice(ops: Ops<real>, m: Seq<Seq<real>>, n: nat, d: nat, h: nat, k: nat)
    requires
        exact::exact(ops),
        matrix::is_grid(m, n, d),
        pow2::is_pow2(n),
        pow2::is_pow2(h),
        n == h * k,
    ensures
        hd3::stages_from(ops, hd3::stages_from(ops, m, h), h) == matrix::scaled(
            ops,
            m,
            k as real,
        ),
    decreases (if h < n { n - h } else { 0 }),
{
    pow2::lemma_pow2_positive(h);
    pow2::lemma_pow2_positive(n);
    if h < n {
        pow2::lemma_pow2_step(h, n);
        let half = choose|x: nat| x > 0 && n == #[trigger] (2 * h * x);
        assert(k == 2 * half) by (nonlinear_arith)
            requires
                n == h * k,
                n == 2 * h * half,
                h > 0,
        ;
        let s = hd3::stage(ops, m, h as int);
        lemma_stage_grid(ops, m, n, d, h);
        let f = hd3::stages_from(ops, s, 2 * h);
        lemma_stages_grid(ops, s, n, d, 2 * h);
        lemma_stage_past_stages(ops, s, n, d, h, 2 * h);
        let ss = hd3::stage(ops, s, h as int);
        lemma_stage_grid(ops, s, n, d, h);
        lemma_stages_twice(ops, ss, n, d, 2 * h, half);
        lemma_stage_twice(ops, m, n, d, h);
        lemma_scaled_twice(ops, m, 2real, half as real);
        assert(2real * (half as real) == k as real);
    } else {
        assert(k == 1) by (nonlinear_arith)
            requires
                n == h * k,
                h >= n,
                n > 0,
        ;
        lemma_scaled_by_one(ops, m);
    }
}

/// The Walsh-Hadamard transform applied twice scales by the number of rows.
pub proof fn law_hadamard_twice_scales(ops: Ops<real>, m: Seq<Seq<real>>, n: nat, d: nat)
    requires
        exact::exact(ops),
        matrix::is_grid(m, n, d),
        pow2::is_pow2(n),
    ensures
        hd3::hadamard(ops, hd3::hadamard(ops, m)) == matrix::scaled(ops, m, n as real),
{
    pow2::lemma_one_is_pow2();
    lemma_stages_twice(ops, m, n, d, 1, n);
}

/// Flipping keeps the shape.
pub proof fn lemma_flipped_grid(ops: Ops<real>, m: Seq<Seq<real>>, plus: Seq<bool>, n: nat, d: nat)
    requires
        matrix::is_grid(m, n, d),
    ensures
        matrix::is_grid(hd3::flipped(ops, m, plus), n, d),
{
    let f = hd3::flipped(ops, m, plus);
    assert forall|i: int| 0 <= i < n implies #[trigger] f[i].len() == d by {
        assert(m[i].len() == d);
    }
}

/// Scaling keeps the shape.
proof fn lemma_scaled_grid(ops: Ops<real>, m: Seq<Seq<real>>, c: real, n: nat, d: nat)
    requires
        matrix::is_grid(m, n, d),
    ensures
        matrix::is_grid(matrix::scaled(ops, m, c), n, d),
{
    let f = matrix::scaled(ops, m, c);
    assert forall|i: int| 0 <= i < n implies #[trigger] f[i].len() == d by {
        assert(m[i].len() == d);
    }
}

/// Flipping twice changes nothing.
proof fn lemma_flipped_twice(ops: Ops<real>, m: Seq<Seq<real>>, plus: Seq<bool>)
    requires
        exact::exact(ops),
    ensures
        hd3::flipped(ops, hd3::flipped(ops, m, plus), plus) == m,
{
    let t = hd3::flipped(ops, hd3::flipped(ops, m, plus), plus);
    assert forall|i: int| 0 <= i < m.len() implies #[trigger] t[i] == m[i] by {
        assert(t[i] =~= m[i]);
    }
    assert(t =~= m);
}

/// A factor may be taken out of a flip.
proof fn lemma_flipped_of_scaled(ops: Ops<real>, m: Seq<Seq<real>>, plus: Seq<bool>, c: real)
    requires
        exact::exact(ops),
    ensures
        hd3::flipped(ops, matrix::scaled(ops, m, c), plus) == matrix::scaled(
            ops,
            hd3::flipped(ops, m, plus),
            c,
        ),
{
    let t = hd3::flipped(ops, matrix::scaled(ops, m, c), plus);
    let u = matrix::scaled(ops, hd3::flipped(ops, m, plus), c);
    assert forall|i: int| 0 <= i < m.len() implies #[trigger] t[i] == u[i] by {
        assert forall|j: int| 0 <= j < m[i].len() implies #[trigger] t[i][j] == u[i][j] by {
            exact::lemma_distribute(0real, m[i][j], c);
        }
        assert(t[i] =~= u[i]);
    }
    assert(t =~= u);
}

/// `f` transforms matrices of one shape, lets factors through, and undoes itself up to the
/// factor `t`.
pub open spec fn is_transform(
    ops: Ops<real>,
    f: spec_fn(Seq<Seq<real>>) -> Seq<Seq<real>>,
    n: nat,
    d: nat,
    t: real,
) -> bool {
    &&& forall|m: Seq<Seq<real>>|
        matrix::is_grid(m, n, d) ==> matrix::is_grid(#[trigger] f(m), n, d) && f(f(m))
            == matrix::scaled(ops, m, t)
    &&& forall|m: Seq<Seq<real>>, c: real|
        matrix::is_grid(m, n, d) ==> #[trigger] f(matrix::scaled(ops, m, c)) == matrix::scaled(
            ops,
            f(m),
            c,
        )
}

/// Three transforms, each followed by a flip, and a factor.
pub open spec fn mixed(
    ops: Ops<real>,
    f: spec_fn(Seq<Seq<real>>) -> Seq<Seq<real>>,
    c: hd3::Cascade<real>,
    m: Seq<Seq<real>>,
) -> Seq<Seq<real>> {
    let a = hd3::flipped(ops, f(m), c.d1);
    let b = hd3::flipped(ops, f(a), c.d2);
    matrix::scaled(ops, hd3::flipped(ops, f(b), c.d3), c.inv_norm)
}

/// Three flips, each followed by a transform, and a factor.
pub open spec fn unmixed(
    ops: Ops<real>,
    f: spec_fn(Seq<Seq<real>>) -> Seq<Seq<real>>,
    c: hd3::Cascade<real>,
    m: Seq<Seq<real>>,
) -> Seq<Seq<real>> {
    let a = f(hd3::flipped(ops, m, c.d3));
    let b = f(hd3::flipped(ops, a, c.d2));
    matrix::scaled(ops, f(hd3::flipped(ops, b, c.d1)), c.inv_norm)
}

/// A cascade is undone by its reverse where its factor makes up for six transforms.
proof fn lemma_unmixed_mixed(
    ops: Ops<real>,
    f: spec_fn(Seq<Seq<real>>) -> Seq<Seq<real>>,
    c: hd3::Cascade<real>,
    m: Seq<Seq<real>>,
    n: nat,
    d: nat,
    t: real,
)
    requires
        exact::exact(ops),
        is_transform(ops, f, n, d, t),
        matrix::is_grid(m, n, d),
        (c.inv_norm * c.inv_norm) * ((t * t) * t) == 1real,
    ensures
        unmixed(ops, f, c, mixed(ops, f, c, m)) == m,
{
    let s = c.inv_norm;
    let f1 = f(m);
    let a = hd3::flipped(ops, f1, c.d1);
    lemma_flipped_grid(ops, f1, c.d1, n, d);
    let f2 = f(a);
    let b = hd3::flipped(ops, f2, c.d2);
    lemma_flipped_grid(ops, f2, c.d2, n, d);
    let f3 = f(b);
    let e = hd3::flipped(ops, f3, c.d3);
    lemma_flipped_grid(ops, f3, c.d3, n, d);
    let masked = matrix::scaled(ops, e, s);
    // Undo the last flip: what is left is the third transform, scaled.
    lemma_flipped_of_scaled(ops, e, c.d3, s);
    lemma_flipped_twice(ops, f3, c.d3);
    let u = f(hd3::flipped(ops, masked, c.d3));
    assert(u == matrix::scaled(ops, matrix::scaled(ops, b, t), s));
    lemma_scaled_twice(ops, b, t, s);
    let ts = t * s;
    // Then the second, and the first.
    lemma_flipped_of_scaled(ops, b, c.d2, ts);
    lemma_flipped_twice(ops, f2, c.d2);
    let v = f(hd3::flipped(ops, u, c.d2));
    assert(v == matrix::scaled(ops, matrix::scaled(ops, a, t), ts));
    lemma_scaled_twice(ops, a, t, ts);
    let tts = t * ts;
    lemma_flipped_of_scaled(ops, a, c.d1, tts);
    lemma_flipped_twice(ops, f1, c.d1);
    let w = f(hd3::flipped(ops, v, c.d1));
    assert(w == matrix::scaled(ops, matrix::scaled(ops, m, t), tts));
    lemma_scaled_twice(ops, m, t, tts);
    lemma_scaled_twice(ops, m, t * tts, s);
    assert((t * tts) * s == 1real) by {
        exact::lemma_times_assoc(t, t, s);
        exact::lemma_times_assoc(t, t * t, s);
        exact::lemma_times_comm(t, t * t);
        exact::lemma_times_assoc((t * t) * t, s, s);
        exact::lemma_times_comm((t * t) * t, s * s);
    }
    lemma_scaled_by_one(ops, m);
}

/// The Walsh-Hadamard transform is a transform that scales by the number of rows.
proof fn lemma_hadamard_is_transform(ops: Ops<real>, n: nat, d: nat)
    requires
        exact::exact(ops),
        pow2::is_pow2(n),
    ensures
        is_transform(ops, |m: Seq<Seq<real>>| hd3::hadamard(ops, m), n, d, n as real),
{
    let f = |m: Seq<Seq<real>>| hd3::hadamard(ops, m);
    pow2::lemma_one_is_pow2();
    assert forall|m: Seq<Seq<real>>| matrix::is_grid(m, n, d) implies matrix::is_grid(
        #[trigger] f(m),
        n,
        d,
    ) && f(f(m)) == matrix::scaled(ops, m, n as real) by {
        lemma_stages_grid(ops, m, n, d, 1);
        law_hadamard_twice_scales(ops, m, n, d);
    }
    assert forall|m: Seq<Seq<real>>, c: real| matrix::is_grid(m, n, d) implies #[trigger] f(
        matrix::scaled(ops, m, c),
    ) == matrix::scaled(ops, f(m), c) by {
        lemma_stages_of_scaled(ops, m, n, d, 1, c);
    }
}

/// The cosine transform is the product with its matrix.
pub proof fn lemma_cosine_is_product(
    ops: Ops<real>,
    c: Seq<Seq<real>>,
    m: Seq<Seq<real>>,
    n: nat,
    d: nat,
)
    requires
        n >= 1,
        exact::is_cosine_matrix(c, ops, n),
        matrix::is_grid(m, n, d),
    ensures
        dct4::cosine(ops, m, d) == matrix::product(ops, c, m, d),
{
    let p = matrix::product(ops, c, m, d);
    let q = dct4::cosine(ops, m, d);
    assert forall|i: int| 0 <= i < n implies #[trigger] q[i] == p[i] by {
        assert(m[i].len() == d);
        assert forall|j: int| 0 <= j < d implies #[trigger] q[i][j] == p[i][j] by {
            assert((ops.dct4)(matrix::col(m, j)) == Seq::new(
                n,
                |k: int| matrix::dot(ops, c[k], matrix::col(m, j), n),
            ));
        }
        assert(q[i] =~= p[i]);
    }
    assert(q =~= p);
}

/// The cosine transform is a transform that scales by half the number of rows.
proof fn lemma_cosine_is_transform(ops: Ops<real>, n: nat, d: nat)
    requires
        exact::exact(ops),
        n >= 1,
    ensures
        is_transform(ops, |m: Seq<Seq<real>>| dct4::cosine(ops, m, d), n, d, n as real / 2real),
{
    let t = n as real / 2real;
    let f = |m: Seq<Seq<real>>| dct4::cosine(ops, m, d);
    assert(exact::transforms_cosines(ops, n));
    let c = choose|c: Seq<Seq<real>>| #[trigger] exact::is_cosine_matrix(c, ops, n);
    assert forall|m: Seq<Seq<real>>| matrix::is_grid(m, n, d) implies matrix::is_grid(
        #[trigger] f(m),
        n,
        d,
    ) && f(f(m)) == matrix::scaled(ops, m, t) by {
        lemma_cosine_is_product(ops, c, m, n, d);
        lemma_cosine_is_product(ops, c, f(m), n, d);
        exact::lemma_product_regroups(ops, c, c, m, d);
        let cc = matrix::product(ops, c, c, n);
        assert forall|i: int, j: int| 0 <= i < n && 0 <= j < n implies #[trigger] cc[i][j] == if i
            == j {
            t
        } else {
            0real
        } by {
            assert(2real * matrix::dot(ops, c[i], matrix::col(c, j), n) == if i == j {
                n as real
            } else {
                0real
            });
        }
        exact::lemma_product_scales(ops, cc, m, n, d, t);
    }
    assert forall|m: Seq<Seq<real>>, k: real| matrix::is_grid(m, n, d) implies #[trigger] f(
        matrix::scaled(ops, m, k),
    ) == matrix::scaled(ops, f(m), k) by {
        lemma_scaled_grid(ops, m, k, n, d);
        lemma_cosine_is_product(ops, c, m, n, d);
        lemma_cosine_is_product(ops, c, matrix::scaled(ops, m, k), n, d);
        exact::lemma_product_of_scaled(ops, c, m, n, d, k);
    }
}

/// The factor of a sampled Hadamard cascade makes up for six transforms.
pub proof fn lemma_hadamard_norm(ops: Ops<real>, n: nat)
    requires
        exact::exact(ops),
        n > 0,
    ensures
        ({
            let s = hd3::hadamard_norm(ops, n);
            let t = n as real;
            (s * s) * ((t * t) * t) == 1real
        }),
{
    let t = n as real;
    let p = (ops.pow_3_2)((ops.from_int)(n as int));
    assert(p * p == t * t * t);
    exact::lemma_times_positive(t, t);
    exact::lemma_times_positive(t * t, t);
    assert(p != 0real) by {
        if p == 0real {
            assert(p * p == 0real);
        }
    }
    exact::lemma_quotient(1real, p);
    exact::lemma_squares_undo(1real / p, p);
}

/// The factor of a sampled cosine cascade makes up for six transforms.
pub proof fn lemma_cosine_norm(ops: Ops<real>, n: nat)
    requires
        exact::exact(ops),
        n > 0,
    ensures
        ({
            let s = dct4::cosine_norm(ops, n);
            let t = n as real / 2real;
            (s * s) * ((t * t) * t) == 1real
        }),
{
    let t = n as real / 2real;
    let u = 2real / n as real;
    exact::lemma_quotient(2real, n as real);
    assert(u * t == 1real) by {
        exact::lemma_distribute(t, t, u);
        exact::lemma_times_comm(u, n as real);
        assert(t + t == n as real);
    }
    assert(u >= 0real) by {
        if u < 0real {
            exact::lemma_times_positive(0real - u, n as real);
            exact::lemma_distribute(0real, u, n as real);
        }
    }
    exact::lemma_cubes_undo(u, t);
}

/// A sampled Hadamard cascade is undone by its reverse: masking and then unmasking gives
/// back every matrix.
pub proof fn law_hd3_round_trip(
    ops: Ops<real>,
    c: hd3::Cascade<real>,
    m: Seq<Seq<real>>,
    d: nat,
)
    requires
        exact::exact(ops),
        pow2::is_pow2(c.n),
        c.inv_norm == hd3::hadamard_norm(ops, c.n),
        matrix::is_grid(m, c.n, d),
    ensures
        hd3::unmasked(ops, c, hd3::masked(ops, c, m)) == m,
{
    let f = |m: Seq<Seq<real>>| hd3::hadamard(ops, m);
    pow2::lemma_pow2_positive(c.n);
    lemma_hadamard_is_transform(ops, c.n, d);
    lemma_hadamard_norm(ops, c.n);
    lemma_unmixed_mixed(ops, f, c, m, c.n, d, c.n as real);
}

/// A sampled cosine cascade is undone by its reverse: masking and then
/// unmasking gives back every matrix.
pub proof fn law_dct4_round_trip(
    ops: Ops<real>,
    c: hd3::Cascade<real>,
    m: Seq<Seq<real>>,
    d: nat,
)
    requires
        exact::exact(ops),
        c.n >= 1,
        c.inv_norm == dct4::cosine_norm(ops, c.n),
        matrix::is_grid(m, c.n, d),
    ensures
        dct4::unmasked(ops, c, dct4::masked(ops, c, m, d), d) == m,
{
    let f = |m: Seq<Seq<real>>| dct4::cosine(ops, m, d);
    lemma_cosine_is_transform(ops, c.n, d);
    lemma_cosine_norm(ops, c.n);
    lemma_unmixed_mixed(ops, f, c, m, c.n, d, c.n as real / 2real);
}

/// A product has the shape of its operands' outer sides.
pub proof fn lemma_product_grid(ops: Ops<real>, a: Seq<Seq<real>>, b: Seq<Seq<real>>, cols: nat)
    ensures
        matrix::is_grid(matrix::product(ops, a, b, cols), a.len(), cols),
{
}

/// A stage commutes with a product from the right.
proof fn lemma_stage_of_product(
    ops: Ops<real>,
    m: Seq<Seq<real>>,
    w: Seq<Seq<real>>,
    n: nat,
    o: nat,
    h: nat,
)
    requires
        exact::exact(ops),
        matrix::is_grid(m, n, w.len()),
        pow2::is_pow2(n),
        pow2::is_pow2(h),
        h < n,
    ensures
        hd3::stage(ops, matrix::product(ops, m, w, o), h as int) == matrix::product(
            ops,
            hd3::stage(ops, m, h as int),
            w,
            o,
        ),
{
    let d = w.len();
    let mw = matrix::product(ops, m, w, o);
    let s = hd3::stage(ops, m, h as int);
    let t = hd3::stage(ops, mw, h as int);
    let u = matrix::product(ops, s, w, o);
    lemma_product_grid(ops, m, w, o);
    lemma_stage_grid(ops, m, n, d, h);
    lemma_stage_grid(ops, mw, n, o, h);
    assert forall|i: int| 0 <= i < n implies #[trigger] t[i] == u[i] by {
        assert(t[i].len() == o);
        assert forall|j: int| 0 <= j < o implies #[trigger] t[i][j] == u[i][j] by {
            let p = partner(i, h as int);
            let sign = if leads(i, h as int) {
                1real
            } else {
                0real - 1real
            };
            lemma_inside(n, h, i);
            lemma_stage_entry(ops, mw, n, o, h, i, j);
            assert forall|k: int| 0 <= k < d implies #[trigger] s[i][k] == sign * m[i][k] + 1real
                * m[p][k] by {
                lemma_stage_entry(ops, m, n, d, h, i, k);
            }
            exact::lemma_dot_combination(
                ops,
                s[i],
                m[i],
                m[p],
                sign,
                1real,
                matrix::col(w, j),
                d,
            );
        }
        assert(t[i] =~= u[i]);
    }
    assert(t =~= u);
}

/// The stages from step `h` on commute with a product from the right.
proof fn lemma_stages_of_product(
    ops: Ops<real>,
    m: Seq<Seq<real>>,
    w: Seq<Seq<real>>,
    n: nat,
    o: nat,
    h: nat,
)
    requires
        exact::exact(ops),
        matrix::is_grid(m, n, w.len()),
        pow2::is_pow2(n),
        pow2::is_pow2(h),
    ensures
        hd3::stages_from(ops, matrix::product(ops, m, w, o), h) == matrix::product(
            ops,
            hd3::stages_from(ops, m, h),
            w,
            o,
        ),
    decreases (if h < n { n - h } else { 0 }),
{
    pow2::lemma_pow2_positive(h);
    if h < n {
        pow2::lemma_pow2_step(h, n);
        lemma_stage_grid(ops, m, n, w.len(), h);
        lemma_stage_of_product(ops, m, w, n, o, h);
        lemma_stages_of_product(ops, hd3::stage(ops, m, h as int), w, n, o, 2 * h);
    }
}

/// A flip commutes with a product from the right.
proof fn lemma_flipped_of_product(
    ops: Ops<real>,
    m: Seq<Seq<real>>,
    w: Seq<Seq<real>>,
    plus: Seq<bool>,
    n: nat,
    o: nat,
)
    requires
        exact::exact(ops),
        matrix::is_grid(m, n, w.len()),
    ensures
        hd3::flipped(ops, matrix::product(ops, m, w, o), plus) == matrix::product(
            ops,
            hd3::flipped(ops, m, plus),
            w,
            o,
        ),
{
    let f = hd3::flipped(ops, m, plus);
    let t = hd3::flipped(ops, matrix::product(ops, m, w, o), plus);
    let u = matrix::product(ops, f, w, o);
    assert forall|i: int| 0 <= i < n implies #[trigger] t[i] == u[i] by {
        assert(m[i].len() == w.len());
        if !plus[i] {
            assert forall|j: int| 0 <= j < o implies #[trigger] t[i][j] == u[i][j] by {
                exact::lemma_dot_combination(
                    ops,
                    f[i],
                    m[i],
                    m[i],
                    0real - 1real,
                    0real,
                    matrix::col(w, j),
                    w.len(),
                );
            }
        }
        assert(t[i] =~= u[i]);
    }
    assert(t =~= u);
}

/// A factor commutes with a product from the right.
proof fn lemma_scaled_of_product(
    ops: Ops<real>,
    m: Seq<Seq<real>>,
    w: Seq<Seq<real>>,
    c: real,
    n: nat,
    o: nat,
)
    requires
        exact::exact(ops),
        matrix::is_grid(m, n, w.len()),
    ensures
        matrix::scaled(ops, matrix::product(ops, m, w, o), c) == matrix::product(
            ops,
            matrix::scaled(ops, m, c),
            w,
            o,
        ),
{
    let f = matrix::scaled(ops, m, c);
    let t = matrix::scaled(ops, matrix::product(ops, m, w, o), c);
    let u = matrix::product(ops, f, w, o);
    assert forall|i: int| 0 <= i < n implies #[trigger] t[i] == u[i] by {
        assert(m[i].len() == w.len());
        assert forall|j: int| 0 <= j < o implies #[trigger] t[i][j] == u[i][j] by {
            assert forall|k: int| 0 <= k < w.len() implies #[trigger] f[i][k] == c * m[i][k] + 0real
                * m[i][k] by {
                exact::lemma_times_comm(m[i][k], c);
            }
            exact::lemma_dot_combination(
                ops,
                f[i],
                m[i],
                m[i],
                c,
                0real,
                matrix::col(w, j),
                w.len(),
            );
            exact::lemma_times_comm(c, matrix::dot(ops, m[i], matrix::col(w, j), w.len()));
        }
        assert(t[i] =~= u[i]);
    }
    assert(t =~= u);
}

/// `g` does to products with `w` what `f` does to their left operand.
spec fn passes_products(
    ops: Ops<real>,
    f: spec_fn(Seq<Seq<real>>) -> Seq<Seq<real>>,
    g: spec_fn(Seq<Seq<real>>) -> Seq<Seq<real>>,
    w: Seq<Seq<real>>,
    n: nat,
    o: nat,
) -> bool {
    forall|m: Seq<Seq<real>>|
        matrix::is_grid(m, n, w.len()) ==> matrix::is_grid(#[trigger] f(m), n, w.len()) && g(
            matrix::product(ops, m, w, o),
        ) == matrix::product(ops, f(m), w, o)
}

/// The reverse cascade commutes with a product from the right.
proof fn lemma_unmixed_of_product(
    ops: Ops<real>,
    f: spec_fn(Seq<Seq<real>>) -> Seq<Seq<real>>,
    g: spec_fn(Seq<Seq<real>>) -> Seq<Seq<real>>,
    c: hd3::Cascade<real>,
    m: Seq<Seq<real>>,
    w: Seq<Seq<real>>,
    n: nat,
    o: nat,
)
    requires
        exact::exact(ops),
        passes_products(ops, f, g, w, n, o),
        matrix::is_grid(m, n, w.len()),
    ensures
        unmixed(ops, g, c, matrix::product(ops, m, w, o)) == matrix::product(
            ops,
            unmixed(ops, f, c, m),
            w,
            o,
        ),
{
    let d = w.len();
    let x = hd3::flipped(ops, m, c.d3);
    lemma_flipped_of_product(ops, m, w, c.d3, n, o);
    lemma_flipped_grid(ops, m, c.d3, n, d);
    let a = f(x);
    let y = hd3::flipped(ops, a, c.d2);
    lemma_flipped_of_product(ops, a, w, c.d2, n, o);
    lemma_flipped_grid(ops, a, c.d2, n, d);
    let b = f(y);
    let z = hd3::flipped(ops, b, c.d1);
    lemma_flipped_of_product(ops, b, w, c.d1, n, o);
    lemma_flipped_grid(ops, b, c.d1, n, d);
    let e = f(z);
    lemma_scaled_of_product(ops, e, w, c.inv_norm, n, o);
}

/// The product of a masked matrix with a weight, unmasked, is the product of the matrix with
/// the weight: for the Hadamard cascade.
pub proof fn law_hd3_recovers_products(
    ops: Ops<real>,
    c: hd3::Cascade<real>,
    m: Seq<Seq<real>>,
    w: Seq<Seq<real>>,
    o: nat,
)
    requires
        exact::exact(ops),
        pow2::is_pow2(c.n),
        c.inv_norm == hd3::hadamard_norm(ops, c.n),
        matrix::is_grid(m, c.n, w.len()),
    ensures
        hd3::unmasked(ops, c, matrix::product(ops, hd3::masked(ops, c, m), w, o))
            == matrix::product(ops, m, w, o),
{
    let f = |m: Seq<Seq<real>>| hd3::hadamard(ops, m);
    pow2::lemma_one_is_pow2();
    let x = hd3::masked(ops, c, m);
    assert(passes_products(ops, f, f, w, c.n, o)) by {
        assert forall|m: Seq<Seq<real>>| matrix::is_grid(m, c.n, w.len()) implies matrix::is_grid(
            #[trigger] f(m),
            c.n,
            w.len(),
        ) && f(matrix::product(ops, m, w, o)) == matrix::product(ops, f(m), w, o) by {
            lemma_stages_grid(ops, m, c.n, w.len(), 1);
            lemma_stages_of_product(ops, m, w, c.n, o, 1);
        }
    }
    lemma_hadamard_is_transform(ops, c.n, w.len());
    lemma_mixed_grid(ops, f, c, m, c.n, w.len(), c.n as real);
    lemma_unmixed_of_product(ops, f, f, c, x, w, c.n, o);
    law_hd3_round_trip(ops, c, m, w.len());
}

/// The product of a masked matrix with a weight, unmasked, is the product of the matrix with
/// the weight: for the cosine cascade.
pub proof fn law_dct4_recovers_products(
    ops: Ops<real>,
    c: hd3::Cascade<real>,
    m: Seq<Seq<real>>,
    w: Seq<Seq<real>>,
    o: nat,
)
    requires
        exact::exact(ops),
        c.n >= 1,
        c.inv_norm == dct4::cosine_norm(ops, c.n),
        matrix::is_grid(m, c.n, w.len()),
    ensures
        dct4::unmasked(ops, c, matrix::product(ops, dct4::masked(ops, c, m, w.len()), w, o), o)
            == matrix::product(ops, m, w, o),
{
    let d = w.len();
    let n = c.n;
    let f = |m: Seq<Seq<real>>| dct4::cosine(ops, m, d);
    let g = |m: Seq<Seq<real>>| dct4::cosine(ops, m, o);
    let x = dct4::masked(ops, c, m, d);
    assert(exact::transforms_cosines(ops, n));
    let k = choose|k: Seq<Seq<real>>| #[trigger] exact::is_cosine_matrix(k, ops, n);
    assert(passes_products(ops, f, g, w, n, o)) by {
        assert forall|m: Seq<Seq<real>>| matrix::is_grid(m, n, d) implies matrix::is_grid(
            #[trigger] f(m),
            n,
            d,
        ) && g(matrix::product(ops, m, w, o)) == matrix::product(ops, f(m), w, o) by {
            lemma_product_grid(ops, m, w, o);
            lemma_cosine_is_product(ops, k, m, n, d);
            lemma_cosine_is_product(ops, k, matrix::product(ops, m, w, o), n, o);
            exact::lemma_product_regroups(ops, k, m, w, o);
        }
    }
    lemma_cosine_is_transform(ops, n, d);
    lemma_mixed_grid(ops, f, c, m, n, d, n as real / 2real);
    lemma_unmixed_of_product(ops, f, g, c, x, w, n, o);
    law_dct4_round_trip(ops, c, m, d);
}

/// A cascade keeps the shape.
proof fn lemma_mixed_grid(
    ops: Ops<real>,
    f: spec_fn(Seq<Seq<real>>) -> Seq<Seq<real>>,
    c: hd3::Cascade<real>,
    m: Seq<Seq<real>>,
    n: nat,
    d: nat,
    t: real,
)
    requires
        is_transform(ops, f, n, d, t),
        matrix::is_grid(m, n, d),
    ensures
        matrix::is_grid(mixed(ops, f, c, m), n, d),
{
    lemma_flipped_grid(ops, f(m), c.d1, n, d);
    let a = hd3::flipped(ops, f(m), c.d1);
    lemma_flipped_grid(ops, f(a), c.d2, n, d);
    let b = hd3::flipped(ops, f(a), c.d2);
    lemma_flipped_grid(ops, f(b), c.d3, n, d);
    lemma_scaled_grid(ops, hd3::flipped(ops, f(b), c.d3), c.inv_norm, n, d);
}

/// Masking with a cascade keeps the shape.
pub proof fn lemma_masked_grid(
    ops: Ops<real>,
    c: hd3::Cascade<real>,
    m: Seq<Seq<real>>,
    d: nat,
)
    requires
        exact::exact(ops),
        matrix::is_grid(m, c.n, d),
    ensures
        pow2::is_pow2(c.n) ==> matrix::is_grid(hd3::masked(ops, c, m), c.n, d),
        c.n >= 1 ==> matrix::is_grid(dct4::masked(ops, c, m, d), c.n, d),
{
    if pow2::is_pow2(c.n) {
        let f = |m: Seq<Seq<real>>| hd3::hadamard(ops, m);
        lemma_hadamard_is_transform(ops, c.n, d);
        lemma_mixed_grid(ops, f, c, m, c.n, d, c.n as real);
    }
    if c.n >= 1 {
        let f = |m: Seq<Seq<real>>| dct4::cosine(ops, m, d);
        lemma_cosine_is_transform(ops, c.n, d);
        lemma_mixed_grid(ops, f, c, m, c.n, d, c.n as real / 2real);
    }
}

} // verus!
