//! What the cascades do to a column, entry by entry: three products with a fixed matrix, each
//! followed by the signs that were drawn.

use vstd::arithmetic::div_mod::{lemma_fundamental_div_mod, lemma_fundamental_div_mod_converse};
use vstd::prelude::*;

use crate::cascade;
use crate::dct4;
use crate::exact;
use crate::haar;
use crate::hd3;
use crate::householder;
use crate::mask;
use crate::matrix;
use crate::pow2;
use crate::recovery;
use crate::rng;
use crate::scalar::Ops;

verus! {

/// Entry of the Walsh-Hadamard matrix: minus one to the number of binary ones that the row and
/// the column number have in common.
pub open spec fn walsh(i: nat, j: nat) -> real
    decreases i,
{
    if i == 0 || j == 0 {
        1real
    } else {
        let w = walsh(i / 2, j / 2);
        if i % 2 == 1 && j % 2 == 1 {
            0real - w
        } else {
            w
        }
    }
}

/// The Walsh-Hadamard matrix of side `n`.
pub open spec fn walsh_matrix(n: nat) -> Seq<Seq<real>> {
    Seq::new(n, |i: int| Seq::new(n, |j: int| walsh(i as nat, j as nat)))
}

/// The last binary digits of row and column decide the sign on top of the others.
proof fn lemma_walsh(a: nat, b: nat, q: nat, e: nat)
    requires
        b < 2,
        e < 2,
    ensures
        walsh(2 * a + b, 2 * q + e) == if b == 1 && e == 1 {
            0real - walsh(a, q)
        } else {
            walsh(a, q)
        },
{
    let (i, j) = ((2 * a + b) as nat, (2 * q + e) as nat);
    assert(i / 2 == a && j / 2 == q && i % 2 == b && j % 2 == e);
    if a == 0 {
        assert(walsh(a, q) == 1real);
    }
    if q == 0 {
        assert(walsh(a, q) == 1real);
    }
}

/// Every entry of the matrix is one or minus one: each row of the result takes up each row of
/// the operand.
proof fn lemma_walsh_entry(i: nat, j: nat)
    ensures
        walsh(i, j) == 1real || walsh(i, j) == 0real - 1real,
    decreases i,
{
    if i != 0 && j != 0 {
        lemma_walsh_entry(i / 2, j / 2);
    }
}

/// The sum of every `step`-th row from `base` on, with the signs of row `i` of the matrix.
spec fn strided(
    m: Seq<Seq<real>>,
    i: nat,
    base: int,
    step: int,
    c: int,
    k: nat,
) -> real
    decreases k,
{
    if k == 0 {
        0real
    } else {
        strided(m, i, base, step, c, (k - 1) as nat) + walsh(i, (k - 1) as nat) * m[base + (k - 1)
            * step][c]
    }
}

/// Where a row number stands at step `h` and at step `2h`.
proof fn lemma_halves(i: int, h: int)
    requires
        i >= 0,
        h > 0,
    ensures
        i / h >= 0,
        0 <= i % h < h,
        i / (2 * h) == (i / h) / 2,
        i % (2 * h) == i % h + ((i / h) % 2) * h,
{
    let q = i / h;
    let base = i % h;
    lemma_fundamental_div_mod(i, h);
    assert(q >= 0) by (nonlinear_arith)
        requires
            i >= 0,
            h > 0,
            q == i / h,
    ;
    let b = q % 2;
    let a = q / 2;
    assert(b * h == 0 || b * h == h) by (nonlinear_arith)
        requires
            b == 0 || b == 1,
    ;
    assert(i == a * (2 * h) + (base + b * h)) by (nonlinear_arith)
        requires
            i == h * q + base,
            q == 2 * a + b,
    ;
    lemma_fundamental_div_mod_converse(i, 2 * h, a, base + b * h);
}

/// One stage joins neighbouring terms.
proof fn lemma_stage_joins(
    ops: Ops<real>,
    m: Seq<Seq<real>>,
    n: nat,
    d: nat,
    h: nat,
    i: int,
    c: int,
    k: nat,
)
    requires
        exact::exact(ops),
        matrix::is_grid(m, n, d),
        pow2::is_pow2(n),
        pow2::is_pow2(h),
        0 < h < n,
        0 <= i < n,
        0 <= c < d,
        k * (2 * h) <= n,
    ensures
        strided(
            hd3::stage(ops, m, h as int),
            (i / (2 * (h as int))) as nat,
            i % (2 * (h as int)),
            2 * (h as int),
            c,
            k,
        ) == strided(m, (i / (h as int)) as nat, i % (h as int), h as int, c, 2 * k),
    decreases k,
{
    let hh = h as int;
    lemma_halves(i, hh);
    if k > 0 {
        let q = (k - 1) as nat;
        assert(q * (2 * h) + 2 * h == k * (2 * h)) by (nonlinear_arith)
            requires
                q == k - 1,
        ;
        lemma_stage_joins(ops, m, n, d, h, i, c, q);
        let st = hd3::stage(ops, m, hh);
        let base = i % hh;
        let row = i / hh;
        let (a, b) = ((row / 2) as nat, (row % 2) as nat);
        let (lo, hi) = (base + (2 * q) * hh, base + (2 * q + 1) * hh);
        assert(hi == lo + hh) by (nonlinear_arith)
            requires
                lo == base + (2 * q) * hh,
                hi == base + (2 * q + 1) * hh,
        ;
        assert((2 * q) * hh == q * (2 * hh)) by (nonlinear_arith);
        assert(b * hh == if b == 0 {
            0
        } else {
            hh
        }) by (nonlinear_arith)
            requires
                b == 0 || b == 1,
        ;
        let at = i % (2 * hh) + q * (2 * hh);
        assert(at == if b == 0 {
            lo
        } else {
            hi
        });
        let w = walsh(a, q);
        assert(row == 2 * a + b);
        lemma_walsh(a, b, q, 0);
        lemma_walsh(a, b, q, 1);
        assert(0 <= lo && hi < n) by {
            assert(q * (2 * hh) >= 0) by (nonlinear_arith)
                requires
                    hh > 0,
            ;
        }
        lemma_fundamental_div_mod_converse(lo, hh, (2 * q) as int, base);
        assert(hi == (2 * q + 1) * hh + base);
        lemma_fundamental_div_mod_converse(hi, hh, (2 * q + 1) as int, base);
        assert(m[lo].len() == d && m[hi].len() == d);
        let (x, y) = (m[lo][c], m[hi][c]);
        assert(st[at][c] == if b == 0 {
            x + y
        } else {
            x - y
        });
        exact::lemma_distribute(x, y, w);
        exact::lemma_distribute(0real, w, y);
        let whole = strided(m, row as nat, base, hh, c, 2 * k);
        let part = strided(m, row as nat, base, hh, c, (2 * q + 1) as nat);
        assert(whole == part + walsh(row as nat, (2 * q + 1) as nat) * y);
        assert(part == strided(m, row as nat, base, hh, c, 2 * q) + walsh(row as nat, 2 * q) * x);
        assert(strided(st, a, i % (2 * hh), 2 * hh, c, k) == strided(
            st,
            a,
            i % (2 * hh),
            2 * hh,
            c,
            q,
        ) + w * st[at][c]);
    }
}

/// The stages from step `h` on give a sum of every `h`-th row, with signs.
proof fn lemma_stages_sum(
    ops: Ops<real>,
    m: Seq<Seq<real>>,
    n: nat,
    d: nat,
    h: nat,
    i: int,
    c: int,
)
    requires
        exact::exact(ops),
        matrix::is_grid(m, n, d),
        pow2::is_pow2(n),
        pow2::is_pow2(h),
        h <= n,
        0 <= i < n,
        0 <= c < d,
    ensures
        hd3::stages_from(ops, m, h)[i][c] == strided(
            m,
            (i / (h as int)) as nat,
            i % (h as int),
            h as int,
            c,
            (n / h) as nat,
        ),
    decreases n - h,
{
    pow2::lemma_pow2_positive(h);
    let hh = h as int;
    if h == n {
        lemma_fundamental_div_mod_converse(i, hh, 0, i);
        lemma_fundamental_div_mod_converse(n as int, hh, 1, 0);
        assert(0 * hh == 0);
        assert(strided(m, 0, i, hh, c, 0) == 0real);
        assert(strided(m, 0, i, hh, c, 1) == strided(m, 0, i, hh, c, 0) + walsh(0, 0) * m[i
            + 0 * hh][c]);
    } else {
        pow2::lemma_pow2_step(h, n);
        let k = choose|k: nat| k > 0 && n == #[trigger] (2 * h * k);
        let st = hd3::stage(ops, m, hh);
        cascade::lemma_stage_grid(ops, m, n, d, h);
        lemma_stages_sum(ops, st, n, d, 2 * h, i, c);
        assert(n == k * (2 * h)) by (nonlinear_arith)
            requires
                n == 2 * h * k,
        ;
        assert(n == (2 * k) * h) by (nonlinear_arith)
            requires
                n == 2 * h * k,
        ;
        lemma_fundamental_div_mod_converse(n as int, 2 * hh, k as int, 0);
        lemma_fundamental_div_mod_converse(n as int, hh, 2 * k as int, 0);
        lemma_stage_joins(ops, m, n, d, h, i, c, k);
    }
}

/// Entry of a product with the Walsh-Hadamard matrix.
proof fn lemma_strided_all(m: Seq<Seq<real>>, n: nat, i: nat, c: int, k: nat)
    requires
        i < n,
        k <= n,
        m.len() == n,
    ensures
        strided(m, i, 0, 1, c, k) == exact::inner(
            walsh_matrix(n)[i as int],
            Seq::new(n, |j: int| m[j][c]),
            k,
        ),
    decreases k,
{
    if k > 0 {
        lemma_strided_all(m, n, i, c, (k - 1) as nat);
    }
}

/// The Walsh-Hadamard transform of a column is its product with the matrix of ones and minus
/// ones.
pub proof fn law_hadamard_is_the_walsh_product(
    ops: Ops<real>,
    m: Seq<Seq<real>>,
    n: nat,
    d: nat,
    i: int,
    c: int,
)
    requires
        exact::exact(ops),
        matrix::is_grid(m, n, d),
        pow2::is_pow2(n),
        0 <= i < n,
        0 <= c < d,
    ensures
        hd3::hadamard(ops, m)[i][c] == exact::inner(
            walsh_matrix(n)[i],
            Seq::new(n, |j: int| m[j][c]),
            n,
        ),
        forall|j: int|
            0 <= j < n ==> #[trigger] walsh_matrix(n)[i][j] == 1real || walsh_matrix(n)[i][j]
                == 0real - 1real,
{
    pow2::lemma_one_is_pow2();
    lemma_stages_sum(ops, m, n, d, 1, i, c);
    lemma_strided_all(m, n, i as nat, c, n);
    assert forall|j: int| 0 <= j < n implies #[trigger] walsh_matrix(n)[i][j] == 1real
        || walsh_matrix(n)[i][j] == 0real - 1real by {
        lemma_walsh_entry(i as nat, j as nat);
    }
}

/// A column multiplied by a matrix, its entries negated where the sign is a minus.
pub open spec fn turned(a: Seq<Seq<real>>, plus: Seq<bool>, x: Seq<real>) -> Seq<real> {
    Seq::new(
        x.len(),
        |i: int|
            if plus[i] {
                exact::inner(a[i], x, x.len())
            } else {
                0real - exact::inner(a[i], x, x.len())
            },
    )
}

/// Column `c` of a matrix.
pub open spec fn column(m: Seq<Seq<real>>, c: int) -> Seq<real> {
    Seq::new(m.len(), |i: int| m[i][c])
}

/// `f` multiplies every column by `a`.
spec fn multiplies(
    f: spec_fn(Seq<Seq<real>>) -> Seq<Seq<real>>,
    a: Seq<Seq<real>>,
    n: nat,
    d: nat,
) -> bool {
    forall|m: Seq<Seq<real>>|
        matrix::is_grid(m, n, d) ==> matrix::is_grid(#[trigger] f(m), n, d) && forall|
            i: int,
            c: int,
        |
            0 <= i < n && 0 <= c < d ==> #[trigger] f(m)[i][c] == exact::inner(
                a[i],
                column(m, c),
                n,
            )
}

proof fn lemma_flip_turns(
    ops: Ops<real>,
    f: spec_fn(Seq<Seq<real>>) -> Seq<Seq<real>>,
    a: Seq<Seq<real>>,
    plus: Seq<bool>,
    m: Seq<Seq<real>>,
    n: nat,
    d: nat,
    c: int,
)
    requires
        exact::exact(ops),
        multiplies(f, a, n, d),
        matrix::is_grid(m, n, d),
        0 <= c < d,
    ensures
        matrix::is_grid(hd3::flipped(ops, f(m), plus), n, d),
        column(hd3::flipped(ops, f(m), plus), c) == turned(a, plus, column(m, c)),
{
    let t = f(m);
    assert(matrix::is_grid(t, n, d));
    cascade::lemma_flipped_grid(ops, t, plus, n, d);
    let g = hd3::flipped(ops, t, plus);
    assert forall|i: int| 0 <= i < n implies #[trigger] column(g, c)[i] == turned(
        a,
        plus,
        column(m, c),
    )[i] by {
        assert(t[i].len() == d);
        assert(f(m)[i][c] == exact::inner(a[i], column(m, c), n));
    }
    assert(column(g, c) =~= turned(a, plus, column(m, c)));
}

proof fn lemma_cascade_column(
    ops: Ops<real>,
    f: spec_fn(Seq<Seq<real>>) -> Seq<Seq<real>>,
    a: Seq<Seq<real>>,
    k: hd3::Cascade<real>,
    m: Seq<Seq<real>>,
    n: nat,
    d: nat,
    i: int,
    c: int,
)
    requires
        exact::exact(ops),
        multiplies(f, a, n, d),
        matrix::is_grid(m, n, d),
        0 <= i < n,
        0 <= c < d,
    ensures
        cascade::mixed(ops, f, k, m)[i][c] == turned(
            a,
            k.d3,
            turned(a, k.d2, turned(a, k.d1, column(m, c))),
        )[i] * k.inv_norm,
{
    let u = hd3::flipped(ops, f(m), k.d1);
    lemma_flip_turns(ops, f, a, k.d1, m, n, d, c);
    let v = hd3::flipped(ops, f(u), k.d2);
    lemma_flip_turns(ops, f, a, k.d2, u, n, d, c);
    let w = hd3::flipped(ops, f(v), k.d3);
    lemma_flip_turns(ops, f, a, k.d3, v, n, d, c);
    assert(w[i].len() == d);
    assert(column(w, c)[i] == w[i][c]);
}

/// A Hadamard cascade takes every column through three products with the Walsh-Hadamard matrix,
/// each followed by one of its diagonals of signs, and scales it.
pub proof fn law_hd3_masks_by_its_signs(
    ops: Ops<real>,
    k: hd3::Cascade<real>,
    m: Seq<Seq<real>>,
    n: nat,
    d: nat,
    i: int,
    c: int,
)
    requires
        exact::exact(ops),
        matrix::is_grid(m, n, d),
        pow2::is_pow2(n),
        0 <= i < n,
        0 <= c < d,
    ensures
        hd3::masked(ops, k, m)[i][c] == turned(
            walsh_matrix(n),
            k.d3,
            turned(walsh_matrix(n), k.d2, turned(walsh_matrix(n), k.d1, column(m, c))),
        )[i] * k.inv_norm,
{
    let f = |x: Seq<Seq<real>>| hd3::hadamard(ops, x);
    let a = walsh_matrix(n);
    assert forall|x: Seq<Seq<real>>| matrix::is_grid(x, n, d) implies matrix::is_grid(
        #[trigger] f(x),
        n,
        d,
    ) && forall|p: int, q: int|
        0 <= p < n && 0 <= q < d ==> #[trigger] f(x)[p][q] == exact::inner(
            a[p],
            column(x, q),
            n,
        ) by {
        pow2::lemma_one_is_pow2();
        cascade::lemma_stages_grid(ops, x, n, d, 1);
        assert forall|p: int, q: int| 0 <= p < n && 0 <= q < d implies #[trigger] f(x)[p][q]
            == exact::inner(a[p], column(x, q), n) by {
            law_hadamard_is_the_walsh_product(ops, x, n, d, p, q);
            assert(column(x, q) =~= Seq::new(n, |j: int| x[j][q]));
        }
    }
    assert(multiplies(f, a, n, d));
    lemma_cascade_column(ops, f, a, k, m, n, d, i, c);
    assert(hd3::masked(ops, k, m) == cascade::mixed(ops, f, k, m));
}

/// A cosine cascade does the same with the matrix of the cosine transform.
pub proof fn law_dct4_masks_by_its_signs(
    ops: Ops<real>,
    cosines: Seq<Seq<real>>,
    k: hd3::Cascade<real>,
    m: Seq<Seq<real>>,
    n: nat,
    d: nat,
    i: int,
    c: int,
)
    requires
        exact::exact(ops),
        exact::is_cosine_matrix(cosines, ops, n),
        matrix::is_grid(m, n, d),
        0 <= i < n,
        0 <= c < d,
    ensures
        dct4::masked(ops, k, m, d)[i][c] == turned(
            cosines,
            k.d3,
            turned(cosines, k.d2, turned(cosines, k.d1, column(m, c))),
        )[i] * k.inv_norm,
{
    let f = |x: Seq<Seq<real>>| dct4::cosine(ops, x, d);
    assert forall|x: Seq<Seq<real>>| matrix::is_grid(x, n, d) implies matrix::is_grid(
        #[trigger] f(x),
        n,
        d,
    ) && forall|p: int, q: int|
        0 <= p < n && 0 <= q < d ==> #[trigger] f(x)[p][q] == exact::inner(
            cosines[p],
            column(x, q),
            n,
        ) by {
        cascade::lemma_cosine_is_product(ops, cosines, x, n, d);
        cascade::lemma_product_grid(ops, cosines, x, d);
        assert forall|p: int, q: int| 0 <= p < n && 0 <= q < d implies #[trigger] f(x)[p][q]
            == exact::inner(cosines[p], column(x, q), n) by {
            assert(column(x, q) =~= matrix::col(x, q));
            exact::law_dot_is_the_inner_product(ops, cosines[p], column(x, q), n);
        }
    }
    assert(multiplies(f, cosines, n, d));
    lemma_cascade_column(ops, f, cosines, k, m, n, d, i, c);
    assert(dct4::masked(ops, k, m, d) == cascade::mixed(ops, f, k, m));
}

/// A dense mask takes every column to its product with the mask's matrix, and is removed by the
/// product with the transpose.
pub proof fn law_dense_masks_by_its_matrix(
    ops: Ops<real>,
    a: Seq<Seq<real>>,
    m: Seq<Seq<real>>,
    d: nat,
    i: int,
    c: int,
)
    requires
        exact::exact(ops),
        matrix::is_grid(a, a.len(), a.len()),
        matrix::is_grid(m, a.len(), d),
        0 <= i < a.len(),
        0 <= c < d,
    ensures
        mask::Family::Haar(a).masked(ops, m, d)[i][c] == exact::inner(a[i], column(m, c), a.len()),
        mask::Family::Haar(a).unmasked(ops, m, d)[i][c] == exact::inner(
            column(a, i),
            column(m, c),
            a.len(),
        ),
{
    assert(matrix::col(m, c) =~= column(m, c));
    assert(matrix::col(a, i) =~= column(a, i));
    exact::law_dot_is_the_inner_product(ops, a[i], column(m, c), a.len());
    exact::law_dot_is_the_inner_product(ops, column(a, i), column(m, c), a.len());
}

/// The factor of a drawn cascade makes up for its three transforms, so that lengths are kept: it
/// is positive, and its square times the cube of what a transform applied twice scales by is one.
pub proof fn law_drawn_cascades_keep_lengths(ops: Ops<real>, s: rng::RngState, n: nat)
    requires
        exact::exact(ops),
        n > 0,
    ensures
        ({
            let f = hd3::sampled(ops, s, n).inv_norm;
            let t = n as real;
            f > 0real && (f * f) * ((t * t) * t) == 1real
        }),
        ({
            let f = dct4::sampled(ops, s, n).inv_norm;
            let t = n as real / 2real;
            f > 0real && (f * f) * ((t * t) * t) == 1real
        }),
{
    cascade::lemma_hadamard_norm(ops, n);
    cascade::lemma_cosine_norm(ops, n);
    let t = n as real;
    let p = (ops.pow_3_2)(t);
    assert(p * p == t * t * t);
    exact::lemma_times_positive(t, t);
    exact::lemma_times_positive(t * t, t);
    assert(p > 0real) by {
        if p == 0real {
            exact::lemma_distribute(0real, 0real, p);
        }
    }
    lemma_quotient_positive(1real, p);
    let u = 2real / t;
    lemma_quotient_positive(2real, t);
    exact::lemma_times_positive(u, u);
    exact::lemma_times_positive(u * u, u);
    let q = (ops.pow_3_2)(u);
    assert(q * q == u * u * u);
    assert(q > 0real) by {
        if q == 0real {
            exact::lemma_distribute(0real, 0real, q);
        }
    }
}

proof fn lemma_quotient_positive(x: real, y: real)
    requires
        x > 0real,
        y > 0real,
    ensures
        x / y > 0real,
{
    let u = x / y;
    exact::lemma_quotient(x, y);
    if u < 0real {
        exact::lemma_times_positive(0real - u, y);
        exact::lemma_distribute(0real, u, y);
    } else if u == 0real {
        exact::lemma_distribute(0real, 0real, y);
    }
}

/// The matrix is symmetric.
proof fn lemma_walsh_symmetric(i: nat, j: nat)
    ensures
        walsh(i, j) == walsh(j, i),
    decreases i,
{
    if i != 0 && j != 0 {
        lemma_walsh_symmetric(i / 2, j / 2);
    }
}

/// The product of the matrix with a column.
spec fn image(n: nat, x: Seq<real>) -> Seq<real> {
    Seq::new(n, |i: int| exact::inner(walsh_matrix(n)[i], x, n))
}

/// Twice the product with the matrix scales by its side.
proof fn lemma_image_twice(ops: Ops<real>, n: nat, x: Seq<real>, i: int)
    requires
        exact::exact(ops),
        pow2::is_pow2(n),
        x.len() == n,
        0 <= i < n,
    ensures
        image(n, image(n, x))[i] == x[i] * (n as real),
{
    let m = Seq::new(n, |r: int| seq![x[r]]);
    assert(matrix::is_grid(m, n, 1));
    let once = hd3::hadamard(ops, m);
    pow2::lemma_one_is_pow2();
    cascade::lemma_stages_grid(ops, m, n, 1, 1);
    assert forall|r: int| 0 <= r < n implies #[trigger] column(once, 0)[r] == image(n, x)[r] by {
        law_hadamard_is_the_walsh_product(ops, m, n, 1, r, 0);
        assert(Seq::new(n, |j: int| m[j][0]) =~= x);
    }
    assert(column(once, 0) =~= image(n, x));
    law_hadamard_is_the_walsh_product(ops, once, n, 1, i, 0);
    assert(Seq::new(n, |j: int| once[j][0]) =~= image(n, x));
    cascade::law_hadamard_twice_scales(ops, m, n, 1);
    assert(matrix::scaled(ops, m, n as real)[i][0] == x[i] * (n as real));
}

/// Products with the matrix scale inner products by its side.
proof fn lemma_image_inner(ops: Ops<real>, n: nat, x: Seq<real>, y: Seq<real>)
    requires
        exact::exact(ops),
        pow2::is_pow2(n),
        x.len() == n,
        y.len() == n,
    ensures
        exact::inner(image(n, x), image(n, y), n) == exact::inner(x, y, n) * (n as real),
{
    let w = walsh_matrix(n);
    let (u, v) = (image(n, x), image(n, y));
    let scaled = Seq::new(n, |j: int| x[j] * (n as real));
    assert forall|i: int| 0 <= i < n implies #[trigger] v[i] == matrix::dot(ops, w[i], y, n) by {
        exact::law_dot_is_the_inner_product(ops, w[i], y, n);
    }
    assert forall|j: int| 0 <= j < n implies #[trigger] scaled[j] == matrix::dot(
        ops,
        u,
        matrix::col(w, j),
        n,
    ) by {
        assert(matrix::col(w, j) =~= w[j]) by {
            assert forall|r: int| 0 <= r < n implies #[trigger] matrix::col(w, j)[r] == w[j][r] by {
                lemma_walsh_symmetric(r as nat, j as nat);
            }
        }
        exact::lemma_dot_swap(ops, u, w[j], n);
        exact::law_dot_is_the_inner_product(ops, w[j], u, n);
        lemma_image_twice(ops, n, x, j);
    }
    exact::lemma_dot_exchange(ops, u, w, y, v, scaled, n, n);
    exact::law_dot_is_the_inner_product(ops, u, v, n);
    exact::law_dot_is_the_inner_product(ops, scaled, y, n);
    lemma_inner_of_scaled(x, y, scaled, n as real, n);
}

/// A common factor of one side is a factor of the inner product.
proof fn lemma_inner_of_scaled(x: Seq<real>, y: Seq<real>, scaled: Seq<real>, t: real, k: nat)
    requires
        forall|j: int| 0 <= j < k ==> #[trigger] scaled[j] == x[j] * t,
    ensures
        exact::inner(scaled, y, k) == exact::inner(x, y, k) * t,
    decreases k,
{
    if k > 0 {
        lemma_inner_of_scaled(x, y, scaled, t, (k - 1) as nat);
        let (a, b) = (x[k - 1], y[k - 1]);
        assert(scaled[k - 1] == a * t);
        exact::lemma_times_assoc(a, t, b);
        exact::lemma_times_comm(t, b);
        exact::lemma_times_assoc(a, b, t);
        exact::lemma_distribute(exact::inner(x, y, (k - 1) as nat), a * b, t);
    } else {
        exact::lemma_distribute(0real, 0real, t);
    }
}

/// Signs that are put on both sides drop out of an inner product.
proof fn lemma_signs_drop_out(n: nat, plus: Seq<bool>, x: Seq<real>, y: Seq<real>, k: nat)
    requires
        x.len() == n,
        y.len() == n,
        k <= n,
    ensures
        exact::inner(
            turned(walsh_matrix(n), plus, x),
            turned(walsh_matrix(n), plus, y),
            k,
        ) == exact::inner(image(n, x), image(n, y), k),
    decreases k,
{
    if k > 0 {
        lemma_signs_drop_out(n, plus, x, y, (k - 1) as nat);
        let (a, b) = (image(n, x)[k - 1], image(n, y)[k - 1]);
        exact::lemma_distribute(0real, a, 0real - b);
        exact::lemma_distribute(0real, b, a);
    }
}

/// A drawn Hadamard cascade keeps the inner products of columns, and with them their lengths.
pub proof fn law_hd3_keeps_inner_products(
    ops: Ops<real>,
    s: rng::RngState,
    m: Seq<Seq<real>>,
    n: nat,
    d: nat,
    a: int,
    b: int,
)
    requires
        exact::exact(ops),
        pow2::is_pow2(n),
        matrix::is_grid(m, n, d),
        0 <= a < d,
        0 <= b < d,
    ensures
        ({
            let masked = hd3::masked(ops, hd3::sampled(ops, s, n), m);
            exact::inner(column(masked, a), column(masked, b), n) == exact::inner(
                column(m, a),
                column(m, b),
                n,
            )
        }),
{
    pow2::lemma_pow2_positive(n);
    let k = hd3::sampled(ops, s, n);
    let w = walsh_matrix(n);
    let t = n as real;
    let f = k.inv_norm;
    let (x0, y0) = (column(m, a), column(m, b));
    let (x1, y1) = (turned(w, k.d1, x0), turned(w, k.d1, y0));
    let (x2, y2) = (turned(w, k.d2, x1), turned(w, k.d2, y1));
    let (x3, y3) = (turned(w, k.d3, x2), turned(w, k.d3, y2));
    lemma_signs_drop_out(n, k.d1, x0, y0, n);
    lemma_signs_drop_out(n, k.d2, x1, y1, n);
    lemma_signs_drop_out(n, k.d3, x2, y2, n);
    lemma_image_inner(ops, n, x0, y0);
    lemma_image_inner(ops, n, x1, y1);
    lemma_image_inner(ops, n, x2, y2);
    let p = exact::inner(x0, y0, n);
    assert(exact::inner(x3, y3, n) == ((p * t) * t) * t);
    let masked = hd3::masked(ops, k, m);
    let (u, v) = (column(masked, a), column(masked, b));
    assert(masked.len() == n) by {
        cascade::lemma_masked_grid(ops, k, m, d);
    }
    assert forall|i: int| 0 <= i < n implies #[trigger] u[i] == x3[i] * f by {
        law_hd3_masks_by_its_signs(ops, k, m, n, d, i, a);
    }
    assert forall|i: int| 0 <= i < n implies #[trigger] v[i] == y3[i] * f by {
        law_hd3_masks_by_its_signs(ops, k, m, n, d, i, b);
    }
    lemma_inner_of_scaled(x3, v, u, f, n);
    lemma_inner_swap(x3, v, n);
    lemma_inner_of_scaled(y3, x3, v, f, n);
    lemma_inner_swap(y3, x3, n);
    law_drawn_cascades_keep_lengths(ops, s, n);
    let c = (t * t) * t;
    exact::lemma_times_assoc(p, t, t);
    exact::lemma_times_assoc(p, t * t, t);
    assert(exact::inner(u, v, n) == ((p * c) * f) * f);
    exact::lemma_times_assoc(p * c, f, f);
    let g = f * f;
    exact::lemma_times_assoc(p, c, g);
    exact::lemma_times_comm(c, g);
    assert(g * c == 1real);
    assert(p * (c * g) == p * 1real);
}

proof fn lemma_inner_swap(x: Seq<real>, y: Seq<real>, k: nat)
    ensures
        exact::inner(x, y, k) == exact::inner(y, x, k),
    decreases k,
{
    if k > 0 {
        lemma_inner_swap(x, y, (k - 1) as nat);
        exact::lemma_times_comm(x[k - 1], y[k - 1]);
    }
}

/// A dense mask keeps the inner products of columns.
pub proof fn law_dense_keeps_inner_products(
    ops: Ops<real>,
    s: rng::RngState,
    m: Seq<Seq<real>>,
    n: nat,
    d: nat,
    a: int,
    b: int,
)
    requires
        exact::exact(ops),
        matrix::is_grid(m, n, d),
        0 <= a < d,
        0 <= b < d,
    ensures
        ({
            let masked = mask::Family::Haar(haar::sampled(ops, s, n)).masked(ops, m, d);
            exact::inner(column(masked, a), column(masked, b), n) == exact::inner(
                column(m, a),
                column(m, b),
                n,
            )
        }),
{
    let q = haar::sampled(ops, s, n);
    let fam = mask::Family::Haar(q);
    householder::law_sampled_mask_is_orthogonal(ops, s, n);
    recovery::law_sampled_masks_are_sound(ops, mask::MaskKind::Haar, s, n);
    let masked = fam.masked(ops, m, d);
    recovery::law_masks_round_trip(ops, fam, m, d);
    cascade::lemma_product_grid(ops, q, m, d);
    let (x, y) = (column(m, a), column(m, b));
    let (u, v) = (column(masked, a), column(masked, b));
    assert forall|i: int| 0 <= i < n implies #[trigger] v[i] == matrix::dot(ops, q[i], y, n) by {
        law_dense_masks_by_its_matrix(ops, q, m, d, i, b);
        exact::law_dot_is_the_inner_product(ops, q[i], y, n);
    }
    assert forall|j: int| 0 <= j < n implies #[trigger] x[j] == matrix::dot(
        ops,
        u,
        matrix::col(q, j),
        n,
    ) by {
        law_dense_masks_by_its_matrix(ops, q, masked, d, j, a);
        assert(matrix::col(q, j) =~= column(q, j));
        exact::lemma_dot_swap(ops, u, column(q, j), n);
        exact::law_dot_is_the_inner_product(ops, column(q, j), u, n);
    }
    exact::lemma_dot_exchange(ops, u, q, y, v, x, n, n);
    exact::law_dot_is_the_inner_product(ops, u, v, n);
    exact::law_dot_is_the_inner_product(ops, x, y, n);
}

} // verus!
