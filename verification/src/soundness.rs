//! What the probes rule out: an answer that is accepted has passed every probe in every row, and
//! a wrong row passes for at most one of the six values of a probe entry.

use vstd::prelude::*;

use crate::error::OffloadError;
use crate::exact;
use crate::executor::Exec;
use crate::integrity;
use crate::matrix;
use crate::matrix::{Matrix, Tensor3};
use crate::out_attn_mult;
use crate::out_attn_mult::Blinding;
use crate::recovery;
use crate::rng;
use crate::scalar::Ops;
use crate::substrate::WeightHandle;

verus! {

/// Every probe entry is one of `±1, ±2, ±3`, each of the six comes from some word, and two words
/// give the same entry only where they leave the same remainder by six.
pub proof fn law_probe_entries_spread(
    ops: Ops<real>,
    s: rng::RngState,
    t: rng::RngState,
    n: nat,
    i: int,
    j: int,
)
    requires
        exact::exact(ops),
        0 <= i < n,
        0 <= j < n,
    ensures
        ({
            let x = integrity::probe_vector(ops, s, n)[i];
            x == 1real || x == 2real || x == 3real || x == 0real - 1real || x == 0real - 2real || x
                == 0real - 3real
        }),
        integrity::probe_vector(ops, s, n)[i] == integrity::probe_vector(ops, t, n)[j]
            <==> rng::word_at(s, i as nat) as int % 6 == rng::word_at(t, j as nat) as int % 6,
        forall|v: int|
            1 <= v <= 3 ==> #[trigger] is_drawable(ops, n, i, v as real) && is_drawable(
                ops,
                n,
                i,
                0real - v as real,
            ),
{
    assert forall|v: int| 1 <= v <= 3 implies #[trigger] is_drawable(ops, n, i, v as real)
        && is_drawable(ops, n, i, 0real - v as real) by {
        let up = (v + 2) as u32;
        let down = (3 - v) as u32;
        assert(comes_from(ops, n, i, v as real, up));
        assert(comes_from(ops, n, i, 0real - v as real, down));
    }
}

/// Wherever the stream holds the word `w` at place `i`, the probe has the entry `x` there.
pub open spec fn comes_from(ops: Ops<real>, n: nat, i: int, x: real, w: u32) -> bool {
    forall|s: rng::RngState|
        rng::word_at(s, i as nat) == w ==> #[trigger] integrity::probe_vector(ops, s, n)[i] == x
}

/// Some word makes `x` the entry of a probe at place `i`.
pub open spec fn is_drawable(ops: Ops<real>, n: nat, i: int, x: real) -> bool {
    exists|w: u32| #[trigger] comes_from(ops, n, i, x, w)
}

/// The probe with number `a` that a stream yields.
pub open spec fn probe_number<T>(ops: Ops<T>, s: rng::RngState, cols: nat, a: int) -> Seq<T> {
    integrity::probe_vector(ops, rng::skip(s, (a * cols) as nat), cols)
}

proof fn lemma_probe_number<T>(ops: Ops<T>, s: rng::RngState, cols: nat, a: int)
    requires
        a >= 1,
    ensures
        probe_number(ops, rng::skip(s, cols), cols, a - 1) == probe_number(ops, s, cols, a),
{
    assert(cols + (a - 1) * cols == a * cols) by (nonlinear_arith);
    assert((a - 1) * cols >= 0) by (nonlinear_arith)
        requires
            a >= 1,
    ;
    rng::lemma_skip(s, cols, ((a - 1) * cols) as nat);
}

/// All rows pass the probe with number `a`.
pub open spec fn all_pass<T>(
    ops: Ops<T>,
    lhs: Seq<Seq<T>>,
    rhs: Seq<Seq<T>>,
    observed: Seq<Seq<T>>,
    cols: nat,
    s: rng::RngState,
    a: int,
) -> bool {
    forall|i: int|
        0 <= i < lhs.len() ==> #[trigger] integrity::passes(
            ops,
            lhs,
            rhs,
            observed,
            probe_number(ops, s, cols, a),
            i,
        )
}

proof fn lemma_first_failing<T>(
    ops: Ops<T>,
    lhs: Seq<Seq<T>>,
    rhs: Seq<Seq<T>>,
    observed: Seq<Seq<T>>,
    r: Seq<T>,
    i: int,
)
    requires
        0 <= i <= lhs.len(),
    ensures
        ({
            let f = integrity::first_failing(ops, lhs, rhs, observed, r, i);
            &&& i <= f <= lhs.len()
            &&& f < lhs.len() ==> !integrity::passes(ops, lhs, rhs, observed, r, f)
            &&& forall|k: int|
                i <= k < f ==> #[trigger] integrity::passes(ops, lhs, rhs, observed, r, k)
        }),
    decreases lhs.len() - i,
{
    if i < lhs.len() && integrity::passes(ops, lhs, rhs, observed, r, i) {
        lemma_first_failing(ops, lhs, rhs, observed, r, i + 1);
    }
}

/// Probing finds the first probe that a row fails and the first row that fails it. An answer is
/// accepted exactly where every row passes every one of the probes. Each probe that was made has
/// used up its own words of the stream.
pub proof fn law_probing_finds_the_first_failure<T>(
    ops: Ops<T>,
    probes: nat,
    lhs: Seq<Seq<T>>,
    rhs: Seq<Seq<T>>,
    observed: Seq<Seq<T>>,
    cols: nat,
    s: rng::RngState,
)
    ensures
        match integrity::outcome(ops, probes, lhs, rhs, observed, cols, 0, s) {
            (None, after) => {
                &&& forall|a: int|
                    0 <= a < probes ==> #[trigger] all_pass(ops, lhs, rhs, observed, cols, s, a)
                &&& after == rng::skip(s, probes * cols)
            },
            (Some((probe, row)), after) => {
                &&& probe < probes
                &&& row < lhs.len()
                &&& !integrity::passes(
                    ops,
                    lhs,
                    rhs,
                    observed,
                    probe_number(ops, s, cols, probe as int),
                    row as int,
                )
                &&& forall|i: int|
                    0 <= i < row ==> #[trigger] integrity::passes(
                        ops,
                        lhs,
                        rhs,
                        observed,
                        probe_number(ops, s, cols, probe as int),
                        i,
                    )
                &&& forall|a: int|
                    0 <= a < probe ==> #[trigger] all_pass(ops, lhs, rhs, observed, cols, s, a)
                &&& after == rng::skip(s, (probe + 1) * cols)
            },
        },
{
    lemma_outcome(ops, probes, lhs, rhs, observed, cols, 0, s);
    assert((probes - 0) * cols == probes * cols);
}

/// An answer is accepted exactly where every row passes every one of the probes.
pub proof fn law_acceptance_means_all_pass<T>(
    ops: Ops<T>,
    probes: nat,
    lhs: Seq<Seq<T>>,
    rhs: Seq<Seq<T>>,
    observed: Seq<Seq<T>>,
    cols: nat,
    s: rng::RngState,
)
    ensures
        integrity::outcome(ops, probes, lhs, rhs, observed, cols, 0, s).0 is None <==> (forall|
            a: int,
        |
            0 <= a < probes ==> #[trigger] all_pass(ops, lhs, rhs, observed, cols, s, a)),
{
    law_probing_finds_the_first_failure(ops, probes, lhs, rhs, observed, cols, s);
    if let Some((a, i)) = integrity::outcome(ops, probes, lhs, rhs, observed, cols, 0, s).0 {
        assert(!all_pass(ops, lhs, rhs, observed, cols, s, a as int));
    }
}

proof fn lemma_outcome<T>(
    ops: Ops<T>,
    probes: nat,
    lhs: Seq<Seq<T>>,
    rhs: Seq<Seq<T>>,
    observed: Seq<Seq<T>>,
    cols: nat,
    p: nat,
    s: rng::RngState,
)
    requires
        p <= probes,
    ensures
        match integrity::outcome(ops, probes, lhs, rhs, observed, cols, p, s) {
            (None, after) => {
                &&& forall|a: int|
                    0 <= a < probes - p ==> #[trigger] all_pass(
                        ops,
                        lhs,
                        rhs,
                        observed,
                        cols,
                        s,
                        a,
                    )
                &&& after == rng::skip(s, ((probes - p) * cols) as nat)
            },
            (Some((probe, row)), after) => {
                &&& p <= probe < probes
                &&& row < lhs.len()
                &&& !integrity::passes(
                    ops,
                    lhs,
                    rhs,
                    observed,
                    probe_number(ops, s, cols, probe - p),
                    row as int,
                )
                &&& forall|i: int|
                    0 <= i < row ==> #[trigger] integrity::passes(
                        ops,
                        lhs,
                        rhs,
                        observed,
                        probe_number(ops, s, cols, probe - p),
                        i,
                    )
                &&& forall|a: int|
                    0 <= a < probe - p ==> #[trigger] all_pass(
                        ops,
                        lhs,
                        rhs,
                        observed,
                        cols,
                        s,
                        a,
                    )
                &&& after == rng::skip(s, ((probe - p + 1) * cols) as nat)
            },
        },
    decreases probes - p,
{
    if p < probes {
        let r = integrity::probe_vector(ops, s, cols);
        let next = rng::skip(s, cols);
        assert(0 * cols == 0) by (nonlinear_arith);
        assert(probe_number(ops, s, cols, 0) == r);
        lemma_first_failing(ops, lhs, rhs, observed, r, 0);
        let i = integrity::first_failing(ops, lhs, rhs, observed, r, 0);
        if i < lhs.len() {
            assert((p - p + 1) * cols == cols) by (nonlinear_arith);
        } else {
            assert(all_pass(ops, lhs, rhs, observed, cols, s, 0));
            lemma_outcome(ops, probes, lhs, rhs, observed, cols, p + 1, next);
            let found = integrity::outcome(ops, probes, lhs, rhs, observed, cols, p + 1, next);
            let upto = match found.0 {
                None => probes - p - 1,
                Some((probe, row)) => probe - p - 1,
            };
            let made = match found.0 {
                None => probes - p - 1,
                Some((probe, row)) => probe - p,
            };
            assert forall|a: int| 0 <= a < upto + 1 implies #[trigger] all_pass(
                ops,
                lhs,
                rhs,
                observed,
                cols,
                s,
                a,
            ) by {
                if a > 0 {
                    lemma_probe_number(ops, s, cols, a);
                    assert(all_pass(ops, lhs, rhs, observed, cols, next, a - 1));
                }
            }
            if found.0 is Some {
                lemma_probe_number(ops, s, cols, upto + 1);
            }
            assert(cols + made * cols == (made + 1) * cols) by (nonlinear_arith);
            assert(made * cols >= 0) by (nonlinear_arith)
                requires
                    made >= 0,
            ;
            rng::lemma_skip(s, cols, (made * cols) as nat);
        }
    } else {
        assert((probes - p) * cols == 0) by (nonlinear_arith)
            requires
                probes == p,
        ;
    }
}

/// Row `i` of the answer has the same inner product with `r` as that row of the true product.
pub open spec fn agrees(
    ops: Ops<real>,
    lhs: Seq<Seq<real>>,
    rhs: Seq<Seq<real>>,
    observed: Seq<Seq<real>>,
    r: Seq<real>,
    i: int,
) -> bool {
    exact::inner(observed[i], r, r.len()) == exact::inner(
        Seq::new(
            r.len(),
            |j: int|
                exact::inner(
                    lhs[i],
                    Seq::new(rhs.len(), |l: int| rhs[l][j]),
                    rhs.len(),
                ),
        ),
        r,
        r.len(),
    )
}

proof fn lemma_passing_agrees(
    ops: Ops<real>,
    lhs: Seq<Seq<real>>,
    rhs: Seq<Seq<real>>,
    observed: Seq<Seq<real>>,
    r: Seq<real>,
    i: int,
)
    requires
        exact::exact(ops),
        matrix::is_grid(lhs, lhs.len(), rhs.len()),
        matrix::is_grid(rhs, rhs.len(), r.len()),
        matrix::is_grid(observed, lhs.len(), r.len()),
        0 <= i < lhs.len(),
    ensures
        integrity::passes(ops, lhs, rhs, observed, r, i) == agrees(
            ops,
            lhs,
            rhs,
            observed,
            r,
            i,
        ),
        agrees(ops, lhs, rhs, observed, r, i) == (exact::inner(observed[i], r, r.len())
            == exact::inner(matrix::product(ops, lhs, rhs, r.len())[i], r, r.len())),
{
    let cols = r.len();
    let want = matrix::product(ops, lhs, rhs, cols)[i];
    let plain = Seq::new(
        cols,
        |j: int| exact::inner(lhs[i], Seq::new(rhs.len(), |l: int| rhs[l][j]), rhs.len()),
    );
    assert forall|j: int| 0 <= j < cols implies #[trigger] want[j] == plain[j] by {
        let x = Seq::new(rhs.len(), |l: int| rhs[l][j]);
        assert(x =~= matrix::col(rhs, j));
        exact::law_dot_is_the_inner_product(ops, lhs[i], x, rhs.len());
    }
    assert(want =~= plain);
    recovery::law_probe_compares_with_the_product(ops, lhs, rhs, observed, r, i);
    exact::law_dot_is_the_inner_product(ops, observed[i], r, cols);
    exact::law_dot_is_the_inner_product(ops, want, r, cols);
}

/// Over exact arithmetic an answer is accepted exactly where each of its rows has the same inner
/// product as the row of the true product, with every one of the probes.
pub proof fn law_accepted_answer_agrees_with_the_product(
    ops: Ops<real>,
    probes: nat,
    lhs: Seq<Seq<real>>,
    rhs: Seq<Seq<real>>,
    observed: Seq<Seq<real>>,
    cols: nat,
    s: rng::RngState,
)
    requires
        exact::exact(ops),
        matrix::is_grid(lhs, lhs.len(), rhs.len()),
        matrix::is_grid(rhs, rhs.len(), cols),
        matrix::is_grid(observed, lhs.len(), cols),
    ensures
        integrity::outcome(ops, probes, lhs, rhs, observed, cols, 0, s).0 is None <==> (forall|
            a: int,
            i: int,
        |
            0 <= a < probes && 0 <= i < lhs.len() ==> #[trigger] agrees(
                ops,
                lhs,
                rhs,
                observed,
                probe_number(ops, s, cols, a),
                i,
            )),
{
    law_probing_finds_the_first_failure(ops, probes, lhs, rhs, observed, cols, s);
    assert forall|a: int, i: int| 0 <= a < probes && 0 <= i < lhs.len() implies #[trigger] agrees(
        ops,
        lhs,
        rhs,
        observed,
        probe_number(ops, s, cols, a),
        i,
    ) == integrity::passes(ops, lhs, rhs, observed, probe_number(ops, s, cols, a), i) by {
        lemma_passing_agrees(ops, lhs, rhs, observed, probe_number(ops, s, cols, a), i);
    }
    match integrity::outcome(ops, probes, lhs, rhs, observed, cols, 0, s).0 {
        None => {
            assert forall|a: int, i: int|
                0 <= a < probes && 0 <= i < lhs.len() implies #[trigger] agrees(
                ops,
                lhs,
                rhs,
                observed,
                probe_number(ops, s, cols, a),
                i,
            ) by {
                assert(all_pass(ops, lhs, rhs, observed, cols, s, a));
            }
        },
        Some((probe, row)) => {
            assert(!agrees(
                ops,
                lhs,
                rhs,
                observed,
                probe_number(ops, s, cols, probe as int),
                row as int,
            ));
        },
    }
}

/// Inner products of one row with two vectors that differ at one place.
proof fn lemma_inner_one_place(
    x: Seq<real>,
    y: Seq<real>,
    u: Seq<real>,
    v: Seq<real>,
    j: int,
    k: nat,
)
    requires
        forall|c: int| 0 <= c < k && c != j ==> #[trigger] u[c] == v[c],
        0 <= j,
    ensures
        (exact::inner(x, u, k) - exact::inner(y, u, k)) - (exact::inner(x, v, k) - exact::inner(
            y,
            v,
            k,
        )) == if j < k {
            (x[j] - y[j]) * (u[j] - v[j])
        } else {
            0real
        },
    decreases k,
{
    if k > 0 {
        let p = (k - 1) as nat;
        lemma_inner_one_place(x, y, u, v, j, p);
        if j == p {
            exact::lemma_distribute(x[j], y[j], u[j] - v[j]);
            exact::lemma_distribute(u[j], v[j], x[j]);
            exact::lemma_distribute(u[j], v[j], y[j]);
        } else {
            assert(u[p as int] == v[p as int]);
        }
    }
}

proof fn lemma_not_zero(x: real, y: real)
    requires
        x != 0real,
        y != 0real,
    ensures
        x * y != 0real,
{
    if x * y == 0real {
        let u = 1real / y;
        exact::lemma_quotient(1real, y);
        exact::lemma_times_comm(u, y);
        exact::lemma_times_assoc(x, y, u);
        assert(0real * u == 0real);
        assert(x * 1real == x);
    }
}

/// A wrong row passes for at most one value of the probe entry at a wrong column: of two streams
/// whose words differ there by their remainder by six, and agree at the other columns, at most
/// one lets the answer pass.
pub proof fn law_wrong_entry_passes_for_one_value(
    ops: Ops<real>,
    probes: nat,
    lhs: Seq<Seq<real>>,
    rhs: Seq<Seq<real>>,
    observed: Seq<Seq<real>>,
    cols: nat,
    s: rng::RngState,
    t: rng::RngState,
    i: int,
    j: int,
)
    requires
        exact::exact(ops),
        matrix::is_grid(lhs, lhs.len(), rhs.len()),
        matrix::is_grid(rhs, rhs.len(), cols),
        matrix::is_grid(observed, lhs.len(), cols),
        probes > 0,
        0 <= i < lhs.len(),
        0 <= j < cols,
        observed[i][j] != matrix::product(ops, lhs, rhs, cols)[i][j],
        forall|c: int|
            0 <= c < cols && c != j ==> #[trigger] rng::word_at(s, c as nat) == rng::word_at(
                t,
                c as nat,
            ),
        rng::word_at(s, j as nat) as int % 6 != rng::word_at(t, j as nat) as int % 6,
    ensures
        integrity::outcome(ops, probes, lhs, rhs, observed, cols, 0, s).0 is Some
            || integrity::outcome(ops, probes, lhs, rhs, observed, cols, 0, t).0 is Some,
{
    let want = matrix::product(ops, lhs, rhs, cols)[i];
    let got = observed[i];
    let u = integrity::probe_vector(ops, s, cols);
    let v = integrity::probe_vector(ops, t, cols);
    assert(0 * cols == 0) by (nonlinear_arith);
    assert(probe_number(ops, s, cols, 0) == u);
    assert(probe_number(ops, t, cols, 0) == v);
    assert forall|c: int| 0 <= c < cols && c != j implies #[trigger] u[c] == v[c] by {
        assert(rng::word_at(s, c as nat) == rng::word_at(t, c as nat));
    }
    law_probe_entries_spread(ops, s, t, cols, j, j);
    lemma_inner_one_place(got, want, u, v, j, cols);
    lemma_not_zero(got[j] - want[j], u[j] - v[j]);
    law_accepted_answer_agrees_with_the_product(ops, probes, lhs, rhs, observed, cols, s);
    law_accepted_answer_agrees_with_the_product(ops, probes, lhs, rhs, observed, cols, t);
    if integrity::outcome(ops, probes, lhs, rhs, observed, cols, 0, s).0 is None
        && integrity::outcome(ops, probes, lhs, rhs, observed, cols, 0, t).0 is None {
        assert(agrees(ops, lhs, rhs, observed, probe_number(ops, s, cols, 0), i));
        assert(agrees(ops, lhs, rhs, observed, probe_number(ops, t, cols, 0), i));
        lemma_passing_agrees(ops, lhs, rhs, observed, u, i);
        lemma_passing_agrees(ops, lhs, rhs, observed, v, i);
    }
}

/// The next words of a stream.
pub open spec fn begins_with(s: rng::RngState, words: Seq<u32>) -> bool {
    forall|c: int| 0 <= c < words.len() ==> #[trigger] rng::word_at(s, c as nat) == words[c]
}

/// Whatever stream begins with these words, the answer is refused.
pub open spec fn refuses(
    ops: Ops<real>,
    probes: nat,
    lhs: Seq<Seq<real>>,
    rhs: Seq<Seq<real>>,
    observed: Seq<Seq<real>>,
    cols: nat,
    words: Seq<u32>,
) -> bool {
    forall|s: rng::RngState|
        #[trigger] begins_with(s, words) ==> integrity::outcome(
            ops,
            probes,
            lhs,
            rhs,
            observed,
            cols,
            0,
            s,
        ).0 is Some
}

/// The probe vector that words stand for.
spec fn worded(ops: Ops<real>, words: Seq<u32>) -> Seq<real> {
    Seq::new(words.len(), |c: int| (ops.from_int)(integrity::probe_entry(words[c])))
}

proof fn lemma_worded_refuses(
    ops: Ops<real>,
    probes: nat,
    lhs: Seq<Seq<real>>,
    rhs: Seq<Seq<real>>,
    observed: Seq<Seq<real>>,
    cols: nat,
    words: Seq<u32>,
    i: int,
)
    requires
        exact::exact(ops),
        matrix::is_grid(lhs, lhs.len(), rhs.len()),
        matrix::is_grid(rhs, rhs.len(), cols),
        matrix::is_grid(observed, lhs.len(), cols),
        probes > 0,
        0 <= i < lhs.len(),
        words.len() == cols,
        exact::inner(observed[i], worded(ops, words), cols) != exact::inner(
            matrix::product(ops, lhs, rhs, cols)[i],
            worded(ops, words),
            cols,
        ),
    ensures
        refuses(ops, probes, lhs, rhs, observed, cols, words),
{
    assert forall|s: rng::RngState| #[trigger] begins_with(s, words) implies integrity::outcome(
        ops,
        probes,
        lhs,
        rhs,
        observed,
        cols,
        0,
        s,
    ).0 is Some by {
        let r = integrity::probe_vector(ops, s, cols);
        assert(r =~= worded(ops, words)) by {
            assert forall|c: int| 0 <= c < cols implies #[trigger] r[c] == worded(ops, words)[c] by {
                assert(rng::word_at(s, c as nat) == words[c]);
            }
        }
        assert(0 * cols == 0) by (nonlinear_arith);
        assert(probe_number(ops, s, cols, 0) == r);
        law_accepted_answer_agrees_with_the_product(ops, probes, lhs, rhs, observed, cols, s);
        lemma_passing_agrees(ops, lhs, rhs, observed, r, i);
        assert(!agrees(ops, lhs, rhs, observed, probe_number(ops, s, cols, 0), i));
    }
}

/// For every wrong row there are words that refuse it: whatever is wrong with the other rows and
/// columns, a stream that begins with them does not accept the answer.
pub proof fn law_wrong_row_is_refused_by_some_words(
    ops: Ops<real>,
    probes: nat,
    lhs: Seq<Seq<real>>,
    rhs: Seq<Seq<real>>,
    observed: Seq<Seq<real>>,
    cols: nat,
    i: int,
)
    requires
        exact::exact(ops),
        matrix::is_grid(lhs, lhs.len(), rhs.len()),
        matrix::is_grid(rhs, rhs.len(), cols),
        matrix::is_grid(observed, lhs.len(), cols),
        probes > 0,
        0 <= i < lhs.len(),
        observed[i] != matrix::product(ops, lhs, rhs, cols)[i],
    ensures
        exists|words: Seq<u32>|
            words.len() == cols && #[trigger] refuses(
                ops,
                probes,
                lhs,
                rhs,
                observed,
                cols,
                words,
            ),
{
    let want = matrix::product(ops, lhs, rhs, cols)[i];
    let got = observed[i];
    assert(got.len() == cols);
    assert(exists|j: int| 0 <= j < cols && got[j] != want[j]) by {
        if forall|j: int| 0 <= j < cols ==> got[j] == want[j] {
            assert(got =~= want);
        }
    }
    let j = choose|j: int| 0 <= j < cols && got[j] != want[j];
    let one = Seq::new(cols, |c: int| 0u32);
    let two = one.update(j, 1u32);
    let (u, v) = (worded(ops, one), worded(ops, two));
    lemma_inner_one_place(got, want, u, v, j, cols);
    lemma_not_zero(got[j] - want[j], u[j] - v[j]);
    if exact::inner(got, u, cols) != exact::inner(want, u, cols) {
        lemma_worded_refuses(ops, probes, lhs, rhs, observed, cols, one, i);
        assert(refuses(ops, probes, lhs, rhs, observed, cols, one));
    } else {
        lemma_worded_refuses(ops, probes, lhs, rhs, observed, cols, two, i);
        assert(refuses(ops, probes, lhs, rhs, observed, cols, two));
    }
}

/// The stream when the probing of head `h` starts, where all heads before it were accepted.
pub open spec fn head_stream(s: rng::RngState, probes: nat, cols: nat, h: int) -> rng::RngState {
    rng::skip(s, (h * (probes * cols)) as nat)
}

/// All rows of head `h` pass the probe with number `a` that is drawn for that head.
pub open spec fn head_passes<T>(
    ops: Ops<T>,
    probes: nat,
    sq: Seq<Seq<Seq<T>>>,
    skt: Seq<Seq<Seq<T>>>,
    tilde: Seq<Seq<Seq<T>>>,
    cols: nat,
    s: rng::RngState,
    h: int,
    a: int,
) -> bool {
    all_pass(ops, sq[h], skt[h], tilde[h], cols, head_stream(s, probes, cols, h), a)
}

proof fn lemma_outcome_heads<T>(
    ops: Ops<T>,
    probes: nat,
    sq: Seq<Seq<Seq<T>>>,
    skt: Seq<Seq<Seq<T>>>,
    tilde: Seq<Seq<Seq<T>>>,
    cols: nat,
    h: nat,
    s: rng::RngState,
)
    requires
        h <= sq.len(),
    ensures
        ({
            let found = out_attn_mult::outcome_heads(
                ops,
                probes,
                sq,
                skt,
                tilde,
                cols,
                h,
                head_stream(s, probes, cols, h as int),
            );
            &&& found.0 is None ==> found.1 == head_stream(s, probes, cols, sq.len() as int)
            &&& found.0 is None ==> (forall|g: int, a: int|
                h <= g < sq.len() && 0 <= a < probes ==> #[trigger] head_passes(
                    ops,
                    probes,
                    sq,
                    skt,
                    tilde,
                    cols,
                    s,
                    g,
                    a,
                ))
            &&& found.0 matches Some((a, i)) ==> a < probes && exists|g: int|
                #![trigger sq[g]]
                h <= g < sq.len() && i < sq[g].len() && !integrity::passes(
                    ops,
                    sq[g],
                    skt[g],
                    tilde[g],
                    probe_number(ops, head_stream(s, probes, cols, g), cols, a as int),
                    i as int,
                )
        }),
    decreases sq.len() - h,
{
    if h < sq.len() {
        let at = head_stream(s, probes, cols, h as int);
        let (x, y, z) = (sq[h as int], skt[h as int], tilde[h as int]);
        law_probing_finds_the_first_failure(ops, probes, x, y, z, cols, at);
        let one = integrity::outcome(ops, probes, x, y, z, cols, 0, at);
        if one.0 is None {
            let step = probes * cols;
            assert(h * step >= 0 && step >= 0) by (nonlinear_arith)
                requires
                    step == probes * cols,
            ;
            assert(h * step + step == (h + 1) * step) by (nonlinear_arith);
            rng::lemma_skip(s, (h * step) as nat, step);
            assert(one.1 == head_stream(s, probes, cols, (h + 1) as int));
            lemma_outcome_heads(ops, probes, sq, skt, tilde, cols, h + 1, s);
            let rest = out_attn_mult::outcome_heads(
                ops,
                probes,
                sq,
                skt,
                tilde,
                cols,
                h + 1,
                one.1,
            );
            if rest.0 is None {
                assert forall|g: int, a: int|
                    h <= g < sq.len() && 0 <= a < probes implies #[trigger] head_passes(
                    ops,
                    probes,
                    sq,
                    skt,
                    tilde,
                    cols,
                    s,
                    g,
                    a,
                ) by {
                    if g == h {
                        assert(all_pass(ops, x, y, z, cols, at, a));
                    }
                }
            }
        } else {
            let (a, i) = one.0.unwrap();
            assert(i < sq[h as int].len());
        }
    }
}

/// A batched run whose answer has the right shape succeeds exactly where every row of every head
/// passes every probe that is drawn for that head; otherwise it is refused as tampered with. Each
/// head that was accepted has used up its own words of the stream.
pub proof fn law_every_head_is_probed<T>(
    ops: Ops<T>,
    tilde: Tensor3<T>,
    sq: Seq<Seq<Seq<T>>>,
    skt: Seq<Seq<Seq<T>>>,
    bls: Seq<Blinding<T>>,
    n: nat,
    probes: nat,
    s: rng::RngState,
    r: Result<Tensor3<T>, OffloadError>,
    after: rng::RngState,
)
    requires
        tilde@.len() >= sq.len(),
        tilde.height() == 2 * n,
        tilde.width() == 2 * n,
        out_attn_mult::concluded_heads(ops, Ok(tilde), sq, skt, bls, n, probes, s, r, after),
    ensures
        r is Ok <==> (forall|h: int, a: int|
            0 <= h < sq.len() && 0 <= a < probes ==> #[trigger] head_passes(
                ops,
                probes,
                sq,
                skt,
                tilde@,
                2 * n,
                s,
                h,
                a,
            )),
        r matches Err(e) ==> e is Tampered,
        r is Ok ==> after == head_stream(s, probes, 2 * n, sq.len() as int),
{
    let cols = 2 * n;
    assert(0 * (probes * cols) == 0) by (nonlinear_arith);
    assert(head_stream(s, probes, cols, 0) == s);
    lemma_outcome_heads(ops, probes, sq, skt, tilde@, cols, 0, s);
    let found = out_attn_mult::outcome_heads(ops, probes, sq, skt, tilde@, cols, 0, s);
    if let Some((a, i)) = found.0 {
        let g = choose|g: int|
            #![trigger sq[g]]
            0 <= g < sq.len() && i < sq[g].len() && !integrity::passes(
                ops,
                sq[g],
                skt[g],
                tilde@[g],
                probe_number(ops, head_stream(s, probes, cols, g), cols, a as int),
                i as int,
            );
        assert(!head_passes(ops, probes, sq, skt, tilde@, cols, s, g, a as int));
    }
}

/// A single wrong entry in one row of any head makes a batched run end in an error, whatever the
/// stream holds and whatever the engine answered for the other heads.
pub proof fn law_wrong_entry_in_any_head_is_refused(
    ops: Ops<real>,
    tilde: Tensor3<real>,
    sq: Seq<Seq<Seq<real>>>,
    skt: Seq<Seq<Seq<real>>>,
    bls: Seq<Blinding<real>>,
    n: nat,
    probes: nat,
    s: rng::RngState,
    r: Result<Tensor3<real>, OffloadError>,
    after: rng::RngState,
    h: int,
    i: int,
    j: int,
)
    requires
        exact::exact(ops),
        probes > 0,
        0 <= h < sq.len(),
        matrix::is_grid(sq[h], 2 * n, skt[h].len()),
        matrix::is_grid(skt[h], skt[h].len(), 2 * n),
        matrix::is_grid(tilde@[h], 2 * n, 2 * n),
        tilde@.len() >= sq.len(),
        tilde.height() == 2 * n,
        tilde.width() == 2 * n,
        0 <= i < 2 * n,
        0 <= j < 2 * n,
        forall|k: int|
            0 <= k < 2 * n ==> (#[trigger] tilde@[h][i][k] == matrix::product(
                ops,
                sq[h],
                skt[h],
                2 * n,
            )[i][k] <==> k != j),
        out_attn_mult::concluded_heads(ops, Ok(tilde), sq, skt, bls, n, probes, s, r, after),
    ensures
        r matches Err(e) && e is Tampered,
{
    let cols = 2 * n;
    law_every_head_is_probed(ops, tilde, sq, skt, bls, n, probes, s, r, after);
    let at = head_stream(s, probes, cols, h);
    assert(0 * cols == 0) by (nonlinear_arith);
    assert(probe_number(ops, at, cols, 0) == integrity::probe_vector(ops, at, cols));
    assert(tilde@[h][i][j] != matrix::product(ops, sq[h], skt[h], cols)[i][j]);
    recovery::law_single_wrong_entry_is_caught(ops, sq[h], skt[h], tilde@[h], cols, at, i, j);
    assert(!head_passes(ops, probes, sq, skt, tilde@, cols, s, h, 0));
}

/// A run over one head whose answer has the right shape succeeds exactly where every row passes
/// every probe; otherwise it is refused as tampered with.
pub proof fn law_single_head_is_probed<T>(
    ops: Ops<T>,
    tilde: Matrix<T>,
    sq: Seq<Seq<T>>,
    skt: Seq<Seq<T>>,
    bl: Blinding<T>,
    n: nat,
    probes: nat,
    s: rng::RngState,
    r: Result<Matrix<T>, OffloadError>,
    after: rng::RngState,
)
    requires
        tilde@.len() == 2 * n,
        tilde.width() == 2 * n,
        out_attn_mult::concluded(ops, Ok(tilde), sq, skt, bl, n, probes, s, r, after),
    ensures
        r is Ok <==> (forall|a: int|
            0 <= a < probes ==> #[trigger] all_pass(ops, sq, skt, tilde@, 2 * n, s, a)),
        r matches Err(e) ==> e is Tampered,
        r is Ok ==> after == rng::skip(s, probes * (2 * n)),
{
    law_probing_finds_the_first_failure(ops, probes, sq, skt, tilde@, 2 * n, s);
    let found = integrity::outcome(ops, probes, sq, skt, tilde@, 2 * n, 0, s);
    if let Some((a, i)) = found.0 {
        assert(!all_pass(ops, sq, skt, tilde@, 2 * n, s, a as int));
    }
}

/// Every one of the answers to an offload has been judged acceptable, some words further on in
/// the stream.
proof fn lemma_all_judged<T, E>(
    ops: Ops<T>,
    e: Exec<T, E>,
    handles: Seq<WeightHandle>,
    masked: Seq<Seq<T>>,
    d: nat,
    outs: Seq<Matrix<T>>,
    i: nat,
    s: rng::RngState,
    k: int,
) -> (words: nat)
    requires
        e.judged_from(ops, handles, masked, d, outs, i, s).0 is None,
        i <= k < handles.len(),
    ensures
        e.judged(ops, handles[k], masked, d, outs[k], rng::skip(s, words)).0 is None,
    decreases k - i,
{
    if i == k {
        0
    } else {
        let (handle, out) = (handles[i as int], outs[i as int]);
        let w = e.weights[handle];
        let one = e.judged(ops, handle, masked, d, out, s);
        let more = lemma_all_judged(ops, e, handles, masked, d, outs, i + 1, one.1, k);
        if e.verify_probes > 0 {
            let probes = e.verify_probes as nat;
            law_probing_finds_the_first_failure(ops, probes, masked, w@, out@, w.width(), s);
            rng::lemma_skip(s, probes * w.width(), more);
            probes * w.width() + more
        } else {
            more
        }
    }
}

/// An answer is passed on only where each of its rows agrees with the product of the masked
/// operand and the weight on every probe.
proof fn lemma_judged_agrees<E>(
    ops: Ops<real>,
    e: Exec<real, E>,
    handle: WeightHandle,
    masked: Seq<Seq<real>>,
    d: nat,
    out: Matrix<real>,
    at: rng::RngState,
)
    requires
        exact::exact(ops),
        e.verify_probes > 0,
        matrix::is_grid(masked, masked.len(), d),
        matrix::is_grid(out@, out@.len(), out.width()),
        matrix::is_grid(e.weights[handle]@, e.weights[handle]@.len(), e.weights[handle].width()),
        e.judged(ops, handle, masked, d, out, at).0 is None,
    ensures
        e.weights.contains_key(handle),
        is_trusted(ops, e, handle, masked, out, at),
{
    let w = e.weights[handle];
    law_accepted_answer_agrees_with_the_product(
        ops,
        e.verify_probes as nat,
        masked,
        w@,
        out@,
        w.width(),
        at,
    );
}

/// The answer has the shape of the product with the weight, and each of its rows has the same
/// inner product as that of the product with every probe drawn from `at` on.
pub open spec fn is_trusted<E>(
    ops: Ops<real>,
    e: Exec<real, E>,
    handle: WeightHandle,
    masked: Seq<Seq<real>>,
    out: Matrix<real>,
    at: rng::RngState,
) -> bool {
    let w = e.weights[handle];
    &&& out@.len() == masked.len()
    &&& out.width() == w.width()
    &&& forall|a: int, i: int|
        0 <= a < e.verify_probes && 0 <= i < masked.len() ==> #[trigger] agrees(
            ops,
            masked,
            w@,
            out@,
            probe_number(ops, at, w.width(), a),
            i,
        )
}

/// With probes asked for, an offload to several weights succeeds only where every answer, of
/// every weight, agrees with the product of the masked operand on every probe.
pub proof fn law_every_answer_is_probed<E>(
    ops: Ops<real>,
    e: Exec<real, E>,
    handles: Seq<WeightHandle>,
    hidden: Matrix<real>,
    outs: Vec<Matrix<real>>,
    after: Exec<real, E>,
    r: Result<Vec<Matrix<real>>, OffloadError>,
    k: int,
)
    requires
        exact::exact(ops),
        matrix::is_grid(hidden@, hidden@.len(), hidden.width()),
        e.offload_error(hidden@.len(), hidden.width(), handles.len()) is None,
        recovery::session_sound(ops, e),
        e.verify_probes > 0,
        0 <= k < handles.len(),
        matrix::is_grid(outs@[k]@, outs@[k]@.len(), outs@[k].width()),
        matrix::is_grid(
            e.weights[handles[k]]@,
            e.weights[handles[k]]@.len(),
            e.weights[handles[k]].width(),
        ),
        e.many_end(ops, handles, hidden, Ok(outs), after, r),
        r is Ok,
    ensures
        outs@.len() == handles.len(),
        e.weights.contains_key(handles[k]),
        exists|words: nat| #[trigger]
            is_trusted(
                ops,
                e,
                handles[k],
                e.prepared(ops, hidden@, hidden.width()).1,
                outs@[k],
                rng::skip(e.prepared(ops, hidden@, hidden.width()).2, words),
            ),
{
    let d = hidden.width();
    let (m, masked, s) = e.prepared(ops, hidden@, d);
    recovery::lemma_prepared_grid(ops, e, hidden@, d, handles.len());
    let words = lemma_all_judged(ops, e, handles, masked, d, outs@, 0, s, k);
    lemma_judged_agrees(ops, e, handles[k], masked, d, outs@[k], rng::skip(s, words));
}

/// The same of an offload to one weight.
pub proof fn law_answer_is_probed<E>(
    ops: Ops<real>,
    e: Exec<real, E>,
    handle: WeightHandle,
    hidden: Matrix<real>,
    out: Matrix<real>,
    after: Exec<real, E>,
    r: Result<Matrix<real>, OffloadError>,
)
    requires
        exact::exact(ops),
        matrix::is_grid(hidden@, hidden@.len(), hidden.width()),
        e.offload_error(hidden@.len(), hidden.width(), 1) is None,
        recovery::session_sound(ops, e),
        e.verify_probes > 0,
        matrix::is_grid(out@, out@.len(), out.width()),
        matrix::is_grid(e.weights[handle]@, e.weights[handle]@.len(), e.weights[handle].width()),
        e.linear_end(ops, handle, hidden, Ok(out), after, r),
        r is Ok,
    ensures
        e.weights.contains_key(handle),
        is_trusted(
            ops,
            e,
            handle,
            e.prepared(ops, hidden@, hidden.width()).1,
            out,
            e.prepared(ops, hidden@, hidden.width()).2,
        ),
{
    let d = hidden.width();
    let (m, masked, s) = e.prepared(ops, hidden@, d);
    recovery::lemma_prepared_grid(ops, e, hidden@, d, 1);
    lemma_judged_agrees(ops, e, handle, masked, d, out, s);
}

/// With probes asked for, a single wrong entry in one row of any answer makes the whole offload
/// end in an error.
pub proof fn law_wrong_entry_in_any_answer_is_refused<E>(
    ops: Ops<real>,
    e: Exec<real, E>,
    handles: Seq<WeightHandle>,
    hidden: Matrix<real>,
    outs: Vec<Matrix<real>>,
    after: Exec<real, E>,
    r: Result<Vec<Matrix<real>>, OffloadError>,
    k: int,
    i: int,
    j: int,
)
    requires
        exact::exact(ops),
        matrix::is_grid(hidden@, hidden@.len(), hidden.width()),
        e.offload_error(hidden@.len(), hidden.width(), handles.len()) is None,
        recovery::session_sound(ops, e),
        e.verify_probes > 0,
        0 <= k < handles.len(),
        ({
            let x = e.prepared(ops, hidden@, hidden.width()).1;
            let w = e.weights[handles[k]];
            &&& matrix::is_grid(w@, hidden.width(), w.width())
            &&& matrix::is_grid(outs@[k]@, x.len(), w.width())
            &&& 0 <= i < x.len()
            &&& 0 <= j < w.width()
            &&& forall|c: int|
                0 <= c < w.width() ==> (#[trigger] outs@[k]@[i][c] == matrix::product(
                    ops,
                    x,
                    w@,
                    w.width(),
                )[i][c] <==> c != j)
        }),
        e.many_end(ops, handles, hidden, Ok(outs), after, r),
    ensures
        r is Err,
{
    let d = hidden.width();
    let (m, masked, s) = e.prepared(ops, hidden@, d);
    let w = e.weights[handles[k]];
    let cols = w.width();
    recovery::lemma_prepared_grid(ops, e, hidden@, d, handles.len());
    if r is Ok {
        let words = lemma_all_judged(ops, e, handles, masked, d, outs@, 0, s, k);
        let at = rng::skip(s, words);
        assert(outs@[k]@[i][j] != matrix::product(ops, masked, w@, cols)[i][j]);
        recovery::law_single_wrong_entry_is_caught(ops, masked, w@, outs@[k]@, cols, at, i, j);
        law_probing_finds_the_first_failure(
            ops,
            e.verify_probes as nat,
            masked,
            w@,
            outs@[k]@,
            cols,
            at,
        );
        assert(0 * cols == 0) by (nonlinear_arith);
        assert(probe_number(ops, at, cols, 0) == integrity::probe_vector(ops, at, cols));
        assert(all_pass(ops, masked, w@, outs@[k]@, cols, at, 0));
    }
}

/// What a refusal names: a probe that was made, and a row that fails it.
pub open spec fn names_failure<T>(
    ops: Ops<T>,
    probes: nat,
    lhs: Seq<Seq<T>>,
    rhs: Seq<Seq<T>>,
    observed: Seq<Seq<T>>,
    cols: nat,
    s: rng::RngState,
    e: OffloadError,
) -> bool {
    e matches OffloadError::Tampered { probe, row } ==> {
        &&& probe < probes
        &&& row < lhs.len()
        &&& !integrity::passes(
            ops,
            lhs,
            rhs,
            observed,
            probe_number(ops, s, cols, probe as int),
            row as int,
        )
    }
}

/// A refused answer is refused as tampered with, and the refusal names a probe and a row that
/// fails it.
pub proof fn law_refusals_name_a_failing_row<T>(
    ops: Ops<T>,
    probes: nat,
    lhs: Seq<Seq<T>>,
    rhs: Seq<Seq<T>>,
    observed: Seq<Seq<T>>,
    cols: nat,
    s: rng::RngState,
)
    requires
        probes <= usize::MAX,
        lhs.len() <= usize::MAX,
    ensures
        ({
            let found = integrity::outcome(ops, probes, lhs, rhs, observed, cols, 0, s).0;
            match integrity::verdict(found) {
                Ok(_) => found is None,
                Err(e) => {
                    &&& found is Some
                    &&& e is Tampered
                    &&& names_failure(ops, probes, lhs, rhs, observed, cols, s, e)
                },
            }
        }),
{
    law_probing_finds_the_first_failure(ops, probes, lhs, rhs, observed, cols, s);
}

/// The same of a judgement on an answer to an offload.
pub proof fn law_judgements_name_a_failing_row<T, E>(
    ops: Ops<T>,
    e: Exec<T, E>,
    handle: WeightHandle,
    masked: Seq<Seq<T>>,
    d: nat,
    out: Matrix<T>,
    s: rng::RngState,
)
    requires
        masked.len() <= usize::MAX,
    ensures
        e.judged(ops, handle, masked, d, out, s).0 matches Some(err) ==> names_failure(
            ops,
            e.verify_probes as nat,
            masked,
            e.weights[handle]@,
            out@,
            e.weights[handle].width(),
            s,
            err,
        ),
{
    let w = e.weights[handle];
    law_probing_finds_the_first_failure(
        ops,
        e.verify_probes as nat,
        masked,
        w@,
        out@,
        w.width(),
        s,
    );
}

/// `ops` adds and multiplies without rounding, and compares in whatever way.
pub open spec fn adds_exactly(ops: Ops<real>) -> bool {
    &&& forall|i: int| #[trigger] (ops.from_int)(i) == i as real
    &&& forall|x: real, y: real| #[trigger] (ops.add)(x, y) == x + y
    &&& forall|x: real, y: real| #[trigger] (ops.mul)(x, y) == x * y
    &&& forall|x: real| #[trigger] (ops.neg)(x) == 0real - x
    &&& forall|x: real, y: real|
        #[trigger] (ops.max)(x, y) == if x >= y {
            x
        } else {
            y
        }
}

/// Size of a number.
pub open spec fn size(x: real) -> real {
    if x < 0real {
        0real - x
    } else {
        x
    }
}

/// Sizes of the numbers of a row.
pub open spec fn all_sizes(x: Seq<real>) -> Seq<real> {
    Seq::new(x.len(), |j: int| size(x[j]))
}

/// The product of a matrix with a vector.
pub open spec fn applied(m: Seq<Seq<real>>, x: Seq<real>) -> Seq<real> {
    Seq::new(m.len(), |i: int| exact::inner(m[i], x, x.len()))
}

/// The rows of a matrix with every number replaced by its size.
pub open spec fn sized(m: Seq<Seq<real>>) -> Seq<Seq<real>> {
    Seq::new(m.len(), |i: int| all_sizes(m[i]))
}

proof fn lemma_dot_adds(ops: Ops<real>, x: Seq<real>, y: Seq<real>, k: nat)
    requires
        adds_exactly(ops),
    ensures
        matrix::dot(ops, x, y, k) == exact::inner(x, y, k),
    decreases k,
{
    if k > 0 {
        lemma_dot_adds(ops, x, y, (k - 1) as nat);
    }
}

proof fn lemma_image(ops: Ops<real>, m: Seq<Seq<real>>, x: Seq<real>)
    requires
        adds_exactly(ops),
    ensures
        integrity::image(ops, m, x) == applied(m, x),
        integrity::size_image(ops, m, x) == applied(sized(m), x),
        integrity::sizes(ops, x) == all_sizes(x),
{
    assert forall|i: int| 0 <= i < m.len() implies #[trigger] integrity::image(ops, m, x)[i]
        == applied(m, x)[i] by {
        lemma_dot_adds(ops, m[i], x, x.len());
    }
    assert(integrity::image(ops, m, x) =~= applied(m, x));
    assert forall|i: int| 0 <= i < m.len() implies #[trigger] integrity::size_image(ops, m, x)[i]
        == applied(sized(m), x)[i] by {
        assert(integrity::sizes(ops, m[i]) =~= all_sizes(m[i]));
        lemma_dot_adds(ops, all_sizes(m[i]), x, x.len());
    }
    assert(integrity::size_image(ops, m, x) =~= applied(sized(m), x));
    assert(integrity::sizes(ops, x) =~= all_sizes(x));
}

/// What a probe compares, and how closely: the two products with the probe vector, at the size
/// that the same products have of the sizes of all numbers, for as many terms as were added up.
pub proof fn law_probe_tolerance_is_the_product_of_sizes(
    ops: Ops<real>,
    lhs: Seq<Seq<real>>,
    rhs: Seq<Seq<real>>,
    observed: Seq<Seq<real>>,
    r: Seq<real>,
    i: int,
)
    requires
        adds_exactly(ops),
        observed.len() == lhs.len(),
        0 <= i < lhs.len(),
    ensures
        integrity::passes(ops, lhs, rhs, observed, r, i) == (ops.close)(
            applied(lhs, applied(rhs, r))[i],
            applied(observed, r)[i],
            applied(sized(lhs), applied(sized(rhs), all_sizes(r)))[i],
            rhs.len() + r.len(),
        ),
{
    lemma_image(ops, rhs, r);
    lemma_image(ops, lhs, applied(rhs, r));
    lemma_image(ops, observed, r);
    lemma_image(ops, rhs, all_sizes(r));
    lemma_image(ops, lhs, applied(sized(rhs), all_sizes(r)));
}

} // verus!
