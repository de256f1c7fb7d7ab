//! Outsourcing `Q·Kᵀ` without showing either operand.
//!
//! Both operands are blinded by random matrices and scalars and stacked to twice their
//! size: the engine multiplies a reordering of `[Q + R_Q ; a·R_Q]` with a reordering of
//! `[Kᵀ + R_Kt , b·R_Kt]`. Put back in order, its answer falls into four blocks, from which
//! `Q·Kᵀ = T₁ - T₂/b - T₃/a + T₄/(a·b)` is recovered.

use vstd::prelude::*;

use crate::error::OffloadError;
use crate::gaussian;
use crate::integrity;
use crate::matrix;
use crate::matrix::{Matrix, Tensor3};
use crate::profile;
use crate::profile::{Profile, Stopwatch};
use crate::rng;
use crate::rng::MaskRng;
use crate::scalar::{Ops, Scalar};
use crate::substrate;
use crate::substrate::GpuOffloadEngine;

verus! {

/// The secrets of one head.
pub struct Blinding<T> {
    pub r_q: Seq<Seq<T>>,
    pub r_kt: Seq<Seq<T>>,
    pub a: T,
    pub b: T,
    pub lambda_q: Seq<usize>,
    pub lambda_k: Seq<usize>,
}

impl<T> Blinding<T> {
    /// The two orders are permutations of `2n` rows and of `2n` columns.
    pub open spec fn ordered(self, n: nat) -> bool {
        &&& rng::is_permutation(self.lambda_q, 2 * n)
        &&& rng::is_permutation(self.lambda_k, 2 * n)
    }
}

/// A scalar of size between one half and three halves, of random sign, and the stream after
/// it.
pub open spec fn drawn_scalar<T>(ops: Ops<T>, s: rng::RngState) -> (T, rng::RngState) {
    let u = (ops.uniform)(
        (ops.div)(ops.one(), ops.two()),
        (ops.div)((ops.from_int)(3), ops.two()),
        s,
    );
    (
        if rng::word(u.1) & 1u32 == 0u32 {
            u.0
        } else {
            (ops.neg)(u.0)
        },
        rng::skip(u.1, 1),
    )
}

/// The secrets for `n` queries of width `d` that a stream yields, and the stream after them.
pub open spec fn drawn<T>(ops: Ops<T>, s: rng::RngState, n: nat, d: nat) -> (
    Blinding<T>,
    rng::RngState,
) {
    let s1 = gaussian::after_normal_rows(ops, s, n, d);
    let s2 = gaussian::after_normal_rows(ops, s1, d, n);
    let a = drawn_scalar(ops, s2);
    let b = drawn_scalar(ops, a.1);
    let s3 = rng::after_perm(b.1, 2 * n);
    (
        Blinding {
            r_q: gaussian::normal_rows(ops, s, n, d, ops.one()),
            r_kt: gaussian::normal_rows(ops, s1, d, n, ops.one()),
            a: a.0,
            b: b.0,
            lambda_q: rng::drawn_perm(b.1, 2 * n),
            lambda_k: rng::drawn_perm(s3, 2 * n),
        },
        rng::after_perm(s3, 2 * n),
    )
}

/// `[Q + R_Q ; a·R_Q]`, before its rows are reordered.
pub open spec fn blinded_q<T>(ops: Ops<T>, q: Seq<Seq<T>>, bl: Blinding<T>) -> Seq<Seq<T>> {
    matrix::sum(ops, q, bl.r_q) + matrix::scaled(ops, bl.r_q, bl.a)
}

/// `[Kᵀ + R_Kt , b·R_Kt]`, before its columns are reordered.
pub open spec fn blinded_kt<T>(ops: Ops<T>, kt: Seq<Seq<T>>, bl: Blinding<T>) -> Seq<Seq<T>> {
    Seq::new(
        kt.len(),
        |t: int|
            matrix::row_sum(ops, kt[t], bl.r_kt[t]) + matrix::row_scaled(ops, bl.r_kt[t], bl.b),
    )
}

/// What of the queries is handed to the engine.
pub open spec fn stacked_q<T>(ops: Ops<T>, q: Seq<Seq<T>>, bl: Blinding<T>) -> Seq<Seq<T>> {
    matrix::permuted_rows(blinded_q(ops, q, bl), bl.lambda_q)
}

/// What of the transposed keys is handed to the engine.
pub open spec fn stacked_kt<T>(ops: Ops<T>, kt: Seq<Seq<T>>, bl: Blinding<T>) -> Seq<Seq<T>> {
    matrix::permuted_cols(blinded_kt(ops, kt, bl), bl.lambda_k)
}

/// A matrix with the reorderings of its rows and columns undone.
pub open spec fn unpermuted<T>(m: Seq<Seq<T>>, rows: Seq<usize>, cols: Seq<usize>) -> Seq<Seq<T>> {
    matrix::permuted_cols(
        matrix::permuted_rows(m, matrix::inverse(rows)),
        matrix::inverse(cols),
    )
}

/// `T₁ - T₂/b - T₃/a + T₄/(a·b)` of the four blocks of `m`, each of side `n`.
pub open spec fn combined<T>(ops: Ops<T>, m: Seq<Seq<T>>, a: T, b: T, n: nat) -> Seq<Seq<T>> {
    Seq::new(
        n,
        |i: int|
            Seq::new(
                n,
                |j: int|
                    (ops.add)(
                        (ops.sub)(
                            (ops.sub)(m[i][j], (ops.div)(m[i][n + j], b)),
                            (ops.div)(m[n + i][j], a),
                        ),
                        (ops.div)(m[n + i][n + j], (ops.mul)(a, b)),
                    ),
            ),
    )
}

/// The product that is recovered from an answer.
pub open spec fn recovered<T>(ops: Ops<T>, tilde: Seq<Seq<T>>, bl: Blinding<T>, n: nat) -> Seq<
    Seq<T>,
> {
    combined(ops, unpermuted(tilde, bl.lambda_q, bl.lambda_k), bl.a, bl.b, n)
}

/// The secrets of one head.
#[derive(Debug)]
pub struct Blinds<T> {
    r_q: Matrix<T>,
    r_kt: Matrix<T>,
    a: T,
    b: T,
    lambda_q: Vec<usize>,
    lambda_k: Vec<usize>,
}

impl<T> View for Blinds<T> {
    type V = Blinding<T>;

    closed spec fn view(&self) -> Blinding<T> {
        Blinding {
            r_q: self.r_q@,
            r_kt: self.r_kt@,
            a: self.a,
            b: self.b,
            lambda_q: self.lambda_q@,
            lambda_k: self.lambda_k@,
        }
    }
}

/// Draws a scalar of size between one half and three halves, of random sign.
fn sample_scalar<T: Scalar>(rng: &mut MaskRng) -> (r: T)
    ensures
        (r, final(rng)@) == drawn_scalar(T::ops(), old(rng)@),
{
    let lo: T = T::from_int(1).over(T::from_int(2));
    let hi: T = T::from_int(3).over(T::from_int(2));
    let v: T = T::uniform_between(lo, hi, rng);
    if rng.next_u32() & 1 == 0 {
        v
    } else {
        v.negated()
    }
}

impl<T: Scalar> Blinds<T> {
    /// The secrets fit `n` queries of width `d`.
    pub closed spec fn fits(&self, n: nat, d: nat) -> bool {
        &&& self.r_q@.len() == n
        &&& self.r_q.width() == d
        &&& self.r_kt@.len() == d
        &&& self.r_kt.width() == n
        &&& rng::is_permutation(self.lambda_q@, 2 * n)
        &&& rng::is_permutation(self.lambda_k@, 2 * n)
    }

    /// Draws the secrets for `n` queries of width `d`.
    pub fn sample(n: usize, d: usize, rng: &mut MaskRng) -> (r: Blinds<T>)
        requires
            2 * n <= usize::MAX,
        ensures
            (r@, final(rng)@) == drawn(T::ops(), old(rng)@, n as nat, d as nat),
            r@.ordered(n as nat),
            r.fits(n as nat, d as nat),
    {
        let r_q: Matrix<T> = gaussian::sample_normal(n, d, T::from_int(1), rng);
        let r_kt: Matrix<T> = gaussian::sample_normal(d, n, T::from_int(1), rng);
        let a: T = sample_scalar(rng);
        let b: T = sample_scalar(rng);
        let lambda_q: Vec<usize> = rng.permutation(2 * n);
        let lambda_k: Vec<usize> = rng.permutation(2 * n);
        Blinds { r_q, r_kt, a, b, lambda_q, lambda_k }
    }

    /// Blinds and reorders the queries.
    pub fn stack_q(&self, q: &Matrix<T>) -> (r: Matrix<T>)
        requires
            self.fits(q@.len(), q.width()),
            2 * q@.len() <= usize::MAX,
        ensures
            r@ == stacked_q(T::ops(), q@, self@),
            r@.len() == 2 * q@.len(),
            r.width() == q.width(),
    {
        let masked: Matrix<T> = q.plus(&self.r_q);
        let filler: Matrix<T> = self.r_q.scaled_by(self.a);
        masked.stacked_on(&filler).permute_rows(&self.lambda_q)
    }

    /// Blinds and reorders the transposed keys.
    pub fn stack_kt(&self, kt: &Matrix<T>) -> (r: Matrix<T>)
        requires
            self.fits(kt.width(), kt@.len()),
            2 * kt.width() <= usize::MAX,
        ensures
            r@ == stacked_kt(T::ops(), kt@, self@),
            r@.len() == kt@.len(),
            r.width() == 2 * kt.width(),
    {
        let masked: Matrix<T> = kt.plus(&self.r_kt);
        let filler: Matrix<T> = self.r_kt.scaled_by(self.b);
        let both: Matrix<T> = masked.beside(&filler);
        assert(both@ =~= blinded_kt(T::ops(), kt@, self@));
        both.permute_cols(&self.lambda_k)
    }

    /// Recovers the product of `n` queries from an answer.
    pub fn recover(&self, tilde: &Matrix<T>, n: usize, d: usize) -> (r: Matrix<T>)
        requires
            self.fits(n as nat, d as nat),
            2 * n <= usize::MAX,
            tilde@.len() == 2 * n,
            tilde.width() == 2 * n,
        ensures
            r@ == recovered(T::ops(), tilde@, self@, n as nat),
            r@.len() == n,
            r.width() == n,
    {
        let m: Matrix<T> = inverse_permute(tilde, &self.lambda_q, &self.lambda_k);
        let a: T = self.a;
        let b: T = self.b;
        let ab: T = a.times(b);
        let ghost target = combined(T::ops(), m@, a, b, n as nat);
        let mut rows: Vec<Vec<T>> = Vec::new();
        for i in 0..n
            invariant
                2 * n <= usize::MAX,
                m@.len() == 2 * n,
                m.width() == 2 * n,
                ab == (T::ops().mul)(a, b),
                target == combined(T::ops(), m@, a, b, n as nat),
                rows@.len() == i,
                forall|x: int| 0 <= x < i ==> #[trigger] rows@[x]@ == target[x],
                forall|x: int| 0 <= x < i ==> #[trigger] rows@[x]@.len() == n,
        {
            let mut row: Vec<T> = Vec::new();
            for j in 0..n
                invariant
                    i < n,
                    2 * n <= usize::MAX,
                    m@.len() == 2 * n,
                    m.width() == 2 * n,
                    ab == (T::ops().mul)(a, b),
                    target == combined(T::ops(), m@, a, b, n as nat),
                    row@.len() == j,
                    forall|y: int| 0 <= y < j ==> #[trigger] row@[y] == target[i as int][y],
            {
                let t1: T = m.get(i, j);
                let t2: T = m.get(i, n + j);
                let t3: T = m.get(n + i, j);
                let t4: T = m.get(n + i, n + j);
                row.push(t1.minus(t2.over(b)).minus(t3.over(a)).plus(t4.over(ab)));
            }
            assert(row@ =~= target[i as int]);
            rows.push(row);
        }
        let out: Matrix<T> = Matrix::of_rows(rows, n);
        assert(out@ =~= target);
        out
    }
}

/// Undoes the reorderings of rows and columns.
pub fn inverse_permute<T: Scalar>(
    m: &Matrix<T>,
    lambda_rows: &Vec<usize>,
    lambda_cols: &Vec<usize>,
) -> (r: Matrix<T>)
    requires
        rng::is_permutation(lambda_rows@, m@.len()),
        rng::is_permutation(lambda_cols@, m.width()),
    ensures
        r@ == unpermuted(m@, lambda_rows@, lambda_cols@),
        r@.len() == m@.len(),
        r.width() == m.width(),
{
    let inv_rows: Vec<usize> = matrix::invert(lambda_rows);
    let inv_cols: Vec<usize> = matrix::invert(lambda_cols);
    m.permute_rows(&inv_rows).permute_cols(&inv_cols)
}

/// How a run ends, given the engine's answer to the blinded product: a refusal is passed on,
/// a misshapen answer refused, a probed one judged, and the product recovered from the rest.
pub open spec fn concluded<T>(
    ops: Ops<T>,
    answer: Result<Matrix<T>, OffloadError>,
    sq: Seq<Seq<T>>,
    skt: Seq<Seq<T>>,
    bl: Blinding<T>,
    n: nat,
    probes: nat,
    s: rng::RngState,
    r: Result<Matrix<T>, OffloadError>,
    after: rng::RngState,
) -> bool {
    match answer {
        Err(e) => r == Err::<Matrix<T>, OffloadError>(e) && after == s,
        Ok(tilde) => if tilde@.len() != 2 * n || tilde.width() != 2 * n {
            r == Err::<Matrix<T>, OffloadError>(OffloadError::AnswerShape) && after == s
        } else {
            let found = integrity::outcome(ops, probes, sq, skt, tilde@, 2 * n, 0, s);
            &&& after == found.1
            &&& match integrity::verdict(found.0) {
                Err(e) => r == Err::<Matrix<T>, OffloadError>(e),
                Ok(_) => r matches Ok(out) && {
                    &&& out@ == recovered(ops, tilde@, bl, n)
                    &&& out@.len() == n
                    &&& out.width() == n
                },
            }
        },
    }
}

/// What is timed of judging and opening an answer: the probes, where an answer of the right
/// shape is probed, and the recovery, where it is opened.
pub open spec fn concluding_names<T>(
    answer: Result<Matrix<T>, OffloadError>,
    n: nat,
    probes: nat,
    opened: bool,
) -> Seq<Seq<char>> {
    let probed = probes > 0 && (answer matches Ok(t) && t@.len() == 2 * n && t.width() == 2 * n);
    (if probed {
        seq!["uverify:attn_qkt"@]
    } else {
        seq![]
    }) + (if opened {
        seq!["outattn:recover"@]
    } else {
        seq![]
    })
}

/// Judges and opens the engine's answer to a blinded product.
pub fn conclude<T: Scalar>(
    answer: Result<Matrix<T>, OffloadError>,
    sq: &Matrix<T>,
    skt: &Matrix<T>,
    blinds: &Blinds<T>,
    n: usize,
    d: usize,
    probes: usize,
    rng: &mut MaskRng,
    profile: &mut Profile,
) -> (r: Result<Matrix<T>, OffloadError>)
    requires
        blinds.fits(n as nat, d as nat),
        2 * n + d <= usize::MAX,
        sq@.len() == 2 * n,
        sq.width() == d,
        skt@.len() == d,
        skt.width() == 2 * n,
    ensures
        concluded(
            T::ops(),
            answer,
            sq@,
            skt@,
            blinds@,
            n as nat,
            probes as nat,
            old(rng)@,
            r,
            final(rng)@,
        ),
        profile::timed(
            old(profile)@,
            concluding_names(answer, n as nat, probes as nat, r is Ok),
            final(profile)@,
        ),
{
    let ghost start = profile@;
    proof {
        profile::lemma_timed_nothing(start);
    }
    let ghost empty = Seq::<Seq<char>>::empty();
    let tilde: Matrix<T> = match answer {
        Ok(t) => t,
        Err(e) => {
            assert(concluding_names(answer, n as nat, probes as nat, false) =~= empty);
            return Err(e);
        },
    };
    if tilde.nrows() != 2 * n || tilde.ncols() != 2 * n {
        assert(concluding_names(answer, n as nat, probes as nat, false) =~= empty);
        return Err(OffloadError::AnswerShape);
    }
    let watch: Stopwatch = Stopwatch::start();
    let verdict = integrity::verify_offload(probes, sq, skt, &tilde, rng);
    if probes > 0 {
        watch.note(profile, "uverify:attn_qkt");
    }
    let ghost probed = profile@;
    let ghost names = concluding_names(answer, n as nat, probes as nat, false);
    assert(names =~= if probes > 0 {
        seq!["uverify:attn_qkt"@]
    } else {
        empty
    });
    match verdict {
        Ok(_) => {},
        Err(e) => {
            return Err(e);
        },
    }
    let watch: Stopwatch = Stopwatch::start();
    let out: Matrix<T> = blinds.recover(&tilde, n, d);
    watch.note(profile, "outattn:recover");
    proof {
        profile::lemma_timed_then(start, names, probed, seq!["outattn:recover"@], profile@);
        assert(names + seq!["outattn:recover"@] =~= concluding_names(
            answer,
            n as nat,
            probes as nat,
            true,
        ));
    }
    Ok(out)
}

/// The outcome of asking the engine for the product of blinded queries and keys: the stream
/// and the profile before and after, and the result.
pub open spec fn qkt_run<T: Scalar, E: GpuOffloadEngine<T>>(
    engine: &E,
    q: &Matrix<T>,
    kt: &Matrix<T>,
    n_verify_probes: usize,
    s: rng::RngState,
    timings: Seq<profile::Entry>,
    r: Result<Matrix<T>, OffloadError>,
    after: rng::RngState,
    timings_after: Seq<profile::Entry>,
) -> bool {
    if kt@.len() != q.width() || kt.width() != q@.len() {
        &&& r == Err::<Matrix<T>, OffloadError>(
            OffloadError::OutAttnShape {
                q: (q@.len() as usize, q.width() as usize),
                kt: (kt@.len() as usize, kt.width() as usize),
            },
        )
        &&& after == s
        &&& timings_after == timings
    } else {
        let n = q@.len();
        let (bl, mid) = drawn(T::ops(), s, n, q.width());
        exists|x: &Matrix<T>, y: &Matrix<T>, answer: Result<Matrix<T>, OffloadError>|
            {
                &&& #[trigger] substrate::answers_dynamic(engine, x, y, answer)
                &&& bl.ordered(n)
                &&& x@ == stacked_q(T::ops(), q@, bl)
                &&& x@.len() == 2 * n
                &&& x.width() == q.width()
                &&& y@ == stacked_kt(T::ops(), kt@, bl)
                &&& y@.len() == q.width()
                &&& y.width() == 2 * n
                &&& concluded(
                    T::ops(),
                    answer,
                    x@,
                    y@,
                    bl,
                    n,
                    n_verify_probes as nat,
                    mid,
                    r,
                    after,
                )
                &&& profile::timed(
                    timings,
                    seq!["outattn:setup_stack"@, "engine:matmul_dynamic"@] + concluding_names(
                        answer,
                        n,
                        n_verify_probes as nat,
                        r is Ok,
                    ),
                    timings_after,
                )
            }
    }
}

/// `q·kt` through the engine, blinded. Operands that do not fit are refused before anything
/// is drawn.
pub fn offload_qkt<T: Scalar, E: GpuOffloadEngine<T>>(
    engine: &E,
    rng: &mut MaskRng,
    q: &Matrix<T>,
    kt: &Matrix<T>,
    n_verify_probes: usize,
    profile: &mut Profile,
) -> (r: Result<Matrix<T>, OffloadError>)
    requires
        2 * q@.len() + q.width() <= usize::MAX,
    ensures
        qkt_run(
            engine,
            q,
            kt,
            n_verify_probes,
            old(rng)@,
            old(profile)@,
            r,
            final(rng)@,
            final(profile)@,
        ),
{
    let n: usize = q.nrows();
    let d: usize = q.ncols();
    let kt_rows: usize = kt.nrows();
    let kt_cols: usize = kt.ncols();
    if kt_rows != d || kt_cols != n {
        return Err(OffloadError::OutAttnShape { q: (n, d), kt: (kt_rows, kt_cols) });
    }
    let ghost start = profile@;
    let watch: Stopwatch = Stopwatch::start();
    let blinds: Blinds<T> = Blinds::sample(n, d, rng);
    let sq: Matrix<T> = blinds.stack_q(q);
    let skt: Matrix<T> = blinds.stack_kt(kt);
    watch.note(profile, "outattn:setup_stack");
    let ghost stacked = profile@;
    let watch: Stopwatch = Stopwatch::start();
    let answer = engine.matmul_dynamic(&sq, &skt);
    watch.note(profile, "engine:matmul_dynamic");
    assert(substrate::answers_dynamic(engine, &sq, &skt, answer));
    let ghost asked = profile@;
    let ghost given = answer;
    let r = conclude(answer, &sq, &skt, &blinds, n, d, n_verify_probes, rng, profile);
    proof {
        let names = seq!["outattn:setup_stack"@, "engine:matmul_dynamic"@];
        profile::lemma_timed_then(
            start,
            seq!["outattn:setup_stack"@],
            stacked,
            seq!["engine:matmul_dynamic"@],
            asked,
        );
        assert(seq!["outattn:setup_stack"@] + seq!["engine:matmul_dynamic"@] =~= names);
        profile::lemma_timed_then(
            start,
            names,
            asked,
            concluding_names(given, n as nat, n_verify_probes as nat, r is Ok),
            profile@,
        );
    }
    r
}

/// The stream after the secrets of `h` heads have been drawn from it.
pub open spec fn after_heads<T>(ops: Ops<T>, s: rng::RngState, h: nat, n: nat, d: nat) -> rng::RngState
    decreases h,
{
    if h == 0 {
        s
    } else {
        drawn(ops, after_heads(ops, s, (h - 1) as nat, n, d), n, d).1
    }
}

/// The secrets of head `h`.
pub open spec fn head_blinding<T>(ops: Ops<T>, s: rng::RngState, h: nat, n: nat, d: nat) -> Blinding<
    T,
> {
    drawn(ops, after_heads(ops, s, h, n, d), n, d).0
}

/// What of the queries of all heads is handed to the engine.
pub open spec fn stacked_q_heads<T>(
    ops: Ops<T>,
    s: rng::RngState,
    q: Seq<Seq<Seq<T>>>,
    n: nat,
    d: nat,
) -> Seq<Seq<Seq<T>>> {
    Seq::new(q.len(), |h: int| stacked_q(ops, q[h], head_blinding(ops, s, h as nat, n, d)))
}

/// What of the transposed keys of all heads is handed to the engine.
pub open spec fn stacked_kt_heads<T>(
    ops: Ops<T>,
    s: rng::RngState,
    kt: Seq<Seq<Seq<T>>>,
    n: nat,
    d: nat,
) -> Seq<Seq<Seq<T>>> {
    Seq::new(kt.len(), |h: int| stacked_kt(ops, kt[h], head_blinding(ops, s, h as nat, n, d)))
}

/// Outcome of probing the answers of all heads from `h` on, head by head.
pub open spec fn outcome_heads<T>(
    ops: Ops<T>,
    probes: nat,
    sq: Seq<Seq<Seq<T>>>,
    skt: Seq<Seq<Seq<T>>>,
    tilde: Seq<Seq<Seq<T>>>,
    cols: nat,
    h: nat,
    s: rng::RngState,
) -> (Option<(nat, nat)>, rng::RngState)
    decreases sq.len() - h,
{
    if h >= sq.len() {
        (None, s)
    } else {
        let found = integrity::outcome(
            ops,
            probes,
            sq[h as int],
            skt[h as int],
            tilde[h as int],
            cols,
            0,
            s,
        );
        if found.0 is Some {
            found
        } else {
            outcome_heads(ops, probes, sq, skt, tilde, cols, h + 1, found.1)
        }
    }
}

/// The secrets of all heads.
pub open spec fn blindings<T>(ops: Ops<T>, s: rng::RngState, heads: nat, n: nat, d: nat) -> Seq<
    Blinding<T>,
> {
    Seq::new(heads, |h: int| head_blinding(ops, s, h as nat, n, d))
}

/// The secrets of every head order `2n` rows and columns.
pub open spec fn all_ordered<T>(bls: Seq<Blinding<T>>, n: nat) -> bool {
    forall|h: int| 0 <= h < bls.len() ==> (#[trigger] bls[h]).ordered(n)
}

/// An answer that covers `heads` heads of `2n` rows and columns. Heads beyond them are not
/// looked at, and where there are none nothing is.
pub open spec fn covers<T>(tilde: Tensor3<T>, heads: nat, n: nat) -> bool {
    heads == 0 || (tilde@.len() >= heads && tilde.height() == 2 * n && tilde.width() == 2 * n)
}

/// How a run over all heads ends, given the engine's answer: as for one head, with the
/// answers probed head by head.
pub open spec fn concluded_heads<T>(
    ops: Ops<T>,
    answer: Result<Tensor3<T>, OffloadError>,
    sq: Seq<Seq<Seq<T>>>,
    skt: Seq<Seq<Seq<T>>>,
    bls: Seq<Blinding<T>>,
    n: nat,
    probes: nat,
    s: rng::RngState,
    r: Result<Tensor3<T>, OffloadError>,
    after: rng::RngState,
) -> bool {
    match answer {
        Err(e) => r == Err::<Tensor3<T>, OffloadError>(e) && after == s,
        Ok(tilde) => if !covers(tilde, sq.len(), n) {
            r == Err::<Tensor3<T>, OffloadError>(OffloadError::AnswerShape) && after == s
        } else {
            let found = outcome_heads(ops, probes, sq, skt, tilde@, 2 * n, 0, s);
            &&& after == found.1
            &&& match integrity::verdict(found.0) {
                Err(e) => r == Err::<Tensor3<T>, OffloadError>(e),
                Ok(_) => r matches Ok(out) && {
                    &&& out@ == Seq::new(
                        sq.len(),
                        |h: int| recovered(ops, tilde@[h], bls[h], n),
                    )
                    &&& out.height() == n
                    &&& out.width() == n
                },
            }
        },
    }
}

/// What a list of secrets holds.
pub open spec fn blindings_of<T>(blinds: Seq<Blinds<T>>) -> Seq<Blinding<T>> {
    Seq::new(blinds.len(), |h: int| blinds[h]@)
}

/// Probes the answers of all heads, head by head.
fn verify_heads<T: Scalar>(
    probes: usize,
    sq: &Tensor3<T>,
    skt: &Tensor3<T>,
    tilde: &Tensor3<T>,
    rng: &mut MaskRng,
) -> (r: Result<(), OffloadError>)
    requires
        sq@.len() == skt@.len(),
        sq.width() == skt.height(),
        sq@.len() > 0 ==> {
            &&& tilde@.len() >= sq@.len()
            &&& tilde.height() == sq.height()
            &&& tilde.width() == skt.width()
        },
        skt.height() + skt.width() <= usize::MAX,
    ensures
        ({
            let found = outcome_heads(
                T::ops(),
                probes as nat,
                sq@,
                skt@,
                tilde@,
                skt.width(),
                0,
                old(rng)@,
            );
            &&& r == integrity::verdict(found.0)
            &&& final(rng)@ == found.1
        }),
{
    let (heads, _, _) = sq.dim();
    let (_, _, cols) = skt.dim();
    for h in 0..heads
        invariant
            heads == sq@.len(),
            cols == skt.width(),
            sq@.len() == skt@.len(),
            sq.width() == skt.height(),
            sq@.len() > 0 ==> {
                &&& tilde@.len() >= sq@.len()
                &&& tilde.height() == sq.height()
                &&& tilde.width() == skt.width()
            },
            skt.height() + skt.width() <= usize::MAX,
            outcome_heads(
                T::ops(),
                probes as nat,
                sq@,
                skt@,
                tilde@,
                cols as nat,
                0,
                old(rng)@,
            ) == outcome_heads(
                T::ops(),
                probes as nat,
                sq@,
                skt@,
                tilde@,
                cols as nat,
                h as nat,
                rng@,
            ),
    {
        match integrity::verify_offload(probes, sq.head(h), skt.head(h), tilde.head(h), rng) {
            Ok(_) => {},
            Err(e) => {
                return Err(e);
            },
        }
    }
    Ok(())
}

/// The blinded stacks of all heads, with their secrets.
fn stack_heads<T: Scalar>(q: &Tensor3<T>, kt: &Tensor3<T>, rng: &mut MaskRng) -> (r: (
    Tensor3<T>,
    Tensor3<T>,
    Vec<Blinds<T>>,
))
    requires
        2 * q.height() <= usize::MAX,
        kt@.len() == q@.len(),
        kt.height() == q.width(),
        kt.width() == q.height(),
    ensures
        r.0@ == stacked_q_heads(T::ops(), old(rng)@, q@, q.height(), q.width()),
        r.0.height() == 2 * q.height(),
        r.0.width() == q.width(),
        r.1@ == stacked_kt_heads(T::ops(), old(rng)@, kt@, q.height(), q.width()),
        r.1.height() == q.width(),
        r.1.width() == 2 * q.height(),
        r.2@.len() == q@.len(),
        blindings_of(r.2@) == blindings(T::ops(), old(rng)@, q@.len(), q.height(), q.width()),
        forall|h: int| 0 <= h < r.2@.len() ==> (#[trigger] r.2@[h]).fits(q.height(), q.width()),
        forall|h: int| 0 <= h < r.2@.len() ==> (#[trigger] r.2@[h])@.ordered(q.height()),
        final(rng)@ == after_heads(T::ops(), old(rng)@, q@.len(), q.height(), q.width()),
{
    let ghost start = rng@;
    let (heads, n, d) = q.dim();
    let ghost tq = stacked_q_heads(T::ops(), start, q@, n as nat, d as nat);
    let ghost tk = stacked_kt_heads(T::ops(), start, kt@, n as nat, d as nat);
    let mut sqs: Vec<Matrix<T>> = Vec::new();
    let mut skts: Vec<Matrix<T>> = Vec::new();
    let mut blinds: Vec<Blinds<T>> = Vec::new();
    for h in 0..heads
        invariant
            heads == q@.len(),
            n == q.height(),
            d == q.width(),
            2 * n <= usize::MAX,
            kt@.len() == q@.len(),
            kt.height() == d,
            kt.width() == n,
            rng@ == after_heads(T::ops(), start, h as nat, n as nat, d as nat),
            tq == stacked_q_heads(T::ops(), start, q@, n as nat, d as nat),
            tk == stacked_kt_heads(T::ops(), start, kt@, n as nat, d as nat),
            sqs@.len() == h,
            skts@.len() == h,
            blinds@.len() == h,
            forall|g: int|
                0 <= g < h ==> (#[trigger] blinds@[g])@ == head_blinding(
                    T::ops(),
                    start,
                    g as nat,
                    n as nat,
                    d as nat,
                ) && blinds@[g].fits(n as nat, d as nat) && blinds@[g]@.ordered(n as nat),
            forall|g: int| 0 <= g < h ==> (#[trigger] sqs@[g])@ == tq[g],
            forall|g: int|
                0 <= g < h ==> (#[trigger] sqs@[g])@.len() == 2 * n && sqs@[g].width() == d,
            forall|g: int| 0 <= g < h ==> (#[trigger] skts@[g])@ == tk[g],
            forall|g: int|
                0 <= g < h ==> (#[trigger] skts@[g])@.len() == d && skts@[g].width() == 2 * n,
    {
        let b: Blinds<T> = Blinds::sample(n, d, rng);
        let sq: Matrix<T> = b.stack_q(q.head(h));
        let skt: Matrix<T> = b.stack_kt(kt.head(h));
        sqs.push(sq);
        skts.push(skt);
        blinds.push(b);
    }
    let a: Tensor3<T> = Tensor3::of_heads(sqs, 2 * n, d);
    let b: Tensor3<T> = Tensor3::of_heads(skts, d, 2 * n);
    assert(a@ =~= tq);
    assert(b@ =~= tk);
    assert(blindings_of(blinds@) =~= blindings(T::ops(), start, q@.len(), n as nat, d as nat));
    (a, b, blinds)
}

/// What is timed of judging and opening an answer for all heads: the probes, where an answer
/// that covers the heads is probed, and the recovery, where it is opened.
pub open spec fn concluding_heads_names<T>(
    answer: Result<Tensor3<T>, OffloadError>,
    heads: nat,
    n: nat,
    probes: nat,
    opened: bool,
) -> Seq<Seq<char>> {
    (if probes > 0 && (answer matches Ok(t) && covers(t, heads, n)) {
        seq!["uverify:attn_qkt_batched"@]
    } else {
        seq![]
    }) + (if opened {
        seq!["outattn:recover_batched"@]
    } else {
        seq![]
    })
}

/// Judges and opens the engine's answer to the blinded products of all heads.
pub fn conclude_heads<T: Scalar>(
    answer: Result<Tensor3<T>, OffloadError>,
    sq: &Tensor3<T>,
    skt: &Tensor3<T>,
    blinds: &Vec<Blinds<T>>,
    n: usize,
    d: usize,
    probes: usize,
    rng: &mut MaskRng,
    profile: &mut Profile,
) -> (r: Result<Tensor3<T>, OffloadError>)
    requires
        2 * n + d <= usize::MAX,
        blinds@.len() == sq@.len(),
        forall|h: int| 0 <= h < blinds@.len() ==> (#[trigger] blinds@[h]).fits(n as nat, d as nat),
        sq.height() == 2 * n,
        sq.width() == d,
        skt@.len() == sq@.len(),
        skt.height() == d,
        skt.width() == 2 * n,
    ensures
        concluded_heads(
            T::ops(),
            answer,
            sq@,
            skt@,
            blindings_of(blinds@),
            n as nat,
            probes as nat,
            old(rng)@,
            r,
            final(rng)@,
        ),
        profile::timed(
            old(profile)@,
            concluding_heads_names(answer, sq@.len(), n as nat, probes as nat, r is Ok),
            final(profile)@,
        ),
{
    let ghost start = profile@;
    proof {
        profile::lemma_timed_nothing(start);
    }
    let ghost empty = Seq::<Seq<char>>::empty();
    let ghost names = concluding_heads_names(answer, sq@.len(), n as nat, probes as nat, false);
    let tilde: Tensor3<T> = match answer {
        Ok(t) => t,
        Err(e) => {
            assert(names =~= empty);
            return Err(e);
        },
    };
    let (heads, _, _) = sq.dim();
    let (t_heads, t_rows, t_cols) = tilde.dim();
    if heads > 0 && (t_heads < heads || t_rows != 2 * n || t_cols != 2 * n) {
        assert(names =~= empty);
        return Err(OffloadError::AnswerShape);
    }
    let watch: Stopwatch = Stopwatch::start();
    let verdict = verify_heads(probes, sq, skt, &tilde, rng);
    if probes > 0 {
        watch.note(profile, "uverify:attn_qkt_batched");
    }
    let ghost probed = profile@;
    assert(names =~= if probes > 0 {
        seq!["uverify:attn_qkt_batched"@]
    } else {
        empty
    });
    match verdict {
        Ok(_) => {},
        Err(e) => {
            return Err(e);
        },
    }
    let ghost bls = blindings_of(blinds@);
    let watch: Stopwatch = Stopwatch::start();
    let mut outs: Vec<Matrix<T>> = Vec::new();
    for h in 0..heads
        invariant
            2 * n + d <= usize::MAX,
            heads == blinds@.len(),
            covers(tilde, heads as nat, n as nat),
            forall|h: int|
                0 <= h < blinds@.len() ==> (#[trigger] blinds@[h]).fits(n as nat, d as nat),
            bls == blindings_of(blinds@),
            outs@.len() == h,
            forall|g: int|
                0 <= g < h ==> (#[trigger] outs@[g])@ == recovered(
                    T::ops(),
                    tilde@[g],
                    bls[g],
                    n as nat,
                ),
            forall|g: int|
                0 <= g < h ==> (#[trigger] outs@[g])@.len() == n && outs@[g].width() == n,
    {
        let out: Matrix<T> = blinds[h].recover(tilde.head(h), n, d);
        outs.push(out);
    }
    let out: Tensor3<T> = Tensor3::of_heads(outs, n, n);
    assert(out@ =~= Seq::new(
        sq@.len(),
        |h: int| recovered(T::ops(), tilde@[h], bls[h], n as nat),
    ));
    watch.note(profile, "outattn:recover_batched");
    proof {
        let last = seq!["outattn:recover_batched"@];
        profile::lemma_timed_then(start, names, probed, last, profile@);
        assert(names + last =~= concluding_heads_names(
            answer,
            sq@.len(),
            n as nat,
            probes as nat,
            true,
        ));
    }
    Ok(out)
}

/// The outcome of asking the engine for the products of every head: the stream and the profile
/// before and after, and the result.
pub open spec fn qkt_run_batched<T: Scalar, E: GpuOffloadEngine<T>>(
    engine: &E,
    q: &Tensor3<T>,
    kt: &Tensor3<T>,
    n_verify_probes: usize,
    s: rng::RngState,
    timings: Seq<profile::Entry>,
    r: Result<Tensor3<T>, OffloadError>,
    after: rng::RngState,
    timings_after: Seq<profile::Entry>,
) -> bool {
    if kt@.len() != q@.len() || kt.height() != q.width() || kt.width() != q.height() {
        &&& r == Err::<Tensor3<T>, OffloadError>(
            OffloadError::OutAttnBatchedShape {
                q: (q@.len() as usize, q.height() as usize, q.width() as usize),
                kt: (kt@.len() as usize, kt.height() as usize, kt.width() as usize),
            },
        )
        &&& after == s
        &&& timings_after == timings
    } else {
        let n = q.height();
        let d = q.width();
        exists|x: &Tensor3<T>, y: &Tensor3<T>, answer: Result<Tensor3<T>, OffloadError>|
            {
                &&& #[trigger] substrate::answers_batched(engine, x, y, answer)
                &&& all_ordered(blindings(T::ops(), s, q@.len(), n, d), n)
                &&& x@ == stacked_q_heads(T::ops(), s, q@, n, d)
                &&& x.height() == 2 * n
                &&& x.width() == d
                &&& y@ == stacked_kt_heads(T::ops(), s, kt@, n, d)
                &&& y.height() == d
                &&& y.width() == 2 * n
                &&& concluded_heads(
                    T::ops(),
                    answer,
                    x@,
                    y@,
                    blindings(T::ops(), s, q@.len(), n, d),
                    n,
                    n_verify_probes as nat,
                    after_heads(T::ops(), s, q@.len(), n, d),
                    r,
                    after,
                )
                &&& profile::timed(
                    timings,
                    seq!["outattn:setup_stack_batched"@, "engine:matmul_dynamic_batched"@]
                        + concluding_heads_names(
                        answer,
                        q@.len(),
                        n,
                        n_verify_probes as nat,
                        r is Ok,
                    ),
                    timings_after,
                )
            }
    }
}

/// `q·kt` of every head through one call of the engine, each head blinded by secrets of its
/// own. Operands that do not fit are refused before anything is drawn.
pub fn offload_qkt_batched<T: Scalar, E: GpuOffloadEngine<T>>(
    engine: &E,
    rng: &mut MaskRng,
    q: &Tensor3<T>,
    kt: &Tensor3<T>,
    n_verify_probes: usize,
    profile: &mut Profile,
) -> (r: Result<Tensor3<T>, OffloadError>)
    requires
        2 * q.height() + q.width() <= usize::MAX,
    ensures
        qkt_run_batched(
            engine,
            q,
            kt,
            n_verify_probes,
            old(rng)@,
            old(profile)@,
            r,
            final(rng)@,
            final(profile)@,
        ),
{
    let q_dim: (usize, usize, usize) = q.dim();
    let kt_dim: (usize, usize, usize) = kt.dim();
    let (heads, n, d) = q_dim;
    if kt_dim.0 != heads || kt_dim.1 != d || kt_dim.2 != n {
        return Err(OffloadError::OutAttnBatchedShape { q: q_dim, kt: kt_dim });
    }
    let ghost start = rng@;
    let ghost timings = profile@;
    let watch: Stopwatch = Stopwatch::start();
    let (sq, skt, blinds) = stack_heads(q, kt, rng);
    watch.note(profile, "outattn:setup_stack_batched");
    let ghost stacked = profile@;
    assert forall|h: int| 0 <= h < heads implies (#[trigger] blindings(
        T::ops(),
        start,
        heads as nat,
        n as nat,
        d as nat,
    )[h]).ordered(n as nat) by {
        assert(blindings_of(blinds@)[h] == blinds@[h]@);
    }
    let watch: Stopwatch = Stopwatch::start();
    let answer = engine.matmul_dynamic_batched(&sq, &skt);
    watch.note(profile, "engine:matmul_dynamic_batched");
    assert(substrate::answers_batched(engine, &sq, &skt, answer));
    let ghost asked = profile@;
    let ghost given = answer;
    let r = conclude_heads(answer, &sq, &skt, &blinds, n, d, n_verify_probes, rng, profile);
    proof {
        let names = seq!["outattn:setup_stack_batched"@, "engine:matmul_dynamic_batched"@];
        profile::lemma_timed_then(
            timings,
            seq!["outattn:setup_stack_batched"@],
            stacked,
            seq!["engine:matmul_dynamic_batched"@],
            asked,
        );
        assert(seq!["outattn:setup_stack_batched"@] + seq!["engine:matmul_dynamic_batched"@]
            =~= names);
        profile::lemma_timed_then(
            timings,
            names,
            asked,
            concluding_heads_names(
                given,
                heads as nat,
                n as nat,
                n_verify_probes as nat,
                r is Ok,
            ),
            profile@,
        );
    }
    r
}

} // verus!
