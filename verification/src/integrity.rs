//! Probing the engine's answers.
//!
//! A product `lhs·rhs = observed` is checked without computing it again: for a random
//! vector `r`, `lhs·(rhs·r)` is compared with `observed·r`. The entries of `r` are drawn
//! from the six numbers `±1, ±2, ±3`.

use vstd::prelude::*;

use crate::error::OffloadError;
use crate::matrix;
use crate::matrix::Matrix;
use crate::rng;
use crate::rng::MaskRng;
use crate::scalar::{Ops, Scalar};
use crate::soundness;

verus! {

/// The probe entry that a word stands for.
pub open spec fn probe_entry(w: u32) -> int {
    let m = w as int % 6;
    if m < 3 {
        m - 3
    } else {
        m - 2
    }
}

/// The probe vector of length `n` that a stream yields.
pub open spec fn probe_vector<T>(ops: Ops<T>, s: rng::RngState, n: nat) -> Seq<T> {
    Seq::new(n, |j: int| (ops.from_int)(probe_entry(rng::word_at(s, j as nat))))
}

/// Matrix times vector.
pub open spec fn image<T>(ops: Ops<T>, m: Seq<Seq<T>>, r: Seq<T>) -> Seq<T> {
    Seq::new(m.len(), |i: int| matrix::dot(ops, m[i], r, r.len()))
}

/// Sizes of the entries of a row.
pub open spec fn sizes<T>(ops: Ops<T>, row: Seq<T>) -> Seq<T> {
    Seq::new(row.len(), |j: int| ops.abs(row[j]))
}

/// Matrix of sizes times vector.
pub open spec fn size_image<T>(ops: Ops<T>, m: Seq<Seq<T>>, r: Seq<T>) -> Seq<T> {
    Seq::new(m.len(), |i: int| matrix::dot(ops, sizes(ops, m[i]), r, r.len()))
}

/// Row `i` of the answer passes the probe `r`.
pub open spec fn passes<T>(
    ops: Ops<T>,
    lhs: Seq<Seq<T>>,
    rhs: Seq<Seq<T>>,
    observed: Seq<Seq<T>>,
    r: Seq<T>,
    i: int,
) -> bool {
    (ops.close)(
        image(ops, lhs, image(ops, rhs, r))[i],
        image(ops, observed, r)[i],
        size_image(ops, lhs, size_image(ops, rhs, sizes(ops, r)))[i],
        rhs.len() + r.len(),
    )
}

/// The first row from `i` on that fails the probe `r`, or the number of rows.
pub open spec fn first_failing<T>(
    ops: Ops<T>,
    lhs: Seq<Seq<T>>,
    rhs: Seq<Seq<T>>,
    observed: Seq<Seq<T>>,
    r: Seq<T>,
    i: int,
) -> int
    decreases lhs.len() - i,
{
    if i >= lhs.len() {
        lhs.len() as int
    } else if !passes(ops, lhs, rhs, observed, r, i) {
        i
    } else {
        first_failing(ops, lhs, rhs, observed, r, i + 1)
    }
}

/// Outcome of the probes from number `p` on: the first failing probe and row, if any, and
/// the stream afterwards.
pub open spec fn outcome<T>(
    ops: Ops<T>,
    probes: nat,
    lhs: Seq<Seq<T>>,
    rhs: Seq<Seq<T>>,
    observed: Seq<Seq<T>>,
    cols: nat,
    p: nat,
    s: rng::RngState,
) -> (Option<(nat, nat)>, rng::RngState)
    decreases probes - p,
{
    if p >= probes {
        (None, s)
    } else {
        let i = first_failing(ops, lhs, rhs, observed, probe_vector(ops, s, cols), 0);
        if i < lhs.len() {
            (Some((p, i as nat)), rng::skip(s, cols))
        } else {
            outcome(ops, probes, lhs, rhs, observed, cols, p + 1, rng::skip(s, cols))
        }
    }
}

/// What [`verify_offload`] says to an outcome.
pub open spec fn verdict(found: Option<(nat, nat)>) -> Result<(), OffloadError> {
    match found {
        None => Ok(()),
        Some((probe, row)) => Err(
            OffloadError::Tampered { probe: probe as usize, row: row as usize },
        ),
    }
}

fn sample_probe<T: Scalar>(n: usize, rng: &mut MaskRng) -> (r: Vec<T>)
    ensures
        r@ == probe_vector(T::ops(), old(rng)@, n as nat),
        final(rng)@ == rng::skip(old(rng)@, n as nat),
{
    let ghost start = rng@;
    let mut out: Vec<T> = Vec::new();
    for j in 0..n
        invariant
            rng@ == rng::skip(start, j as nat),
            out@.len() == j,
            forall|b: int| 0 <= b < j ==> #[trigger] out@[b] == (T::ops().from_int)(
                probe_entry(rng::word_at(start, b as nat)),
            ),
    {
        let w: u32 = rng.next_u32();
        proof {
            rng::lemma_skip(start, j as nat, 1);
        }
        let m: i64 = (w % 6) as i64;
        let entry: i64 = if m < 3 {
            m - 3
        } else {
            m - 2
        };
        out.push(T::from_int(entry));
    }
    assert(out@ =~= probe_vector(T::ops(), start, n as nat));
    out
}

/// Matrix times vector; of sizes where asked for.
fn apply<T: Scalar>(m: &Matrix<T>, r: &Vec<T>, by_size: bool) -> (out: Vec<T>)
    requires
        m.width() == r@.len(),
    ensures
        out@ == (if by_size {
            size_image(T::ops(), m@, r@)
        } else {
            image(T::ops(), m@, r@)
        }),
        out@.len() == m@.len(),
{
    let n: usize = m.nrows();
    let w: usize = m.ncols();
    let mut out: Vec<T> = Vec::new();
    for i in 0..n
        invariant
            n == m@.len(),
            w == m.width(),
            matrix::is_grid(m@, m@.len(), m.width()),
            w == r@.len(),
            out@.len() == i,
            forall|a: int| 0 <= a < i ==> #[trigger] out@[a] == (if by_size {
                size_image(T::ops(), m@, r@)[a]
            } else {
                image(T::ops(), m@, r@)[a]
            }),
    {
        let mut acc: T = T::from_int(0);
        for j in 0..w
            invariant
                i < m@.len(),
                w == m.width(),
                matrix::is_grid(m@, m@.len(), m.width()),
                w == r@.len(),
                acc == (if by_size {
                    matrix::dot(T::ops(), sizes(T::ops(), m@[i as int]), r@, j as nat)
                } else {
                    matrix::dot(T::ops(), m@[i as int], r@, j as nat)
                }),
        {
            let x: T = m.get(i, j);
            let y: T = if by_size {
                x.larger(x.negated())
            } else {
                x
            };
            acc = acc.plus(y.times(r[j]));
        }
        out.push(acc);
    }
    assert(out@ =~= if by_size {
        size_image(T::ops(), m@, r@)
    } else {
        image(T::ops(), m@, r@)
    });
    out
}

fn sizes_of<T: Scalar>(row: &Vec<T>) -> (r: Vec<T>)
    ensures
        r@ == sizes(T::ops(), row@),
{
    let mut out: Vec<T> = Vec::new();
    for j in 0..row.len()
        invariant
            out@.len() == j,
            forall|b: int| 0 <= b < j ==> #[trigger] out@[b] == T::ops().abs(row@[b]),
    {
        out.push(row[j].larger(row[j].negated()));
    }
    assert(out@ =~= sizes(T::ops(), row@));
    out
}

/// Probes `observed` as the product of `lhs` and `rhs`, and reports the first row that
/// fails the first failing probe.
pub fn verify_offload<T: Scalar>(
    probes: usize,
    lhs: &Matrix<T>,
    rhs: &Matrix<T>,
    observed: &Matrix<T>,
    rng: &mut MaskRng,
) -> (r: Result<(), OffloadError>)
    requires
        lhs.width() == rhs@.len(),
        observed@.len() == lhs@.len(),
        observed.width() == rhs.width(),
        rhs@.len() + rhs.width() <= usize::MAX,
    ensures
        ({
            let found = outcome(
                T::ops(),
                probes as nat,
                lhs@,
                rhs@,
                observed@,
                rhs.width(),
                0,
                old(rng)@,
            );
            &&& r == verdict(found.0)
            &&& final(rng)@ == found.1
        }),
        r is Ok <==> (forall|a: int|
            0 <= a < probes ==> #[trigger] soundness::all_pass(
                T::ops(),
                lhs@,
                rhs@,
                observed@,
                rhs.width(),
                old(rng)@,
                a,
            )),
{
    let rows: usize = lhs.nrows();
    let inner: usize = rhs.nrows();
    let cols: usize = rhs.ncols();
    let ghost goal = outcome(
        T::ops(),
        probes as nat,
        lhs@,
        rhs@,
        observed@,
        cols as nat,
        0,
        rng@,
    );
    for p in 0..probes
        invariant
            lhs.width() == rhs@.len(),
            observed@.len() == lhs@.len(),
            observed.width() == rhs.width(),
            rhs@.len() + rhs.width() <= usize::MAX,
            rows == lhs@.len(),
            inner == rhs@.len(),
            cols == rhs.width(),
            goal == outcome(
                T::ops(),
                probes as nat,
                lhs@,
                rhs@,
                observed@,
                cols as nat,
                0,
                old(rng)@,
            ),
            goal == outcome(
                T::ops(),
                probes as nat,
                lhs@,
                rhs@,
                observed@,
                cols as nat,
                p as nat,
                rng@,
            ),
    {
        let probe: Vec<T> = sample_probe(cols, rng);
        let expected: Vec<T> = apply(lhs, &apply(rhs, &probe, false), false);
        let seen: Vec<T> = apply(observed, &probe, false);
        let size: Vec<T> = apply(lhs, &apply(rhs, &sizes_of(&probe), true), true);
        for i in 0..rows
            invariant
                rows == lhs@.len(),
                inner == rhs@.len(),
                cols == rhs.width(),
                probe@.len() == cols,
                inner + cols <= usize::MAX,
                expected@ == image(T::ops(), lhs@, image(T::ops(), rhs@, probe@)),
                seen@ == image(T::ops(), observed@, probe@),
                size@ == size_image(
                    T::ops(),
                    lhs@,
                    size_image(T::ops(), rhs@, sizes(T::ops(), probe@)),
                ),
                expected@.len() == rows,
                seen@.len() == rows,
                size@.len() == rows,
                first_failing(T::ops(), lhs@, rhs@, observed@, probe@, 0) == first_failing(
                    T::ops(),
                    lhs@,
                    rhs@,
                    observed@,
                    probe@,
                    i as int,
                ),
                goal == outcome(
                    T::ops(),
                    probes as nat,
                    lhs@,
                    rhs@,
                    observed@,
                    cols as nat,
                    0,
                    old(rng)@,
                ),
                goal == (if first_failing(T::ops(), lhs@, rhs@, observed@, probe@, 0)
                    < lhs@.len() {
                    (
                        Some(
                            (
                                p as nat,
                                first_failing(T::ops(), lhs@, rhs@, observed@, probe@, 0) as nat,
                            ),
                        ),
                        rng@,
                    )
                } else {
                    outcome(
                        T::ops(),
                        probes as nat,
                        lhs@,
                        rhs@,
                        observed@,
                        cols as nat,
                        (p + 1) as nat,
                        rng@,
                    )
                }),
        {
            if !expected[i].agrees_with(seen[i], size[i], inner + cols) {
                proof {
                    soundness::law_acceptance_means_all_pass(
                        T::ops(),
                        probes as nat,
                        lhs@,
                        rhs@,
                        observed@,
                        rhs.width(),
                        old(rng)@,
                    );
                }
                return Err(OffloadError::Tampered { probe: p, row: i });
            }
        }
    }
    proof {
        soundness::law_acceptance_means_all_pass(
            T::ops(),
            probes as nat,
            lhs@,
            rhs@,
            observed@,
            rhs.width(),
            old(rng)@,
        );
    }
    Ok(())
}

} // verus!
