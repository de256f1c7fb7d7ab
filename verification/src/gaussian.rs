//! Gaussian noise drawn from a mask stream.

use vstd::prelude::*;

use crate::matrix;
use crate::matrix::Matrix;
use crate::rng;
use crate::rng::MaskRng;
use crate::scalar::{Ops, Scalar};

verus! {

/// The stream after `k` standard normal values.
pub open spec fn after_normals<T>(ops: Ops<T>, s: rng::RngState, k: nat) -> rng::RngState
    decreases k,
{
    if k == 0 {
        s
    } else {
        (ops.normal)(after_normals(ops, s, (k - 1) as nat)).1
    }
}

/// The next `k` standard normal values of a stream, each times `sigma`.
pub open spec fn normals<T>(ops: Ops<T>, s: rng::RngState, k: nat, sigma: T) -> Seq<T> {
    Seq::new(k, |i: int| (ops.mul)((ops.normal)(after_normals(ops, s, i as nat)).0, sigma))
}

/// The stream after `rows` rows of `cols` standard normal values.
pub open spec fn after_normal_rows<T>(
    ops: Ops<T>,
    s: rng::RngState,
    rows: nat,
    cols: nat,
) -> rng::RngState
    decreases rows,
{
    if rows == 0 {
        s
    } else {
        after_normals(ops, after_normal_rows(ops, s, (rows - 1) as nat, cols), cols)
    }
}

/// Rows of standard normal values, drawn row by row, each times `sigma`.
pub open spec fn normal_rows<T>(
    ops: Ops<T>,
    s: rng::RngState,
    rows: nat,
    cols: nat,
    sigma: T,
) -> Seq<Seq<T>> {
    Seq::new(rows, |i: int| normals(ops, after_normal_rows(ops, s, i as nat, cols), cols, sigma))
}

/// Reading on is reading more.
pub proof fn lemma_after_normals<T>(ops: Ops<T>, s: rng::RngState, a: nat, b: nat)
    ensures
        after_normals(ops, after_normals(ops, s, a), b) == after_normals(ops, s, a + b),
    decreases b,
{
    if b > 0 {
        lemma_after_normals(ops, s, a, (b - 1) as nat);
    }
}

/// The rows use up one draw for every entry.
pub proof fn lemma_after_normal_rows<T>(ops: Ops<T>, s: rng::RngState, rows: nat, cols: nat)
    ensures
        after_normal_rows(ops, s, rows, cols) == after_normals(ops, s, rows * cols),
    decreases rows,
{
    if rows > 0 {
        let k = (rows - 1) as nat;
        lemma_after_normal_rows(ops, s, k, cols);
        lemma_after_normals(ops, s, k * cols, cols);
        assert(k * cols + cols == rows * cols) by (nonlinear_arith)
            requires
                k == rows - 1,
        ;
    } else {
        assert(rows * cols == 0) by (nonlinear_arith)
            requires
                rows == 0,
        ;
    }
}

/// Draw number `t` of a stream of standard normal values.
pub open spec fn draw<T>(ops: Ops<T>, s: rng::RngState, t: nat) -> T {
    (ops.normal)(after_normals(ops, s, t)).0
}

/// Every entry is a draw of its own: the entry in row `i` and column `j` is the one after `i`
/// full rows and `j` entries.
pub proof fn law_entries_are_drawn_in_turn<T>(
    ops: Ops<T>,
    s: rng::RngState,
    rows: nat,
    cols: nat,
    sigma: T,
    i: int,
    j: int,
)
    requires
        0 <= i < rows,
        0 <= j < cols,
    ensures
        normal_rows(ops, s, rows, cols, sigma)[i][j] == (ops.mul)(
            draw(ops, s, (i * cols + j) as nat),
            sigma,
        ),
{
    assert(i * cols >= 0) by (nonlinear_arith)
        requires
            i >= 0,
    ;
    lemma_after_normal_rows(ops, s, i as nat, cols);
    lemma_after_normals(ops, s, (i * cols) as nat, j as nat);
}

/// A row of `n` standard normal values times `sigma`.
pub fn sample_normals<T: Scalar>(n: usize, sigma: T, rng: &mut MaskRng) -> (r: Vec<T>)
    ensures
        r@ == normals(T::ops(), old(rng)@, n as nat, sigma),
        final(rng)@ == after_normals(T::ops(), old(rng)@, n as nat),
{
    let ghost start = rng@;
    let mut out: Vec<T> = Vec::new();
    for i in 0..n
        invariant
            out@.len() == i,
            rng@ == after_normals(T::ops(), start, i as nat),
            forall|j: int| 0 <= j < i ==> #[trigger] out@[j] == normals(
                T::ops(),
                start,
                n as nat,
                sigma,
            )[j],
    {
        let z: T = T::standard_normal(rng);
        out.push(z.times(sigma));
    }
    assert(out@ =~= normals(T::ops(), start, n as nat, sigma));
    out
}

/// A matrix of standard normal values times `sigma`, drawn row by row.
pub fn sample_normal<T: Scalar>(rows: usize, cols: usize, sigma: T, rng: &mut MaskRng) -> (r: Matrix<
    T,
>)
    ensures
        r@ == normal_rows(T::ops(), old(rng)@, rows as nat, cols as nat, sigma),
        r.width() == cols,
        final(rng)@ == after_normal_rows(T::ops(), old(rng)@, rows as nat, cols as nat),
{
    let ghost start = rng@;
    let mut out: Vec<Vec<T>> = Vec::new();
    for i in 0..rows
        invariant
            out@.len() == i,
            rng@ == after_normal_rows(T::ops(), start, i as nat, cols as nat),
            forall|a: int| 0 <= a < i ==> #[trigger] out@[a]@ == normals(
                T::ops(),
                after_normal_rows(T::ops(), start, a as nat, cols as nat),
                cols as nat,
                sigma,
            ),
            forall|a: int| 0 <= a < i ==> #[trigger] out@[a]@.len() == cols,
    {
        let row = sample_normals(cols, sigma, rng);
        out.push(row);
    }
    let m: Matrix<T> = Matrix::of_rows(out, cols);
    assert(m@ =~= normal_rows(T::ops(), start, rows as nat, cols as nat, sigma));
    m
}

/// The pair of Gaussian values made of words `2p` and `2p + 1` of a stream, from the top
/// 24 bits of each.
pub open spec fn bulk_pair<T>(ops: Ops<T>, s: rng::RngState, p: nat, sigma: T) -> (T, T) {
    (ops.gauss_pair)(
        rng::word_at(s, 2 * p) >> 8u32,
        rng::word_at(s, (2 * p + 1) as nat) >> 8u32,
        sigma,
    )
}

/// Bulk Gaussian values: zeros for a zero deviation, else two to a pair of words.
pub open spec fn bulk<T>(ops: Ops<T>, s: rng::RngState, n: nat, sigma: T) -> Seq<T> {
    Seq::new(
        n,
        |i: int|
            if ops.is_zero(sigma) {
                ops.zero()
            } else if i % 2 == 0 {
                bulk_pair(ops, s, (i / 2) as nat, sigma).0
            } else {
                bulk_pair(ops, s, (i / 2) as nat, sigma).1
            },
    )
}

/// Words read for `n` bulk values: none without values or deviation, else two to a pair,
/// rounded up to a multiple of sixteen
/// pairs.
pub open spec fn bulk_words<T>(ops: Ops<T>, n: nat, sigma: T) -> nat {
    if n == 0 || ops.is_zero(sigma) {
        0
    } else {
        ((2 * ((n + 1) / 2) + 31) / 32 * 32) as nat
    }
}

/// Fills `dest` with Gaussian values of mean zero and standard deviation `sigma`.
pub fn fill_gaussian<T: Scalar>(dest: &mut Vec<T>, sigma: T, rng: &mut MaskRng)
    ensures
        final(dest)@ == bulk(T::ops(), old(rng)@, old(dest)@.len(), sigma),
        final(rng)@ == rng::skip(old(rng)@, bulk_words(T::ops(), old(dest)@.len(), sigma)),
{
    let n: usize = dest.len();
    let zero: T = T::from_int(0);
    let silent: bool = sigma.at_most(zero) && zero.at_most(sigma);
    if n == 0 || silent {
        *dest = matrix::filled_row(zero, n);
        assert(dest@ =~= bulk(T::ops(), old(rng)@, n as nat, sigma));
        return ;
    }
    let ghost start = rng@;
    let ghost mut words: nat = 0;
    let mut out: Vec<T> = Vec::new();
    while out.len() < n
        invariant
            out@.len() <= n,
            !T::ops().is_zero(sigma),
            rng@ == rng::skip(start, words),
            words == 2 * ((out@.len() + 1) / 2),
            out@.len() == n || out@.len() % 2 == 0,
            forall|j: int| 0 <= j < out@.len() ==> #[trigger] out@[j] == bulk(
                T::ops(),
                start,
                n as nat,
                sigma,
            )[j],
        decreases n - out@.len(),
    {
        let ghost p = (out@.len() / 2) as nat;
        let u: u32 = rng.next_u32();
        let v: u32 = rng.next_u32();
        proof {
            rng::lemma_skip(start, words, 1);
            rng::lemma_skip(start, words + 1, 1);
            assert(words == 2 * p);
            words = words + 2;
        }
        let pair: (T, T) = T::gaussian_pair(u >> 8, v >> 8, sigma);
        assert(pair == bulk_pair(T::ops(), start, p, sigma));
        out.push(pair.0);
        if out.len() < n {
            assert((2 * p + 1) / 2 == p && (2 * p + 1) % 2 == 1);
            out.push(pair.1);
        }
    }
    assert(out@ =~= bulk(T::ops(), start, n as nat, sigma));
    let mut odd: usize = (out.len() % 32 + out.len() % 2) % 32;
    assert(odd == words % 32);
    while odd % 32 != 0
        invariant
            odd <= 32,
            rng@ == rng::skip(start, words),
            odd % 32 == (words % 32) as int,
            (words + 31) / 32 == (2 * ((n + 1) / 2) + 31) / 32,
        decreases 32 - odd,
    {
        let _ = rng.next_u32();
        proof {
            rng::lemma_skip(start, words, 1);
            words = words + 1;
        }
        odd = odd + 1;
    }
    *dest = out;
}

/// A fill that is not silent reads whole blocks of 32 words: the fewest that give every value a
/// word of its own.
pub proof fn law_bulk_reads_whole_blocks<T>(ops: Ops<T>, n: nat, sigma: T)
    requires
        !ops.is_zero(sigma),
    ensures
        bulk_words(ops, n, sigma) % 32 == 0,
        n <= bulk_words(ops, n, sigma) < n + 32,
{
}

/// Bulk values of one pair of words: two neighbours, made of the top 24 bits of two words that
/// no other pair uses.
pub proof fn law_bulk_values_come_in_pairs<T>(ops: Ops<T>, s: rng::RngState, n: nat, sigma: T, p: int)
    requires
        !ops.is_zero(sigma),
        0 <= p,
        2 * p + 1 < n,
    ensures
        (bulk(ops, s, n, sigma)[2 * p], bulk(ops, s, n, sigma)[2 * p + 1]) == (ops.gauss_pair)(
            (rng::word_at(s, (2 * p) as nat) as int / 256) as u32,
            (rng::word_at(s, (2 * p + 1) as nat) as int / 256) as u32,
            sigma,
        ),
{
    let u = rng::word_at(s, (2 * p) as nat);
    let v = rng::word_at(s, (2 * p + 1) as nat);
    assert(u >> 8u32 == u / 256u32) by (bit_vector);
    assert(v >> 8u32 == v / 256u32) by (bit_vector);
}

} // verus!
