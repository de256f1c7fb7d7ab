//! The Hadamard-cascade mask `A = D₃·H·D₂·H·D₁·H`.
//!
//! `H` is the Walsh-Hadamard matrix and each `Dᵢ` a random diagonal of signs. The matrix
//! is never built: `H` is applied as butterflies between rows, in `log₂ n` stages.

use vstd::prelude::*;

use crate::matrix;
use crate::matrix::Matrix;
use crate::pow2;
use crate::rng;
use crate::rng::{MaskRng, MaskSeed};
use crate::scalar::{Ops, Scalar};

verus! {

/// Bit `k` of a word, counted from the lowest.
pub open spec fn bit(w: u32, k: int) -> bool {
    (w >> (k as u32)) & 1u32 == 1u32
}

/// The signs read from a stream, 32 to a word; a set bit is a plus.
pub open spec fn signs(s: rng::RngState, n: nat) -> Seq<bool> {
    Seq::new(n, |i: int| bit(rng::word_at(s, (i / 32) as nat), i % 32))
}

/// Number of words that hold `n` signs.
pub open spec fn sign_words(n: nat) -> nat {
    ((n + 31) / 32) as nat
}

/// Rows with a minus are negated.
pub open spec fn flipped<T>(ops: Ops<T>, m: Seq<Seq<T>>, plus: Seq<bool>) -> Seq<Seq<T>> {
    Seq::new(
        m.len(),
        |i: int|
            if plus[i] {
                m[i]
            } else {
                m[i].map_values(ops.neg)
            },
    )
}

/// One stage of butterflies: rows `i` and `i + h` become their sum and their difference,
/// for every `i` whose `h`-block is an even one.
pub open spec fn stage<T>(ops: Ops<T>, m: Seq<Seq<T>>, h: int) -> Seq<Seq<T>> {
    Seq::new(
        m.len(),
        |i: int|
            if (i / h) % 2 == 0 {
                matrix::row_sum(ops, m[i], m[i + h])
            } else {
                matrix::row_difference(ops, m[i - h], m[i])
            },
    )
}

/// The stages with step `h`, `2h`, `4h`, .. below the number of rows.
pub open spec fn stages_from<T>(ops: Ops<T>, m: Seq<Seq<T>>, h: nat) -> Seq<Seq<T>>
    decreases (if h < m.len() { m.len() - h } else { 0 }),
{
    if h == 0 || h >= m.len() {
        m
    } else {
        stages_from(ops, stage(ops, m, h as int), 2 * h)
    }
}

/// The Walsh-Hadamard transform of the columns, without scaling.
pub open spec fn hadamard<T>(ops: Ops<T>, m: Seq<Seq<T>>) -> Seq<Seq<T>> {
    stages_from(ops, m, 1)
}

/// What a cascade mask is made of: its side, three diagonals of signs and a factor.
pub struct Cascade<T> {
    pub n: nat,
    pub d1: Seq<bool>,
    pub d2: Seq<bool>,
    pub d3: Seq<bool>,
    pub inv_norm: T,
}

impl<T> Cascade<T> {
    /// The diagonals have the length of the side.
    pub open spec fn sized(self) -> bool {
        &&& self.d1.len() == self.n
        &&& self.d2.len() == self.n
        &&& self.d3.len() == self.n
    }
}

/// The cascade whose diagonals a stream yields one after the other.
pub open spec fn cascade_from<T>(s: rng::RngState, n: nat, inv_norm: T) -> Cascade<T> {
    let w = sign_words(n);
    Cascade {
        n,
        d1: signs(s, n),
        d2: signs(rng::skip(s, w), n),
        d3: signs(rng::skip(rng::skip(s, w), w), n),
        inv_norm,
    }
}

/// The stream after the diagonals of a cascade have been read from it.
pub open spec fn after_cascade(s: rng::RngState, n: nat) -> rng::RngState {
    let w = sign_words(n);
    rng::skip(rng::skip(rng::skip(s, w), w), w)
}

/// `D₃·H·D₂·H·D₁·H·m`, scaled.
pub open spec fn masked<T>(ops: Ops<T>, c: Cascade<T>, m: Seq<Seq<T>>) -> Seq<Seq<T>> {
    let a = flipped(ops, hadamard(ops, m), c.d1);
    let b = flipped(ops, hadamard(ops, a), c.d2);
    matrix::scaled(ops, flipped(ops, hadamard(ops, b), c.d3), c.inv_norm)
}

/// `H·D₁·H·D₂·H·D₃·m`, scaled.
pub open spec fn unmasked<T>(ops: Ops<T>, c: Cascade<T>, m: Seq<Seq<T>>) -> Seq<Seq<T>> {
    let a = hadamard(ops, flipped(ops, m, c.d3));
    let b = hadamard(ops, flipped(ops, a, c.d2));
    matrix::scaled(ops, hadamard(ops, flipped(ops, b, c.d1)), c.inv_norm)
}

/// The factor `1 / n^(3/2)` that makes the cascade of three transforms orthogonal.
pub open spec fn hadamard_norm<T>(ops: Ops<T>, n: nat) -> T {
    (ops.div)(ops.one(), (ops.pow_3_2)((ops.from_int)(n as int)))
}

/// The mask sampled at side `n` from a stream.
pub open spec fn sampled<T>(ops: Ops<T>, s: rng::RngState, n: nat) -> Cascade<T> {
    cascade_from(s, n, hadamard_norm(ops, n))
}

/// Reads `n` signs from a stream, 32 to a word, lowest bit first.
pub fn sample_signs(n: usize, rng: &mut MaskRng) -> (r: Vec<bool>)
    ensures
        r@ == signs(old(rng)@, n as nat),
        final(rng)@ == rng::skip(old(rng)@, sign_words(n as nat)),
{
    let ghost start = rng@;
    let mut out: Vec<bool> = Vec::new();
    let mut i: usize = 0;
    let ghost mut words: nat = 0;
    while i < n
        invariant
            i <= n,
            out@.len() == i,
            i == 32 * words || (i == n && words == sign_words(n as nat)),
            rng@ == rng::skip(start, words),
            forall|j: int| 0 <= j < i ==> #[trigger] out@[j] == bit(
                rng::word_at(start, (j / 32) as nat),
                j % 32,
            ),
        decreases n - i,
    {
        let drawn: u32 = rng.next_u32();
        let left: usize = n - i;
        let take: usize = if left < 32 {
            left
        } else {
            32
        };
        proof {
            rng::lemma_skip(start, words, 1);
            assert(drawn == rng::word_at(start, words));
        }
        let mut bits: u32 = drawn;
        assert(drawn >> 0u32 == drawn) by (bit_vector);
        for k in 0..take
            invariant
                take <= 32,
                i == 32 * words,
                drawn == rng::word_at(start, words),
                bits == drawn >> (k as u32),
                out@.len() == i + k,
                forall|j: int| 0 <= j < i + k ==> #[trigger] out@[j] == bit(
                    rng::word_at(start, (j / 32) as nat),
                    j % 32,
                ),
        {
            let kk: u32 = k as u32;
            let set: bool = bits & 1 == 1;
            proof {
                assert((i + k) / 32 == words);
                assert((i + k) % 32 == k);
            }
            out.push(set);
            assert((drawn >> kk) >> 1u32 == drawn >> ((kk + 1) as u32)) by (bit_vector)
                requires
                    kk < 32,
            ;
            bits = bits >> 1;
        }
        i = i + take;
        proof {
            words = words + 1;
        }
    }
    proof {
        assert(out@ =~= signs(start, n as nat));
    }
    out
}

/// In a matrix whose row count is a multiple of `2h`, the butterfly partner of every row
/// is a row.
pub proof fn lemma_partner(n: nat, h: nat, i: int)
    requires
        pow2::is_pow2(n),
        pow2::is_pow2(h),
        h < n,
        0 <= i < n,
    ensures
        h > 0,
        (i / (h as int)) % 2 == 0 ==> i + h < n,
        (i / (h as int)) % 2 != 0 ==> i >= h,
{
    pow2::lemma_pow2_step(h, n);
    let m = choose|m: nat| m > 0 && n == #[trigger] (2 * h * m);
    let q = i / (h as int);
    let r = i % (h as int);
    vstd::arithmetic::div_mod::lemma_fundamental_div_mod(i, h as int);
    assert(i == h * q + r && 0 <= r < h);
    assert(0 <= q < 2 * m) by (nonlinear_arith)
        requires
            i == h * q + r,
            0 <= r < h,
            0 <= i < 2 * h * m,
            h > 0,
    ;
    if q % 2 == 0 {
        assert(i + h < n) by (nonlinear_arith)
            requires
                i == h * q + r,
                r < h,
                q + 2 <= 2 * m,
                n == 2 * h * m,
                h > 0,
        ;
    } else {
        assert(i >= h) by (nonlinear_arith)
            requires
                i == h * q + r,
                0 <= r,
                q >= 1,
                h > 0,
        ;
    }
}

/// One stage of butterflies between rows `h` apart.
fn butterfly_stage<T: Scalar>(m: &Matrix<T>, h: usize) -> (r: Matrix<T>)
    requires
        pow2::is_pow2(m@.len()),
        pow2::is_pow2(h as nat),
        h < m@.len(),
    ensures
        r@ == stage(T::ops(), m@, h as int),
        r.width() == m.width(),
{
    let n: usize = m.nrows();
    let d: usize = m.ncols();
    let mut rows: Vec<Vec<T>> = Vec::new();
    for i in 0..n
        invariant
            n == m@.len(),
            d == m.width(),
            pow2::is_pow2(n as nat),
            pow2::is_pow2(h as nat),
            h < n,
            rows@.len() == i,
            forall|a: int| 0 <= a < i ==> #[trigger] rows@[a]@ == stage(T::ops(), m@, h as int)[a],
            forall|a: int| 0 <= a < i ==> #[trigger] rows@[a]@.len() == d,
    {
        proof {
            lemma_partner(n as nat, h as nat, i as int);
        }
        let row: Vec<T> = if (i / h) % 2 == 0 {
            matrix::added_rows(m.row(i), m.row(i + h))
        } else {
            matrix::subtracted_rows(m.row(i - h), m.row(i))
        };
        rows.push(row);
    }
    let ghost grid = Seq::new(rows@.len(), |i: int| rows@[i]@);
    assert(grid =~= stage(T::ops(), m@, h as int));
    Matrix::of_rows(rows, d)
}

/// Walsh-Hadamard transform of every column, without scaling.
pub fn fwht_rows<T: Scalar>(m: &Matrix<T>) -> (r: Matrix<T>)
    requires
        pow2::is_pow2(m@.len()),
    ensures
        r@ == hadamard(T::ops(), m@),
        r.width() == m.width(),
{
    let n: usize = m.nrows();
    let mut cur: Matrix<T> = m.copied();
    let mut h: usize = 1;
    proof {
        pow2::lemma_one_is_pow2();
        pow2::lemma_pow2_positive(n as nat);
    }
    while h < n
        invariant
            n == m@.len(),
            pow2::is_pow2(n as nat),
            pow2::is_pow2(h as nat),
            0 < h <= n,
            cur@.len() == n,
            cur.width() == m.width(),
            stages_from(T::ops(), cur@, h as nat) == hadamard(T::ops(), m@),
        decreases n - h,
    {
        proof {
            pow2::lemma_pow2_step(h as nat, n as nat);
        }
        cur = butterfly_stage(&cur, h);
        h = 2 * h;
    }
    cur
}

/// Negates the rows that have a minus.
pub fn flip_rows<T: Scalar>(m: &Matrix<T>, plus: &Vec<bool>) -> (r: Matrix<T>)
    requires
        plus@.len() == m@.len(),
    ensures
        r@ == flipped(T::ops(), m@, plus@),
        r.width() == m.width(),
{
    let n: usize = m.nrows();
    let d: usize = m.ncols();
    let mut rows: Vec<Vec<T>> = Vec::new();
    for i in 0..n
        invariant
            n == m@.len(),
            d == m.width(),
            plus@.len() == n,
            rows@.len() == i,
            forall|a: int| 0 <= a < i ==> #[trigger] rows@[a]@ == flipped(T::ops(), m@, plus@)[a],
            forall|a: int| 0 <= a < i ==> #[trigger] rows@[a]@.len() == d,
    {
        let row: Vec<T> = if plus[i] {
            matrix::copied_row(m.row(i))
        } else {
            negated_row(m.row(i))
        };
        rows.push(row);
    }
    let ghost grid = Seq::new(rows@.len(), |i: int| rows@[i]@);
    assert(grid =~= flipped(T::ops(), m@, plus@));
    Matrix::of_rows(rows, d)
}

/// Every entry of a row, negated.
fn negated_row<T: Scalar>(x: &Vec<T>) -> (r: Vec<T>)
    ensures
        r@ == x@.map_values(T::ops().neg),
{
    let mut out: Vec<T> = Vec::new();
    for j in 0..x.len()
        invariant
            out@.len() == j,
            forall|b: int| 0 <= b < j ==> #[trigger] out@[b] == (T::ops().neg)(x@[b]),
    {
        out.push(x[j].negated());
    }
    assert(out@ =~= x@.map_values(T::ops().neg));
    out
}

/// The stages keep the number of rows.
proof fn lemma_stages_len<T>(ops: Ops<T>, m: Seq<Seq<T>>, h: nat)
    ensures
        stages_from(ops, m, h).len() == m.len(),
    decreases (if h < m.len() { m.len() - h } else { 0 }),
{
    if h != 0 && h < m.len() {
        lemma_stages_len(ops, stage(ops, m, h as int), 2 * h);
    }
}

/// Hadamard-cascade mask at a power-of-two side.
#[derive(Debug)]
pub struct Hd3Mask<T> {
    n: usize,
    d1: Vec<bool>,
    d2: Vec<bool>,
    d3: Vec<bool>,
    inv_norm: T,
}

impl<T> View for Hd3Mask<T> {
    type V = Cascade<T>;

    closed spec fn view(&self) -> Cascade<T> {
        Cascade {
            n: self.n as nat,
            d1: self.d1@,
            d2: self.d2@,
            d3: self.d3@,
            inv_norm: self.inv_norm,
        }
    }
}

impl<T> Hd3Mask<T> {
    #[verifier::type_invariant]
    spec fn well_sized(self) -> bool {
        &&& pow2::is_pow2(self.n as nat)
        &&& self.d1@.len() == self.n
        &&& self.d2@.len() == self.n
        &&& self.d3@.len() == self.n
    }

    /// Side of the mask.
    pub fn n(&self) -> (r: usize)
        ensures
            r == self@.n,
            self@.sized(),
            pow2::is_pow2(self@.n),
    {
        proof {
            use_type_invariant(self);
        }
        self.n
    }

    /// The three diagonals; true is a plus.
    pub fn diagonals(&self) -> (r: (&Vec<bool>, &Vec<bool>, &Vec<bool>))
        ensures
            r.0@ == self@.d1,
            r.1@ == self@.d2,
            r.2@ == self@.d3,
    {
        (&self.d1, &self.d2, &self.d3)
    }
}

impl<T: Scalar> Hd3Mask<T> {
    /// Samples a mask at side `n`, a power of two.
    pub fn fresh(n: usize, rng: &mut MaskRng) -> (r: Hd3Mask<T>)
        requires
            pow2::is_pow2(n as nat),
        ensures
            r@ == sampled(T::ops(), old(rng)@, n as nat),
            final(rng)@ == after_cascade(old(rng)@, n as nat),
    {
        let d1: Vec<bool> = sample_signs(n, rng);
        let d2: Vec<bool> = sample_signs(n, rng);
        let d3: Vec<bool> = sample_signs(n, rng);
        let inv_norm: T = T::from_int(1).over(T::from_count(n).three_halves_power());
        Hd3Mask { n, d1, d2, d3, inv_norm }
    }

    /// The mask that a seed determines.
    pub fn from_seed(n: usize, seed: MaskSeed) -> (r: Hd3Mask<T>)
        requires
            pow2::is_pow2(n as nat),
        ensures
            r@ == sampled(T::ops(), rng::seeded(seed.0@), n as nat),
    {
        let mut stream = seed.rng();
        Hd3Mask::fresh(n, &mut stream)
    }

    /// An independent copy.
    pub fn copied(&self) -> (r: Hd3Mask<T>)
        ensures
            r@ == self@,
    {
        proof {
            use_type_invariant(self);
        }
        Hd3Mask {
            n: self.n,
            d1: matrix::copied_row(&self.d1),
            d2: matrix::copied_row(&self.d2),
            d3: matrix::copied_row(&self.d3),
            inv_norm: self.inv_norm,
        }
    }

    /// Applies the mask: `A·hidden`.
    pub fn apply(&self, hidden: &Matrix<T>) -> (r: Matrix<T>)
        requires
            hidden@.len() == self@.n,
        ensures
            r@ == masked(T::ops(), self@, hidden@),
            r@.len() == hidden@.len(),
            r.width() == hidden.width(),
    {
        proof {
            use_type_invariant(self);
            lemma_stages_len(T::ops(), hidden@, 1);
        }
        let a: Matrix<T> = flip_rows(&fwht_rows(hidden), &self.d1);
        proof {
            lemma_stages_len(T::ops(), a@, 1);
        }
        let b: Matrix<T> = flip_rows(&fwht_rows(&a), &self.d2);
        proof {
            lemma_stages_len(T::ops(), b@, 1);
        }
        let c: Matrix<T> = flip_rows(&fwht_rows(&b), &self.d3);
        c.scaled_by(self.inv_norm)
    }

    /// Removes the mask: `Aᵀ·masked_output`.
    pub fn unapply(&self, masked_output: &Matrix<T>) -> (r: Matrix<T>)
        requires
            masked_output@.len() == self@.n,
        ensures
            r@ == unmasked(T::ops(), self@, masked_output@),
            r@.len() == masked_output@.len(),
            r.width() == masked_output.width(),
    {
        proof {
            use_type_invariant(self);
        }
        let x: Matrix<T> = flip_rows(masked_output, &self.d3);
        proof {
            lemma_stages_len(T::ops(), x@, 1);
        }
        let y: Matrix<T> = flip_rows(&fwht_rows(&x), &self.d2);
        proof {
            lemma_stages_len(T::ops(), y@, 1);
        }
        let z: Matrix<T> = flip_rows(&fwht_rows(&y), &self.d1);
        proof {
            lemma_stages_len(T::ops(), z@, 1);
        }
        fwht_rows(&z).scaled_by(self.inv_norm)
    }

    /// Applies the mask to a buffer.
    pub fn apply_in_place(&self, buf: &mut Matrix<T>)
        requires
            old(buf)@.len() == self@.n,
        ensures
            final(buf)@ == masked(T::ops(), self@, old(buf)@),
            final(buf)@.len() == old(buf)@.len(),
            final(buf).width() == old(buf).width(),
    {
        *buf = self.apply(buf);
    }

    /// Removes the mask from a buffer.
    pub fn unapply_in_place(&self, buf: &mut Matrix<T>)
        requires
            old(buf)@.len() == self@.n,
        ensures
            final(buf)@ == unmasked(T::ops(), self@, old(buf)@),
            final(buf)@.len() == old(buf)@.len(),
            final(buf).width() == old(buf).width(),
    {
        *buf = self.unapply(buf);
    }
}

} // verus!
