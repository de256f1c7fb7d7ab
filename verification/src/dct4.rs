//! The cosine-cascade mask `A = D₃·C·D₂·C·D₁·C`.
//!
//! `C` is the type-IV cosine transform, which exists at every length, so that the
//! operand needs no padding.

use vstd::prelude::*;

use crate::hd3;
use crate::matrix;
use crate::matrix::Matrix;
use crate::rng;
use crate::rng::{MaskRng, MaskSeed};
use crate::scalar::{Ops, Scalar};

verus! {

/// The cosine transform of every column; a matrix without rows or columns stays as it is.
pub open spec fn cosine<T>(ops: Ops<T>, m: Seq<Seq<T>>, cols: nat) -> Seq<Seq<T>> {
    if m.len() == 0 || cols == 0 {
        m
    } else {
        Seq::new(
            m.len(),
            |i: int| Seq::new(cols, |j: int| (ops.dct4)(matrix::col(m, j))[i]),
        )
    }
}

/// `D₃·C·D₂·C·D₁·C·m`, scaled.
pub open spec fn masked<T>(
    ops: Ops<T>,
    c: hd3::Cascade<T>,
    m: Seq<Seq<T>>,
    cols: nat,
) -> Seq<Seq<T>> {
    let a = hd3::flipped(ops, cosine(ops, m, cols), c.d1);
    let b = hd3::flipped(ops, cosine(ops, a, cols), c.d2);
    matrix::scaled(ops, hd3::flipped(ops, cosine(ops, b, cols), c.d3), c.inv_norm)
}

/// `C·D₁·C·D₂·C·D₃·m`, scaled.
pub open spec fn unmasked<T>(
    ops: Ops<T>,
    c: hd3::Cascade<T>,
    m: Seq<Seq<T>>,
    cols: nat,
) -> Seq<Seq<T>> {
    let a = cosine(ops, hd3::flipped(ops, m, c.d3), cols);
    let b = cosine(ops, hd3::flipped(ops, a, c.d2), cols);
    matrix::scaled(ops, cosine(ops, hd3::flipped(ops, b, c.d1), cols), c.inv_norm)
}

/// The factor `(2/n)^(3/2)`: two passes of the unnormalised transform scale by `n/2`.
pub open spec fn cosine_norm<T>(ops: Ops<T>, n: nat) -> T {
    (ops.pow_3_2)((ops.div)((ops.from_int)(2), (ops.from_int)(n as int)))
}

/// The mask sampled at side `n` from a stream.
pub open spec fn sampled<T>(ops: Ops<T>, s: rng::RngState, n: nat) -> hd3::Cascade<T> {
    hd3::cascade_from(s, n, cosine_norm(ops, n))
}

/// Transforms every column.
pub fn dct4_cols<T: Scalar>(m: &Matrix<T>) -> (r: Matrix<T>)
    ensures
        r@ == cosine(T::ops(), m@, m.width()),
        r@.len() == m@.len(),
        r.width() == m.width(),
{
    let n: usize = m.nrows();
    let d: usize = m.ncols();
    if n == 0 || d == 0 {
        return m.copied();
    }
    let mut columns: Vec<Vec<T>> = Vec::new();
    for j in 0..d
        invariant
            n == m@.len(),
            d == m.width(),
            columns@.len() == j,
            forall|b: int| 0 <= b < j ==> #[trigger] columns@[b]@ == (T::ops().dct4)(
                matrix::col(m@, b),
            ),
            forall|b: int| 0 <= b < j ==> #[trigger] columns@[b]@.len() == n,
    {
        let column = T::cosine_transform(m.column(j));
        columns.push(column);
    }
    let by_column: Matrix<T> = Matrix::of_rows(columns, n);
    let out: Matrix<T> = by_column.transposed();
    assert(out@ =~= cosine(T::ops(), m@, d as nat)) by {
        assert forall|i: int| 0 <= i < n implies #[trigger] out@[i] == cosine(
            T::ops(),
            m@,
            d as nat,
        )[i] by {
            assert(out@[i] =~= cosine(T::ops(), m@, d as nat)[i]);
        }
    }
    out
}

/// Cosine-cascade mask at any positive side.
#[derive(Debug)]
pub struct Dct4Mask<T> {
    n: usize,
    d1: Vec<bool>,
    d2: Vec<bool>,
    d3: Vec<bool>,
    inv_norm: T,
}

impl<T> View for Dct4Mask<T> {
    type V = hd3::Cascade<T>;

    closed spec fn view(&self) -> hd3::Cascade<T> {
        hd3::Cascade {
            n: self.n as nat,
            d1: self.d1@,
            d2: self.d2@,
            d3: self.d3@,
            inv_norm: self.inv_norm,
        }
    }
}

impl<T> Dct4Mask<T> {
    #[verifier::type_invariant]
    spec fn well_sized(self) -> bool {
        &&& self.n > 0
        &&& self.d1@.len() == self.n
        &&& self.d2@.len() == self.n
        &&& self.d3@.len() == self.n
    }

    /// Side of the mask.
    pub fn n(&self) -> (r: usize)
        ensures
            r == self@.n,
            self@.sized(),
            self@.n > 0,
    {
        proof {
            use_type_invariant(self);
        }
        self.n
    }

    /// The three diagonals; true is a plus.
    pub fn diagonals(&self) -> (r: (&Vec<bool>, &Vec<bool>, &Vec<bool>))
        ensures
            r.0@ == self@.d1,
            r.1@ == self@.d2,
            r.2@ == self@.d3,
    {
        (&self.d1, &self.d2, &self.d3)
    }
}

impl<T: Scalar> Dct4Mask<T> {
    /// Samples a mask at side `n`.
    pub fn fresh(n: usize, rng: &mut MaskRng) -> (r: Dct4Mask<T>)
        requires
            n > 0,
        ensures
            r@ == sampled(T::ops(), old(rng)@, n as nat),
            final(rng)@ == hd3::after_cascade(old(rng)@, n as nat),
    {
        let d1: Vec<bool> = hd3::sample_signs(n, rng);
        let d2: Vec<bool> = hd3::sample_signs(n, rng);
        let d3: Vec<bool> = hd3::sample_signs(n, rng);
        let inv_norm: T = T::from_int(2).over(T::from_count(n)).three_halves_power();
        Dct4Mask { n, d1, d2, d3, inv_norm }
    }

    /// The mask that a seed determines.
    pub fn from_seed(n: usize, seed: MaskSeed) -> (r: Dct4Mask<T>)
        requires
            n > 0,
        ensures
            r@ == sampled(T::ops(), rng::seeded(seed.0@), n as nat),
    {
        let mut stream = seed.rng();
        Dct4Mask::fresh(n, &mut stream)
    }

    /// An independent copy.
    pub fn copied(&self) -> (r: Dct4Mask<T>)
        ensures
            r@ == self@,
    {
        proof {
            use_type_invariant(self);
        }
        Dct4Mask {
            n: self.n,
            d1: matrix::copied_row(&self.d1),
            d2: matrix::copied_row(&self.d2),
            d3: matrix::copied_row(&self.d3),
            inv_norm: self.inv_norm,
        }
    }

    /// Applies the mask: `A·hidden`.
    pub fn apply(&self, hidden: &Matrix<T>) -> (r: Matrix<T>)
        requires
            hidden@.len() == self@.n,
        ensures
            r@ == masked(T::ops(), self@, hidden@, hidden.width()),
            r@.len() == hidden@.len(),
            r.width() == hidden.width(),
    {
        proof {
            use_type_invariant(self);
        }
        let a: Matrix<T> = hd3::flip_rows(&dct4_cols(hidden), &self.d1);
        let b: Matrix<T> = hd3::flip_rows(&dct4_cols(&a), &self.d2);
        let c: Matrix<T> = hd3::flip_rows(&dct4_cols(&b), &self.d3);
        c.scaled_by(self.inv_norm)
    }

    /// Removes the mask: `Aᵀ·masked_output`.
    pub fn unapply(&self, masked_output: &Matrix<T>) -> (r: Matrix<T>)
        requires
            masked_output@.len() == self@.n,
        ensures
            r@ == unmasked(T::ops(), self@, masked_output@, masked_output.width()),
            r@.len() == masked_output@.len(),
            r.width() == masked_output.width(),
    {
        proof {
            use_type_invariant(self);
        }
        let a: Matrix<T> = dct4_cols(&hd3::flip_rows(masked_output, &self.d3));
        let b: Matrix<T> = dct4_cols(&hd3::flip_rows(&a, &self.d2));
        let c: Matrix<T> = dct4_cols(&hd3::flip_rows(&b, &self.d1));
        c.scaled_by(self.inv_norm)
    }

    /// Applies the mask to a buffer.
    pub fn apply_in_place(&self, buf: &mut Matrix<T>)
        requires
            old(buf)@.len() == self@.n,
        ensures
            final(buf)@ == masked(T::ops(), self@, old(buf)@, old(buf).width()),
            final(buf)@.len() == old(buf)@.len(),
            final(buf).width() == old(buf).width(),
    {
        *buf = self.apply(buf);
    }

    /// Removes the mask from a buffer.
    pub fn unapply_in_place(&self, buf: &mut Matrix<T>)
        requires
            old(buf)@.len() == self@.n,
        ensures
            final(buf)@ == unmasked(T::ops(), self@, old(buf)@, old(buf).width()),
            final(buf)@.len() == old(buf)@.len(),
            final(buf).width() == old(buf).width(),
    {
        *buf = self.unapply(buf);
    }
}

} // verus!
