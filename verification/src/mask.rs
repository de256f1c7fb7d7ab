//! Token-axis masks: which families there are, how one is chosen, applied and removed.

use vstd::prelude::*;

use crate::dct4;
use crate::dct4::Dct4Mask;
use crate::gaussian;
use crate::haar;
use crate::hd3;
use crate::hd3::Hd3Mask;
use crate::matrix;
use crate::matrix::Matrix;
use crate::pow2;
use crate::rng;
use crate::rng::{MaskRng, MaskSeed};
use crate::scalar::{Ops, Scalar};
use crate::text;

verus! {

/// Which family of masks to use.
#[derive(Debug, Clone, Copy, PartialEq, Eq, Structural)]
pub enum MaskKind {
    /// Dense orthogonal matrix.
    Haar,
    /// Hadamard cascade, at power-of-two sides.
    Hd3,
    /// Cosine cascade, at any side.
    Dct4,
    /// The Hadamard cascade where padding to a power of two is cheap, else the cosine one.
    Auto,
}

impl Default for MaskKind {
    fn default() -> (r: MaskKind)
        ensures
            r == MaskKind::Haar,
    {
        MaskKind::Haar
    }
}

/// Numerator of the largest ratio of padded to plain size at which `Auto` pads.
pub const HD3_AUTO_MAX_PAD_RATIO_NUM: usize = 4;

/// Denominator of that ratio.
pub const HD3_AUTO_MAX_PAD_RATIO_DEN: usize = 3;

/// A number capped at the largest machine word.
pub open spec fn saturated(x: int) -> int {
    if x > usize::MAX {
        usize::MAX as int
    } else {
        x
    }
}

/// Side of a Hadamard cascade for `s` rows: the next power of two, at least two.
pub open spec fn padded(s: nat) -> nat {
    if pow2::next_pow2(s) < 2 {
        2
    } else {
        pow2::next_pow2(s)
    }
}

/// The family that is used for `s` stacked rows.
pub open spec fn resolved(kind: MaskKind, s: nat) -> MaskKind {
    if kind == MaskKind::Auto {
        if saturated(padded(s) * HD3_AUTO_MAX_PAD_RATIO_DEN) <= saturated(
            s * HD3_AUTO_MAX_PAD_RATIO_NUM,
        ) {
            MaskKind::Hd3
        } else {
            MaskKind::Dct4
        }
    } else {
        kind
    }
}

/// Rows of the operand that a mask of this family acts on, for `s` stacked rows.
pub open spec fn operand_rows(kind: MaskKind, s: nat) -> nat {
    if resolved(kind, s) == MaskKind::Hd3 {
        padded(s)
    } else {
        s
    }
}

/// The family for `s` stacked rows: `Auto` picks the Hadamard cascade where the padded
/// size is at most 4/3 of `s`, every other kind is itself.
pub fn resolve_mask_kind_for_shape(kind: MaskKind, s: usize) -> (r: MaskKind)
    requires
        kind == MaskKind::Auto ==> pow2::next_pow2(s as nat) <= usize::MAX,
    ensures
        r == resolved(kind, s as nat),
{
    match kind {
        MaskKind::Auto => {
            let s_pad: usize = padded_side(s);
            let padded_size: usize = match s_pad.checked_mul(HD3_AUTO_MAX_PAD_RATIO_DEN) {
                Some(x) => x,
                None => usize::MAX,
            };
            let allowed: usize = match s.checked_mul(HD3_AUTO_MAX_PAD_RATIO_NUM) {
                Some(x) => x,
                None => usize::MAX,
            };
            if padded_size <= allowed {
                MaskKind::Hd3
            } else {
                MaskKind::Dct4
            }
        },
        other => other,
    }
}

/// Side of a Hadamard cascade for `s` rows.
pub fn padded_side(s: usize) -> (r: usize)
    requires
        pow2::next_pow2(s as nat) <= usize::MAX,
    ensures
        r == padded(s as nat),
        pow2::is_pow2(r as nat),
        r >= s,
{
    let p: usize = pow2::next_power_of_two(s);
    proof {
        pow2::lemma_next_pow2(s as nat);
        pow2::lemma_one_is_pow2();
    }
    if p < 2 {
        2
    } else {
        p
    }
}

/// Whatever was asked for, a concrete family comes out, and asking again changes nothing.
pub proof fn law_resolution_is_final(kind: MaskKind, s: nat)
    ensures
        resolved(kind, s) != MaskKind::Auto,
        resolved(resolved(kind, s), s) == resolved(kind, s),
{
}

/// The padded side is a power of two that holds all rows; `Auto` uses it only where it is
/// at most 4/3 of the rows, and pads nothing at a power of two.
pub proof fn law_auto_pads_at_most_a_third(s: nat)
    requires
        4 * s <= usize::MAX,
    ensures
        pow2::is_pow2(padded(s)),
        padded(s) >= s,
        resolved(MaskKind::Auto, s) == MaskKind::Hd3 <==> 3 * padded(s) <= 4 * s,
        s >= 2 && pow2::is_pow2(s) ==> {
            &&& padded(s) == s
            &&& resolved(MaskKind::Auto, s) == MaskKind::Hd3
        },
{
    pow2::lemma_next_pow2(s);
    pow2::lemma_one_is_pow2();
    if s >= 2 && pow2::is_pow2(s) {
        assert(pow2::is_next_pow2(s, s));
    }
    if 3 * padded(s) > usize::MAX {
        assert(saturated(s * HD3_AUTO_MAX_PAD_RATIO_NUM) == 4 * s);
        if 4 * s == usize::MAX {
            lemma_max_is_odd();
        }
    }
}

proof fn lemma_max_is_odd()
    ensures
        usize::MAX % 4 == 3,
{
}

/// Pins the dense kernel to one thread. The portable kernel runs on the calling thread,
/// so that there is nothing to pin.
pub fn ensure_blis_single_thread() {
}

/// Sets the thread count of the dense kernel. The portable kernel has none.
pub fn set_blis_num_threads(_n: i64) {
}

/// How many threads a setting asks for: its value where it is a positive number, else one.
pub open spec fn threads_asked(setting: Option<Seq<char>>) -> i64 {
    match setting {
        Some(s) => match text::positive_number(s) {
            Some(n) => n,
            None => 1,
        },
        None => 1,
    }
}

/// Thread count of an accelerated dense kernel, from the text of its setting.
pub fn blis_threads(setting: Option<&String>) -> (r: i64)
    ensures
        r == threads_asked(
            match setting {
                Some(s) => Some(s@),
                None => None,
            },
        ),
{
    match setting {
        Some(s) => match text::parse_positive(s.as_str()) {
            Some(n) => n,
            None => 1,
        },
        None => 1,
    }
}

/// Which dense kernel is used.
pub fn mask_backend_description() -> (r: String)
    ensures
        r@
            == "matrixmultiply (single-thread, pure-Rust; build with default `blas` feature for ~5× faster long-n)"@,
{
    "matrixmultiply (single-thread, pure-Rust; build with default `blas` feature for ~5× faster long-n)".to_owned()
}

/// Matrix product on the trusted side.
pub fn tee_matmul<T: Scalar>(a: &Matrix<T>, b: &Matrix<T>) -> (r: Matrix<T>)
    requires
        a.width() == b@.len(),
    ensures
        r@ == matrix::product(T::ops(), a@, b@, b.width()),
        r.width() == b.width(),
{
    a.times(b)
}

/// A dense mask, given by its matrix.
#[derive(Debug)]
pub struct GeloMask<T> {
    a: Matrix<T>,
}

impl<T> View for GeloMask<T> {
    type V = Seq<Seq<T>>;

    closed spec fn view(&self) -> Seq<Seq<T>> {
        self.a@
    }
}

/// `a·m`.
pub open spec fn masked_dense<T>(
    ops: Ops<T>,
    a: Seq<Seq<T>>,
    m: Seq<Seq<T>>,
    cols: nat,
) -> Seq<Seq<T>> {
    matrix::product(ops, a, m, cols)
}

/// `aᵀ·m`.
pub open spec fn unmasked_dense<T>(
    ops: Ops<T>,
    a: Seq<Seq<T>>,
    m: Seq<Seq<T>>,
    cols: nat,
) -> Seq<Seq<T>> {
    matrix::product(ops, matrix::transpose(a, a.len()), m, cols)
}

impl<T> GeloMask<T> {
    #[verifier::type_invariant]
    spec fn square(self) -> bool {
        self.a.width() == self.a@.len()
    }

    /// Side of the mask.
    pub fn n(&self) -> (r: usize)
        ensures
            r == self@.len(),
            matrix::is_grid(self@, self@.len(), self@.len()),
    {
        proof {
            use_type_invariant(self);
        }
        self.a.nrows()
    }

    /// The mask matrix.
    pub fn matrix(&self) -> (r: &Matrix<T>)
        ensures
            r@ == self@,
            r.width() == self@.len(),
    {
        proof {
            use_type_invariant(self);
        }
        &self.a
    }
}

impl<T: Scalar> GeloMask<T> {
    /// Samples an orthogonal mask at side `n`.
    pub fn fresh(n: usize, rng: &mut MaskRng) -> (r: GeloMask<T>)
        ensures
            r@ == haar::sampled(T::ops(), old(rng)@, n as nat),
            r@.len() == n,
            final(rng)@ == gaussian::after_normal_rows(T::ops(), old(rng)@, n as nat, n as nat),
    {
        GeloMask { a: haar::sample_haar_orthogonal(n, rng) }
    }

    /// The mask that a seed determines.
    pub fn from_seed(n: usize, seed: MaskSeed) -> (r: GeloMask<T>)
        ensures
            r@ == haar::sampled(T::ops(), rng::seeded(seed.0@), n as nat),
            r@.len() == n,
    {
        let mut stream = seed.rng();
        GeloMask::fresh(n, &mut stream)
    }

    /// An independent copy.
    pub fn copied(&self) -> (r: GeloMask<T>)
        ensures
            r@ == self@,
    {
        proof {
            use_type_invariant(self);
        }
        GeloMask { a: self.a.copied() }
    }

    /// Applies the mask: `A·hidden`.
    pub fn apply(&self, hidden: &Matrix<T>) -> (r: Matrix<T>)
        requires
            hidden@.len() == self@.len(),
        ensures
            r@ == masked_dense(T::ops(), self@, hidden@, hidden.width()),
            r@.len() == hidden@.len(),
            r.width() == hidden.width(),
    {
        proof {
            use_type_invariant(self);
        }
        self.a.times(hidden)
    }

    /// Removes the mask: `Aᵀ·masked_output`.
    pub fn unapply(&self, masked_output: &Matrix<T>) -> (r: Matrix<T>)
        requires
            masked_output@.len() == self@.len(),
        ensures
            r@ == unmasked_dense(T::ops(), self@, masked_output@, masked_output.width()),
            r@.len() == masked_output@.len(),
            r.width() == masked_output.width(),
    {
        proof {
            use_type_invariant(self);
        }
        self.a.transposed().times(masked_output)
    }
}

/// A mask of one of the families.
#[derive(Debug)]
pub enum MaskFamily<T> {
    Haar(GeloMask<T>),
    Hd3(Hd3Mask<T>),
    Dct4(Dct4Mask<T>),
}

/// What a mask of one of the families is made of.
pub enum Family<T> {
    Haar(Seq<Seq<T>>),
    Hd3(hd3::Cascade<T>),
    Dct4(hd3::Cascade<T>),
}

impl<T> Family<T> {
    /// Side of the mask.
    pub open spec fn n(self) -> nat {
        match self {
            Family::Haar(a) => a.len(),
            Family::Hd3(c) => c.n,
            Family::Dct4(c) => c.n,
        }
    }

    /// The family's kind.
    pub open spec fn kind(self) -> MaskKind {
        match self {
            Family::Haar(_) => MaskKind::Haar,
            Family::Hd3(_) => MaskKind::Hd3,
            Family::Dct4(_) => MaskKind::Dct4,
        }
    }

    /// `A·m`.
    pub open spec fn masked(self, ops: Ops<T>, m: Seq<Seq<T>>, cols: nat) -> Seq<Seq<T>> {
        match self {
            Family::Haar(a) => masked_dense(ops, a, m, cols),
            Family::Hd3(c) => hd3::masked(ops, c, m),
            Family::Dct4(c) => dct4::masked(ops, c, m, cols),
        }
    }

    /// `Aᵀ·m`.
    pub open spec fn unmasked(self, ops: Ops<T>, m: Seq<Seq<T>>, cols: nat) -> Seq<Seq<T>> {
        match self {
            Family::Haar(a) => unmasked_dense(ops, a, m, cols),
            Family::Hd3(c) => hd3::unmasked(ops, c, m),
            Family::Dct4(c) => dct4::unmasked(ops, c, m, cols),
        }
    }
}

/// The mask of a concrete family sampled at side `n` from a stream.
pub open spec fn sampled_family<T>(ops: Ops<T>, kind: MaskKind, s: rng::RngState, n: nat) -> Family<
    T,
> {
    match kind {
        MaskKind::Hd3 => Family::Hd3(hd3::sampled(ops, s, n)),
        MaskKind::Dct4 => Family::Dct4(dct4::sampled(ops, s, n)),
        _ => Family::Haar(haar::sampled(ops, s, n)),
    }
}

/// The stream after a mask of a concrete family has been sampled from it.
pub open spec fn after_family<T>(
    ops: Ops<T>,
    kind: MaskKind,
    s: rng::RngState,
    n: nat,
) -> rng::RngState {
    match kind {
        MaskKind::Hd3 => hd3::after_cascade(s, n),
        MaskKind::Dct4 => hd3::after_cascade(s, n),
        _ => gaussian::after_normal_rows(ops, s, n, n),
    }
}

impl<T> View for MaskFamily<T> {
    type V = Family<T>;

    open spec fn view(&self) -> Family<T> {
        match self {
            MaskFamily::Haar(m) => Family::Haar(m@),
            MaskFamily::Hd3(m) => Family::Hd3(m@),
            MaskFamily::Dct4(m) => Family::Dct4(m@),
        }
    }
}

/// Profile category of applying a mask of a family.
pub open spec fn apply_category(kind: MaskKind) -> Seq<char> {
    match kind {
        MaskKind::Hd3 => "gelo:mask_apply:hd3"@,
        MaskKind::Dct4 => "gelo:mask_apply:dct4"@,
        _ => "gelo:mask_apply:haar"@,
    }
}

/// Profile category of removing a mask of a family.
pub open spec fn unapply_category(kind: MaskKind) -> Seq<char> {
    match kind {
        MaskKind::Hd3 => "gelo:mask_unapply:hd3"@,
        MaskKind::Dct4 => "gelo:mask_unapply:dct4"@,
        _ => "gelo:mask_unapply:haar"@,
    }
}

impl<T> MaskFamily<T> {
    /// Side of the mask.
    pub fn n(&self) -> (r: usize)
        ensures
            r == self@.n(),
    {
        match self {
            MaskFamily::Haar(m) => m.n(),
            MaskFamily::Hd3(m) => m.n(),
            MaskFamily::Dct4(m) => m.n(),
        }
    }

    /// Profile category of applying the mask.
    pub fn apply_profile_category(&self) -> (r: &'static str)
        ensures
            r@ == apply_category(self@.kind()),
    {
        match self {
            MaskFamily::Haar(_) => "gelo:mask_apply:haar",
            MaskFamily::Hd3(_) => "gelo:mask_apply:hd3",
            MaskFamily::Dct4(_) => "gelo:mask_apply:dct4",
        }
    }

    /// Profile category of removing the mask.
    pub fn unapply_profile_category(&self) -> (r: &'static str)
        ensures
            r@ == unapply_category(self@.kind()),
    {
        match self {
            MaskFamily::Haar(_) => "gelo:mask_unapply:haar",
            MaskFamily::Hd3(_) => "gelo:mask_unapply:hd3",
            MaskFamily::Dct4(_) => "gelo:mask_unapply:dct4",
        }
    }
}

impl<T: Scalar> MaskFamily<T> {
    /// Samples a mask of a concrete family at side `n`.
    pub fn fresh(kind: MaskKind, n: usize, rng: &mut MaskRng) -> (r: MaskFamily<T>)
        requires
            kind != MaskKind::Auto,
            kind == MaskKind::Hd3 ==> pow2::is_pow2(n as nat),
            kind == MaskKind::Dct4 ==> n > 0,
        ensures
            r@ == sampled_family(T::ops(), kind, old(rng)@, n as nat),
            r@.n() == n,
            r@.kind() == kind,
            final(rng)@ == after_family(T::ops(), kind, old(rng)@, n as nat),
    {
        match kind {
            MaskKind::Hd3 => MaskFamily::Hd3(Hd3Mask::fresh(n, rng)),
            MaskKind::Dct4 => MaskFamily::Dct4(Dct4Mask::fresh(n, rng)),
            _ => MaskFamily::Haar(GeloMask::fresh(n, rng)),
        }
    }

    /// An independent copy.
    pub fn copied(&self) -> (r: MaskFamily<T>)
        ensures
            r@ == self@,
    {
        match self {
            MaskFamily::Haar(m) => MaskFamily::Haar(m.copied()),
            MaskFamily::Hd3(m) => MaskFamily::Hd3(m.copied()),
            MaskFamily::Dct4(m) => MaskFamily::Dct4(m.copied()),
        }
    }

    /// Applies the mask.
    pub fn apply(&self, hidden: &Matrix<T>) -> (r: Matrix<T>)
        requires
            hidden@.len() == self@.n(),
        ensures
            r@ == self@.masked(T::ops(), hidden@, hidden.width()),
            r@.len() == hidden@.len(),
            r.width() == hidden.width(),
    {
        match self {
            MaskFamily::Haar(m) => m.apply(hidden),
            MaskFamily::Hd3(m) => m.apply(hidden),
            MaskFamily::Dct4(m) => m.apply(hidden),
        }
    }

    /// Removes the mask.
    pub fn unapply(&self, masked: &Matrix<T>) -> (r: Matrix<T>)
        requires
            masked@.len() == self@.n(),
        ensures
            r@ == self@.unmasked(T::ops(), masked@, masked.width()),
            r@.len() == masked@.len(),
            r.width() == masked.width(),
    {
        match self {
            MaskFamily::Haar(m) => m.unapply(masked),
            MaskFamily::Hd3(m) => m.unapply(masked),
            MaskFamily::Dct4(m) => m.unapply(masked),
        }
    }

    /// Removes the mask from a matrix that is given up.
    pub fn unapply_take(&self, masked: Matrix<T>) -> (r: Matrix<T>)
        requires
            masked@.len() == self@.n(),
        ensures
            r@ == self@.unmasked(T::ops(), masked@, masked.width()),
            r@.len() == masked@.len(),
            r.width() == masked.width(),
    {
        let mut buf = masked;
        match self {
            MaskFamily::Haar(m) => m.unapply(&buf),
            MaskFamily::Hd3(m) => {
                m.unapply_in_place(&mut buf);
                buf
            },
            MaskFamily::Dct4(m) => {
                m.unapply_in_place(&mut buf);
                buf
            },
        }
    }
}

/// The padded side is the least power of two, from two up, that holds all rows.
pub proof fn law_padding_is_least(s: nat, q: nat)
    ensures
        pow2::is_pow2(padded(s)),
        padded(s) >= s,
        padded(s) >= 2,
        pow2::is_pow2(q) && q >= s && q >= 2 ==> padded(s) <= q,
{
    pow2::lemma_next_pow2(s);
    pow2::lemma_one_is_pow2();
    assert(pow2::is_pow2(2)) by {
        pow2::lemma_next_pow2(2);
        if pow2::next_pow2(2) != 2 {
            pow2::lemma_pow2_step(1, pow2::next_pow2(2));
        }
    }
}

/// How many rows the engine sees of `s` stacked rows: as many, but for the Hadamard cascade,
/// where they are padded; never fewer.
pub proof fn law_operands_are_padded_for_hadamard_only(kind: MaskKind, s: nat)
    ensures
        operand_rows(kind, s) >= s,
        kind == MaskKind::Haar || kind == MaskKind::Dct4 ==> operand_rows(kind, s) == s,
        kind == MaskKind::Hd3 ==> pow2::is_pow2(operand_rows(kind, s)) && operand_rows(kind, s)
            == padded(s),
        kind == MaskKind::Auto && 4 * s <= usize::MAX ==> 3 * operand_rows(kind, s) <= 4 * s
            || operand_rows(kind, s) == s,
{
    law_padding_is_least(s, s);
    if 4 * s <= usize::MAX {
        law_auto_pads_at_most_a_third(s);
    }
}

/// A setting that is missing, or is not a positive number, asks for one thread; a positive number
/// asks for that many.
pub proof fn law_threads_default_to_one(n: nat)
    requires
        1 <= n <= i64::MAX,
    ensures
        threads_asked(None) == 1,
        threads_asked(Some(text::decimal(n))) == n,
        threads_asked(Some(text::decimal(0))) == 1,
{
    text::law_written_number_reads_back(n);
    text::law_zero_is_not_positive();
}

/// A family that was asked for by name is used whatever the shape; only the choice is left open.
pub proof fn law_named_families_are_kept(kind: MaskKind, s: nat)
    requires
        kind != MaskKind::Auto,
    ensures
        resolved(kind, s) == kind,
        resolved(MaskKind::Auto, s) != MaskKind::Haar,
{
}

} // verus!
