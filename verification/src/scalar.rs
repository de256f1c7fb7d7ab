//! Arithmetic that the protocol is written over.

use vstd::prelude::*;

use crate::rng;
use crate::rng::MaskRng;
use crate::text;

verus! {

/// The meaning of the arithmetic of one scalar type.
#[verifier::reject_recursive_types(T)]
pub struct Ops<T> {
    pub from_int: spec_fn(int) -> T,
    pub add: spec_fn(T, T) -> T,
    pub sub: spec_fn(T, T) -> T,
    pub mul: spec_fn(T, T) -> T,
    pub div: spec_fn(T, T) -> T,
    pub neg: spec_fn(T) -> T,
    pub sqrt: spec_fn(T) -> T,
    /// Power with exponent 3/2.
    pub pow_3_2: spec_fn(T) -> T,
    pub exp: spec_fn(T) -> T,
    pub max: spec_fn(T, T) -> T,
    /// Neutral element of `max`.
    pub lowest: T,
    pub le: spec_fn(T, T) -> bool,
    pub lt: spec_fn(T, T) -> bool,
    /// A norm below this counts as zero.
    pub negligible: T,
    /// Whether two sums of so many products, whose sizes add up to the third value, agree up
    /// to rounding.
    pub close: spec_fn(T, T, T, nat) -> bool,
    /// Two Gaussian values from two 24-bit uniform values and a standard deviation.
    pub gauss_pair: spec_fn(u32, u32, T) -> (T, T),
    /// A standard normal value drawn from a stream, and the stream after it.
    pub normal: spec_fn(rng::RngState) -> (T, rng::RngState),
    /// A value drawn uniformly between two bounds, and the stream after it.
    pub uniform: spec_fn(T, T, rng::RngState) -> (T, rng::RngState),
    /// The unnormalised type-IV cosine transform of a column.
    pub dct4: spec_fn(Seq<T>) -> Seq<T>,
    /// A number as it is printed.
    pub show: spec_fn(T) -> Seq<char>,
}

impl<T> Ops<T> {
    pub open spec fn zero(self) -> T {
        (self.from_int)(0)
    }

    pub open spec fn one(self) -> T {
        (self.from_int)(1)
    }

    pub open spec fn two(self) -> T {
        (self.from_int)(2)
    }

    /// Size of a number: the larger of it and its negation.
    pub open spec fn abs(self, x: T) -> T {
        (self.max)(x, (self.neg)(x))
    }

    /// Neither below zero nor above it.
    pub open spec fn is_zero(self, x: T) -> bool {
        (self.le)(x, self.zero()) && (self.le)(self.zero(), x)
    }
}

/// A number type that the protocol can run on. Each operation is a function of its
/// arguments, given by [`Ops`]; no algebraic law is asked of it.
pub trait Scalar: Copy {
    spec fn ops() -> Ops<Self>;

    fn from_int(i: i64) -> (r: Self)
        ensures
            r == (Self::ops().from_int)(i as int),
    ;

    fn from_count(n: usize) -> (r: Self)
        ensures
            r == (Self::ops().from_int)(n as int),
    ;

    fn plus(self, other: Self) -> (r: Self)
        ensures
            r == (Self::ops().add)(self, other),
    ;

    fn minus(self, other: Self) -> (r: Self)
        ensures
            r == (Self::ops().sub)(self, other),
    ;

    fn times(self, other: Self) -> (r: Self)
        ensures
            r == (Self::ops().mul)(self, other),
    ;

    fn over(self, other: Self) -> (r: Self)
        ensures
            r == (Self::ops().div)(self, other),
    ;

    fn negated(self) -> (r: Self)
        ensures
            r == (Self::ops().neg)(self),
    ;

    fn square_root(self) -> (r: Self)
        ensures
            r == (Self::ops().sqrt)(self),
    ;

    fn three_halves_power(self) -> (r: Self)
        ensures
            r == (Self::ops().pow_3_2)(self),
    ;

    fn exponential(self) -> (r: Self)
        ensures
            r == (Self::ops().exp)(self),
    ;

    fn larger(self, other: Self) -> (r: Self)
        ensures
            r == (Self::ops().max)(self, other),
    ;

    fn lowest() -> (r: Self)
        ensures
            r == Self::ops().lowest,
    ;

    fn at_most(self, other: Self) -> (r: bool)
        ensures
            r == (Self::ops().le)(self, other),
    ;

    fn below(self, other: Self) -> (r: bool)
        ensures
            r == (Self::ops().lt)(self, other),
    ;

    fn negligible() -> (r: Self)
        ensures
            r == Self::ops().negligible,
    ;

    fn agrees_with(self, other: Self, size: Self, terms: usize) -> (r: bool)
        ensures
            r == (Self::ops().close)(self, other, size, terms as nat),
    ;

    fn gaussian_pair(u: u32, v: u32, sigma: Self) -> (r: (Self, Self))
        ensures
            r == (Self::ops().gauss_pair)(u, v, sigma),
    ;

    fn standard_normal(rng: &mut MaskRng) -> (r: Self)
        ensures
            (r, final(rng)@) == (Self::ops().normal)(old(rng)@),
    ;

    fn uniform_between(lo: Self, hi: Self, rng: &mut MaskRng) -> (r: Self)
        ensures
            (r, final(rng)@) == (Self::ops().uniform)(lo, hi, old(rng)@),
    ;

    fn cosine_transform(column: Vec<Self>) -> (r: Vec<Self>)
        ensures
            r@ == (Self::ops().dct4)(column@),
            r@.len() == column@.len(),
    ;

    fn shown(self) -> (r: String)
        ensures
            r@ == (Self::ops().show)(self),
    ;
}

/// Largest integer whose square does not exceed `x`.
pub open spec fn is_floor_sqrt(x: int, r: int) -> bool {
    &&& 0 <= r
    &&& r * r <= x
    &&& x < (r + 1) * (r + 1)
}

/// Floor of the square root of a non-negative integer; zero for a negative one.
pub open spec fn floor_sqrt(x: i64) -> i64 {
    if x < 0 {
        0
    } else {
        choose|r: i64| is_floor_sqrt(x as int, r as int)
    }
}

proof fn lemma_floor_sqrt_unique(x: int, a: int, b: int)
    requires
        is_floor_sqrt(x, a),
        is_floor_sqrt(x, b),
    ensures
        a == b,
{
    if a < b {
        assert((a + 1) * (a + 1) <= b * b) by (nonlinear_arith)
            requires
                0 <= a < b,
        ;
    }
    if b < a {
        assert((b + 1) * (b + 1) <= a * a) by (nonlinear_arith)
            requires
                0 <= b < a,
        ;
    }
}

/// Computes [`floor_sqrt`] by bisection.
fn floor_sqrt_i64(x: i64) -> (r: i64)
    ensures
        r == floor_sqrt(x),
{
    if x < 0 {
        return 0;
    }
    let mut lo: i64 = 0;
    let mut hi: i64 = 3037000500;
    assert(x < 3037000500int * 3037000500int);
    while hi - lo > 1
        invariant
            0 <= lo < hi <= 3037000500,
            lo * lo <= x,
            x < hi * hi,
        decreases hi - lo,
    {
        let mid: i64 = lo + (hi - lo) / 2;
        assert(0 <= mid * mid <= 3037000499int * 3037000499int) by (nonlinear_arith)
            requires
                0 <= mid <= 3037000499,
        ;
        if mid * mid <= x {
            lo = mid;
        } else {
            hi = mid;
        }
    }
    proof {
        assert(is_floor_sqrt(x as int, lo as int));
        let c = choose|r: i64| is_floor_sqrt(x as int, r as int);
        lemma_floor_sqrt_unique(x as int, lo as int, c as int);
    }
    lo
}

/// Arithmetic of 64-bit integers modulo 2^64. Division truncates and yields zero where it
/// is undefined; the exponential is its hard limit, one from zero upwards and zero below.
pub open spec fn wrapping_ops() -> Ops<i64> {
    Ops {
        from_int: |i: int| i as i64,
        add: |a: i64, b: i64| a.wrapping_add(b),
        sub: |a: i64, b: i64| a.wrapping_sub(b),
        mul: |a: i64, b: i64| a.wrapping_mul(b),
        div: |a: i64, b: i64|
            match a.checked_div(b) {
                Some(q) => q,
                None => 0,
            },
        neg: |a: i64| 0i64.wrapping_sub(a),
        sqrt: |a: i64| floor_sqrt(a),
        pow_3_2: |a: i64| a.wrapping_mul(floor_sqrt(a)),
        exp: |a: i64|
            if a < 0 {
                0i64
            } else {
                1i64
            },
        max: |a: i64, b: i64|
            if a < b {
                b
            } else {
                a
            },
        lowest: i64::MIN,
        le: |a: i64, b: i64| a <= b,
        lt: |a: i64, b: i64| a < b,
        negligible: 1i64,
        close: |a: i64, b: i64, size: i64, terms: nat| a == b,
        gauss_pair: |u: u32, v: u32, sigma: i64|
            (sigma.wrapping_mul(u as i64), sigma.wrapping_mul(v as i64)),
        normal: |s: rng::RngState| (rng::word(s) as i64, rng::skip(s, 1)),
        uniform: |lo: i64, hi: i64, s: rng::RngState| (lo, s),
        dct4: |c: Seq<i64>| c,
        show: |a: i64| text::signed(a as int),
    }
}

impl Scalar for i64 {
    open spec fn ops() -> Ops<i64> {
        wrapping_ops()
    }

    fn from_int(i: i64) -> (r: i64) {
        i
    }

    fn from_count(n: usize) -> (r: i64) {
        n as i64
    }

    fn plus(self, other: i64) -> (r: i64) {
        self.wrapping_add(other)
    }

    fn minus(self, other: i64) -> (r: i64) {
        self.wrapping_sub(other)
    }

    fn times(self, other: i64) -> (r: i64) {
        self.wrapping_mul(other)
    }

    fn over(self, other: i64) -> (r: i64) {
        match self.checked_div(other) {
            Some(q) => q,
            None => 0,
        }
    }

    fn negated(self) -> (r: i64) {
        0i64.wrapping_sub(self)
    }

    fn square_root(self) -> (r: i64) {
        floor_sqrt_i64(self)
    }

    fn three_halves_power(self) -> (r: i64) {
        self.wrapping_mul(floor_sqrt_i64(self))
    }

    fn exponential(self) -> (r: i64) {
        if self < 0 {
            0
        } else {
            1
        }
    }

    fn larger(self, other: i64) -> (r: i64) {
        if self < other {
            other
        } else {
            self
        }
    }

    fn lowest() -> (r: i64) {
        i64::MIN
    }

    fn at_most(self, other: i64) -> (r: bool) {
        self <= other
    }

    fn below(self, other: i64) -> (r: bool) {
        self < other
    }

    fn negligible() -> (r: i64) {
        1
    }

    fn agrees_with(self, other: i64, _size: i64, _terms: usize) -> (r: bool) {
        self == other
    }

    fn gaussian_pair(u: u32, v: u32, sigma: i64) -> (r: (i64, i64)) {
        (sigma.wrapping_mul(u as i64), sigma.wrapping_mul(v as i64))
    }

    fn standard_normal(rng: &mut MaskRng) -> (r: i64) {
        rng.next_u32() as i64
    }

    fn uniform_between(lo: i64, hi: i64, rng: &mut MaskRng) -> (r: i64) {
        lo
    }

    fn cosine_transform(column: Vec<i64>) -> (r: Vec<i64>) {
        column
    }

    fn shown(self) -> (r: String) {
        let mut out: String = String::new();
        text::push_signed(&mut out, self);
        assert(out@ =~= text::signed(self as int));
        out
    }
}

/// Within the range of a machine word the integers compute exactly, and compare as they should.
pub proof fn law_integers_compute_exactly(a: i64, b: i64)
    ensures
        ({
            let ops = wrapping_ops();
            &&& i64::MIN <= a + b <= i64::MAX ==> (ops.add)(a, b) == a + b
            &&& i64::MIN <= a - b <= i64::MAX ==> (ops.sub)(a, b) == a - b
            &&& i64::MIN <= a * b <= i64::MAX ==> (ops.mul)(a, b) == a * b
            &&& a >= 0 && b > 0 ==> (ops.div)(a, b) == a as int / b as int
            &&& a > i64::MIN ==> (ops.neg)(a) == -a
            &&& (ops.from_int)(a as int) == a
            &&& (ops.max)(a, b) >= a && (ops.max)(a, b) >= b
            &&& (ops.max)(a, b) == a || (ops.max)(a, b) == b
            &&& (ops.le)(a, b) == (a <= b)
            &&& (ops.lt)(a, b) == (a < b)
            &&& (ops.le)(ops.lowest, a)
            &&& forall|size: i64, terms: nat| #[trigger] (ops.close)(a, b, size, terms) == (a == b)
        }),
{
}

} // verus!
