//! The two sides of the split: the engine that is not trusted, and the executor that is.

use std::sync::Arc;

use vstd::prelude::*;

use crate::attention;
use crate::attention::AttentionMask;
use crate::error::OffloadError;
use crate::executor;
use crate::matrix;
use crate::matrix::{Matrix, Tensor3};
use crate::ple::PleTable;
use crate::scalar::Scalar;
use crate::softmax;

verus! {

/// Which projection of a transformer block a weight belongs to.
#[derive(Debug, Clone, Copy, Hash, Eq, PartialEq, Structural)]
pub enum WeightKind {
    Q,
    K,
    V,
    O,
    FfnGate,
    FfnUp,
    FfnDown,
}

/// Identifies a projection weight: its layer and its kind.
#[derive(Debug, Clone, Copy, Hash, Eq, PartialEq, Structural)]
pub struct WeightHandle {
    pub layer: u16,
    pub kind: WeightKind,
}

impl WeightHandle {
    pub fn new(layer: u16, kind: WeightKind) -> (r: WeightHandle)
        ensures
            r == (WeightHandle { layer, kind }),
    {
        WeightHandle { layer, kind }
    }
}

/// `r` is an answer that the engine may give to a product with a registered weight.
pub open spec fn answers<T: Scalar, E: GpuOffloadEngine<T>>(
    engine: &E,
    handle: WeightHandle,
    input: &Matrix<T>,
    r: Result<Matrix<T>, OffloadError>,
) -> bool {
    call_ensures(E::matmul, (engine, handle, input), r)
}

/// `r` is an answer that the engine may give to products with several weights.
pub open spec fn answers_many<T: Scalar, E: GpuOffloadEngine<T>>(
    engine: &E,
    handles: &Vec<WeightHandle>,
    input: &Matrix<T>,
    r: Result<Vec<Matrix<T>>, OffloadError>,
) -> bool {
    call_ensures(E::matmul_many, (engine, handles, input), r)
}

/// `r` is an answer that the engine may give to a product of two operands.
pub open spec fn answers_dynamic<T: Scalar, E: GpuOffloadEngine<T>>(
    engine: &E,
    lhs: &Matrix<T>,
    rhs: &Matrix<T>,
    r: Result<Matrix<T>, OffloadError>,
) -> bool {
    call_ensures(E::matmul_dynamic, (engine, lhs, rhs), r)
}

/// `r` is an answer that the engine may give to a product of two stacks.
pub open spec fn answers_batched<T: Scalar, E: GpuOffloadEngine<T>>(
    engine: &E,
    lhs: &Tensor3<T>,
    rhs: &Tensor3<T>,
    r: Result<Tensor3<T>, OffloadError>,
) -> bool {
    call_ensures(E::matmul_dynamic_batched, (engine, lhs, rhs), r)
}

/// The accelerator that is not trusted. Nothing is asked of its answers.
pub trait GpuOffloadEngine<T: Scalar>: Sized {
    /// Takes a public weight, of shape `(in_features, out_features)`.
    fn register_weight(&mut self, handle: WeightHandle, weight: &Matrix<T>) -> Result<
        (),
        OffloadError,
    >;

    /// Takes a public weight whose storage is shared.
    fn register_weight_shared(&mut self, handle: WeightHandle, weight: Arc<Matrix<T>>) -> (r:
        Result<(), OffloadError>)
        default_ensures
            exists|engine: &mut Self|
                {
                    &&& *engine == *old(self)
                    &&& *final(engine) == *final(self)
                    &&& #[trigger] call_ensures(Self::register_weight, (engine, handle, &*weight), r)
                },
    {
        self.register_weight(handle, &weight)
    }

    /// Asked for the product of `input` with a registered weight.
    fn matmul(&self, handle: WeightHandle, input: &Matrix<T>) -> Result<Matrix<T>, OffloadError>;

    /// Asked for the products of one input with several weights, in order.
    fn matmul_many(&self, handles: &Vec<WeightHandle>, input: &Matrix<T>) -> (r: Result<
        Vec<Matrix<T>>,
        OffloadError,
    >)
        default_ensures
            match r {
                Ok(outs) => {
                    &&& outs@.len() == handles@.len()
                    &&& forall|i: int|
                        0 <= i < handles@.len() ==> #[trigger] call_ensures(
                            Self::matmul,
                            (self, handles@[i], input),
                            Ok::<Matrix<T>, OffloadError>(outs@[i]),
                        )
                },
                Err(e) => exists|first: Seq<Matrix<T>>|
                    {
                        &&& #[trigger] first.len() < handles@.len()
                        &&& forall|i: int|
                            0 <= i < first.len() ==> #[trigger] call_ensures(
                                Self::matmul,
                                (self, handles@[i], input),
                                Ok::<Matrix<T>, OffloadError>(first[i]),
                            )
                        &&& call_ensures(
                            Self::matmul,
                            (self, handles@[first.len() as int], input),
                            Err::<Matrix<T>, OffloadError>(e),
                        )
                    },
            },
    {
        let mut outs: Vec<Matrix<T>> = Vec::new();
        for i in 0..handles.len()
            invariant
                outs@.len() == i,
                forall|j: int|
                    0 <= j < i ==> #[trigger] call_ensures(
                        Self::matmul,
                        (self, handles@[j], input),
                        Ok::<Matrix<T>, OffloadError>(outs@[j]),
                    ),
        {
            let answer = self.matmul(handles[i], input);
            assert(call_ensures(Self::matmul, (self, handles@[i as int], input), answer));
            assert(outs@.len() < handles@.len());
            match answer {
                Ok(m) => {
                    outs.push(m);
                },
                Err(e) => {
                    return Err(e);
                },
            }
        }
        Ok(outs)
    }

    /// Asked for the product of two operands that it has not seen before.
    fn matmul_dynamic(&self, lhs: &Matrix<T>, rhs: &Matrix<T>) -> Result<Matrix<T>, OffloadError>;

    /// Asked for the products of the matrices of two stacks.
    fn matmul_dynamic_batched(&self, lhs: &Tensor3<T>, rhs: &Tensor3<T>) -> (r: Result<
        Tensor3<T>,
        OffloadError,
    >)
        default_ensures
            rhs@.len() != lhs@.len() || rhs.height() != lhs.width() ==> r == Err::<
                Tensor3<T>,
                OffloadError,
            >(
                OffloadError::MatmulBatchedShape {
                    lhs: (lhs@.len() as usize, lhs.height() as usize, lhs.width() as usize),
                    rhs: (rhs@.len() as usize, rhs.height() as usize, rhs.width() as usize),
                },
            ),
            r matches Ok(out) ==> exists|answers: Seq<Matrix<T>>|
                {
                    &&& #[trigger] answers.len() == lhs@.len()
                    &&& out.regular()
                    &&& out@.len() == lhs@.len()
                    &&& out.height() == lhs.height()
                    &&& out.width() == rhs.width()
                    &&& forall|h: int|
                        #![trigger answers[h]]
                        #![trigger out.slice(h)]
                        0 <= h < lhs@.len() ==> {
                            &&& call_ensures(
                                Self::matmul_dynamic,
                                (self, &lhs.slice(h), &rhs.slice(h)),
                                Ok::<Matrix<T>, OffloadError>(answers[h]),
                            )
                            &&& matrix::spreads(answers[h], lhs.height(), rhs.width())
                            &&& matrix::is_spread(
                                answers[h],
                                lhs.height(),
                                rhs.width(),
                                out.slice(h),
                            )
                        }
                },
            r matches Err(e) ==> {
                ||| rhs@.len() != lhs@.len() || rhs.height() != lhs.width()
                ||| exists|answers: Seq<Matrix<T>>, answer: Result<Matrix<T>, OffloadError>|
                    {
                        &&& #[trigger] answers.len() < lhs@.len()
                        &&& forall|h: int|
                            0 <= h < answers.len() ==> {
                                &&& matrix::spreads(
                                    #[trigger] answers[h],
                                    lhs.height(),
                                    rhs.width(),
                                )
                                &&& call_ensures(
                                    Self::matmul_dynamic,
                                    (self, &lhs.slice(h), &rhs.slice(h)),
                                    Ok::<Matrix<T>, OffloadError>(answers[h]),
                                )
                            }
                        &&& #[trigger] call_ensures(
                            Self::matmul_dynamic,
                            (
                                self,
                                &lhs.slice(answers.len() as int),
                                &rhs.slice(answers.len() as int),
                            ),
                            answer,
                        )
                        &&& match answer {
                            Err(f) => e == f,
                            Ok(z) => e == OffloadError::AnswerShape && !matrix::spreads(
                                z,
                                lhs.height(),
                                rhs.width(),
                            ),
                        }
                    }
            },
    {
        let (b, m, k) = lhs.dim();
        let (rb, rk, n) = rhs.dim();
        if rb != b || rk != k {
            return Err(OffloadError::MatmulBatchedShape { lhs: (b, m, k), rhs: (rb, rk, n) });
        }
        let mut outs: Vec<Matrix<T>> = Vec::new();
        let ghost mut answers: Seq<Matrix<T>> = seq![];
        for i in 0..b
            invariant
                b == lhs@.len(),
                b == rhs@.len(),
                m == lhs.height(),
                n == rhs.width(),
                rhs.height() == lhs.width(),
                outs@.len() == i,
                answers.len() == i,
                forall|h: int|
                    #![trigger answers[h]]
                    #![trigger outs@[h]]
                    0 <= h < i ==> {
                        &&& call_ensures(
                            Self::matmul_dynamic,
                            (self, &lhs.slice(h), &rhs.slice(h)),
                            Ok::<Matrix<T>, OffloadError>(answers[h]),
                        )
                        &&& matrix::spreads(answers[h], m as nat, n as nat)
                        &&& matrix::is_spread(answers[h], m as nat, n as nat, outs@[h])
                        &&& outs@[h]@.len() == m
                        &&& outs@[h].width() == n
                    },
        {
            let answer = self.matmul_dynamic(lhs.head(i), rhs.head(i));
            assert(call_ensures(
                Self::matmul_dynamic,
                (self, &lhs.slice(i as int), &rhs.slice(i as int)),
                answer,
            ));
            assert(answers.len() < lhs@.len());
            let z: Matrix<T> = match answer {
                Ok(z) => z,
                Err(e) => {
                    return Err(e);
                },
            };
            let ghost given = z;
            match matrix::spread(z, m, n) {
                Some(out) => {
                    outs.push(out);
                },
                None => {
                    return Err(OffloadError::AnswerShape);
                },
            }
            proof {
                answers = answers.push(given);
            }
        }
        let out: Tensor3<T> = Tensor3::of_heads(outs, m, n);
        assert(answers.len() == lhs@.len());
        Ok(out)
    }

    /// Asked for the softmax of every row of a stack.
    fn softmax_batched(&self, input: &Tensor3<T>) -> (r: Result<Tensor3<T>, OffloadError>)
        default_ensures
            r matches Ok(out) && {
                &&& out@ == Seq::new(
                    input@.len(),
                    |h: int| softmax::softmax_rows(T::ops(), input@[h]),
                )
                &&& out.height() == input.height()
                &&& out.width() == input.width()
            },
    {
        Ok(softmax::softmax_stack(input))
    }
}

/// How an executor goes on from asking for the product of queries and transposed keys: by a
/// step of its own, or by what its engine answers to the plain operands.
pub open spec fn scores_step<T: Scalar, E: GpuOffloadEngine<T>, S>(
    own_step: bool,
    engine: &E,
    q: &Matrix<T>,
    kt: &Matrix<T>,
    before: S,
    after: S,
    r: Result<Matrix<T>, OffloadError>,
) -> bool {
    own_step || (answers_dynamic(engine, q, kt, r) && after == before)
}

/// The trusted side: masks what the engine sees and recovers the product from its answer.
pub trait TrustedExecutor<T: Scalar>: Sized {
    /// The engine that the executor hands its work to.
    type Engine: GpuOffloadEngine<T>;

    /// The engine of an executor.
    spec fn engine_of(self) -> Self::Engine;

    /// The engine that the executor hands its work to.
    fn offload_engine(&self) -> (r: &Self::Engine)
        ensures
            *r == self.engine_of(),
    ;

    /// How one offloaded projection takes the executor from one state to the next.
    spec fn linear_step(
        before: Self,
        handle: WeightHandle,
        hidden: Matrix<T>,
        after: Self,
        r: Result<Matrix<T>, OffloadError>,
    ) -> bool;

    /// How one product of queries and transposed keys takes an executor that has a way of its own
    /// from one state to the next.
    spec fn qkt_step(
        before: Self,
        q: Matrix<T>,
        kt: Matrix<T>,
        after: Self,
        r: Result<Matrix<T>, OffloadError>,
    ) -> bool;

    /// Hands a public weight to the engine.
    fn provision_weight(&mut self, handle: WeightHandle, weight: &Matrix<T>) -> Result<
        (),
        OffloadError,
    >;

    /// Hands a public weight to the engine whose storage is shared.
    fn provision_weight_shared(&mut self, handle: WeightHandle, weight: Arc<Matrix<T>>) -> (r:
        Result<(), OffloadError>)
        default_ensures
            exists|executor: &mut Self|
                {
                    &&& *executor == *old(self)
                    &&& *final(executor) == *final(self)
                    &&& #[trigger] call_ensures(
                        Self::provision_weight,
                        (executor, handle, &*weight),
                        r,
                    )
                },
    {
        self.provision_weight(handle, &weight)
    }

    /// Hands a public weight to the engine that was widened from half precision.
    fn provision_weight_bf16(&mut self, handle: WeightHandle, weight: &Matrix<T>) -> Result<
        (),
        OffloadError,
    >;

    /// Hands a widened weight to the engine whose storage is shared.
    fn provision_weight_bf16_shared(&mut self, handle: WeightHandle, weight: Arc<Matrix<T>>) -> (r:
        Result<(), OffloadError>)
        default_ensures
            exists|executor: &mut Self|
                {
                    &&& *executor == *old(self)
                    &&& *final(executor) == *final(self)
                    &&& #[trigger] call_ensures(
                        Self::provision_weight_bf16,
                        (executor, handle, &*weight),
                        r,
                    )
                },
    {
        self.provision_weight_bf16(handle, &weight)
    }

    /// Opens a forward pass over `n` tokens.
    fn begin_forward_pass(&mut self, _n: usize) -> (r: Result<(), OffloadError>)
        default_ensures
            r == Ok::<(), OffloadError>(()),
            *final(self) == *old(self),
    {
        Ok(())
    }

    /// Closes the forward pass.
    fn end_forward_pass(&mut self) -> (r: Result<(), OffloadError>)
        default_ensures
            r == Ok::<(), OffloadError>(()),
            *final(self) == *old(self),
    {
        Ok(())
    }

    /// Moves to an independent stream of randomness.
    fn set_rng_stream(&mut self, _stream: u64)
        default_ensures
            *final(self) == *old(self),
    {
    }

    /// One projection: `hidden` times a registered weight.
    fn offload_linear(&mut self, handle: WeightHandle, hidden: &Matrix<T>) -> (r: Result<
        Matrix<T>,
        OffloadError,
    >)
        ensures
            Self::linear_step(*old(self), handle, *hidden, *final(self), r),
    ;

    /// The query, key and value projections of one input.
    fn offload_qkv(&mut self, layer: u16, hidden: &Matrix<T>) -> (r: Result<
        (Matrix<T>, Matrix<T>, Matrix<T>),
        OffloadError,
    >)
        default_ensures
            exists|states: Seq<Self>, outs: Seq<Matrix<T>>|
                {
                    &&& #[trigger] states.len() == outs.len() + 1
                    &&& #[trigger] outs.len() <= 3
                    &&& states[0] == *old(self)
                    &&& forall|i: int|
                        #![trigger outs[i]]
                        0 <= i < outs.len() ==> Self::linear_step(
                            states[i],
                            executor::qkv_handles(layer)[i],
                            *hidden,
                            states[i + 1],
                            Ok::<Matrix<T>, OffloadError>(outs[i]),
                        )
                    &&& match r {
                        Ok(t) => outs =~= seq![t.0, t.1, t.2] && states.last() == *final(self),
                        Err(e) => outs.len() < 3 && Self::linear_step(
                            states.last(),
                            executor::qkv_handles(layer)[outs.len() as int],
                            *hidden,
                            *final(self),
                            Err::<Matrix<T>, OffloadError>(e),
                        ),
                    }
                },
    {
        let ghost s0 = *self;
        let ghost none: Seq<Matrix<T>> = Seq::empty();
        assert(seq![s0].len() == none.len() + 1 && none.len() <= 3);
        let q = match self.offload_linear(WeightHandle::new(layer, WeightKind::Q), hidden) {
            Ok(m) => m,
            Err(e) => {
                return Err(e);
            },
        };
        let ghost s1 = *self;
        assert(seq![s0, s1].len() == seq![q].len() + 1 && seq![q].len() <= 3);
        let k = match self.offload_linear(WeightHandle::new(layer, WeightKind::K), hidden) {
            Ok(m) => m,
            Err(e) => {
                return Err(e);
            },
        };
        let ghost s2 = *self;
        assert(seq![s0, s1, s2].len() == seq![q, k].len() + 1 && seq![q, k].len() <= 3);
        let v = match self.offload_linear(WeightHandle::new(layer, WeightKind::V), hidden) {
            Ok(m) => m,
            Err(e) => {
                return Err(e);
            },
        };
        assert(seq![s0, s1, s2, *self].len() == seq![q, k, v].len() + 1 && seq![q, k, v].len() <= 3);
        Ok((q, k, v))
    }

    /// Several projections of one input, in order.
    fn offload_linear_many(&mut self, handles: &Vec<WeightHandle>, hidden: &Matrix<T>) -> (r:
        Result<Vec<Matrix<T>>, OffloadError>)
        default_ensures
            exists|states: Seq<Self>, outs: Seq<Matrix<T>>|
                {
                    &&& #[trigger] states.len() == outs.len() + 1
                    &&& #[trigger] outs.len() <= handles@.len()
                    &&& states[0] == *old(self)
                    &&& forall|i: int|
                        #![trigger outs[i]]
                        0 <= i < outs.len() ==> Self::linear_step(
                            states[i],
                            handles@[i],
                            *hidden,
                            states[i + 1],
                            Ok::<Matrix<T>, OffloadError>(outs[i]),
                        )
                    &&& match r {
                        Ok(all) => {
                            &&& all@ == outs
                            &&& outs.len() == handles@.len()
                            &&& states.last() == *final(self)
                        },
                        Err(e) => outs.len() < handles@.len() && Self::linear_step(
                            states.last(),
                            handles@[outs.len() as int],
                            *hidden,
                            *final(self),
                            Err::<Matrix<T>, OffloadError>(e),
                        ),
                    }
                },
    {
        let mut outs: Vec<Matrix<T>> = Vec::new();
        let ghost mut states: Seq<Self> = seq![*self];
        for i in 0..handles.len()
            invariant
                outs@.len() == i,
                states.len() == i + 1,
                states[0] == *old(self),
                states.last() == *self,
                forall|j: int|
                    #![trigger outs@[j]]
                    0 <= j < i ==> Self::linear_step(
                        states[j],
                        handles@[j],
                        *hidden,
                        states[j + 1],
                        Ok::<Matrix<T>, OffloadError>(outs@[j]),
                    ),
        {
            assert(states.len() == outs@.len() + 1 && outs@.len() <= handles@.len());
            match self.offload_linear(handles[i], hidden) {
                Ok(m) => {
                    outs.push(m);
                },
                Err(e) => {
                    return Err(e);
                },
            }
            proof {
                states = states.push(*self);
            }
        }
        assert(states.len() == outs@.len() + 1 && outs@.len() <= handles@.len());
        Ok(outs)
    }

    /// The product of queries and transposed keys; what the engine answers to the plain operands
    /// unless the executor does better.
    fn offload_attention_qkt(&mut self, q: &Matrix<T>, kt: &Matrix<T>) -> (r: Result<
        Matrix<T>,
        OffloadError,
    >)
        ensures
            scores_step(
                Self::qkt_step(*old(self), *q, *kt, *final(self), r),
                &old(self).engine_of(),
                q,
                kt,
                *old(self),
                *final(self),
                r,
            ),
        default_ensures
            answers_dynamic(&old(self).engine_of(), q, kt, r),
            *final(self) == *old(self),
    {
        self.offload_engine().matmul_dynamic(q, kt)
    }

    /// The products of queries and transposed keys of every head, one head after the other.
    fn offload_attention_qkt_batched(&mut self, q: &Tensor3<T>, kt: &Tensor3<T>) -> (r: Result<
        Tensor3<T>,
        OffloadError,
    >)
        default_ensures
            kt@.len() < q@.len() ==> {
                &&& r == Err::<Tensor3<T>, OffloadError>(
                    OffloadError::OutAttnBatchedShape {
                        q: attention::dims(q),
                        kt: attention::dims(kt),
                    },
                )
                &&& *final(self) == *old(self)
            },
            kt@.len() >= q@.len() ==> exists|states: Seq<Self>, answers: Seq<Matrix<T>>|
                {
                    &&& #[trigger] states.len() == answers.len() + 1
                    &&& #[trigger] answers.len() <= q@.len()
                    &&& states[0] == *old(self)
                    &&& forall|h: int|
                        #![trigger answers[h]]
                        0 <= h < answers.len() ==> {
                            &&& matrix::spreads(answers[h], q.height(), q.height())
                            &&& scores_step(
                                Self::qkt_step(
                                    states[h],
                                    q.slice(h),
                                    kt.slice(h),
                                    states[h + 1],
                                    Ok::<Matrix<T>, OffloadError>(answers[h]),
                                ),
                                &states[h].engine_of(),
                                &q.slice(h),
                                &kt.slice(h),
                                states[h],
                                states[h + 1],
                                Ok::<Matrix<T>, OffloadError>(answers[h]),
                            )
                        }
                    &&& match r {
                        Ok(out) => {
                            &&& answers.len() == q@.len()
                            &&& out@.len() == q@.len()
                            &&& forall|h: int|
                                0 <= h < q@.len() ==> matrix::is_spread(
                                    answers[h],
                                    q.height(),
                                    q.height(),
                                    #[trigger] out.slice(h),
                                )
                            &&& out.regular()
                            &&& out.height() == q.height()
                            &&& out.width() == q.height()
                            &&& states.last() == *final(self)
                        },
                        Err(e) => answers.len() < q@.len() && exists|
                            answer: Result<Matrix<T>, OffloadError>,
                        |
                            {
                                &&& #[trigger] scores_step(
                                    Self::qkt_step(
                                        states[answers.len() as int],
                                        q.slice(answers.len() as int),
                                        kt.slice(answers.len() as int),
                                        *final(self),
                                        answer,
                                    ),
                                    &states[answers.len() as int].engine_of(),
                                    &q.slice(answers.len() as int),
                                    &kt.slice(answers.len() as int),
                                    states[answers.len() as int],
                                    *final(self),
                                    answer,
                                )
                                &&& match answer {
                                    Err(f) => e == f,
                                    Ok(z) => e == OffloadError::AnswerShape && !matrix::spreads(
                                        z,
                                        q.height(),
                                        q.height(),
                                    ),
                                }
                            },
                    }
                },
    {
        let q_dim: (usize, usize, usize) = q.dim();
        let kt_dim: (usize, usize, usize) = kt.dim();
        let (heads, n, _) = q_dim;
        if kt_dim.0 < heads {
            return Err(OffloadError::OutAttnBatchedShape { q: q_dim, kt: kt_dim });
        }
        let mut outs: Vec<Matrix<T>> = Vec::new();
        let ghost mut states: Seq<Self> = seq![*self];
        let ghost mut answers: Seq<Matrix<T>> = seq![];
        for h in 0..heads
            invariant
                heads == q@.len(),
                n == q.height(),
                heads <= kt@.len(),
                outs@.len() == h,
                answers.len() == h,
                states.len() == h + 1,
                states[0] == *old(self),
                states.last() == *self,
                forall|g: int|
                    #![trigger answers[g]]
                    #![trigger outs@[g]]
                    0 <= g < h ==> {
                        &&& matrix::spreads(answers[g], n as nat, n as nat)
                        &&& matrix::is_spread(answers[g], n as nat, n as nat, outs@[g])
                        &&& outs@[g]@.len() == n
                        &&& outs@[g].width() == n
                        &&& scores_step(
                            Self::qkt_step(
                                states[g],
                                q.slice(g),
                                kt.slice(g),
                                states[g + 1],
                                Ok::<Matrix<T>, OffloadError>(answers[g]),
                            ),
                            &states[g].engine_of(),
                            &q.slice(g),
                            &kt.slice(g),
                            states[g],
                            states[g + 1],
                            Ok::<Matrix<T>, OffloadError>(answers[g]),
                        )
                    },
        {
            assert(states.len() == answers.len() + 1 && answers.len() <= q@.len());
            let ghost before = *self;
            let answer = self.offload_attention_qkt(q.head(h), kt.head(h));
            assert(scores_step(
                Self::qkt_step(before, q.slice(h as int), kt.slice(h as int), *self, answer),
                &before.engine_of(),
                &q.slice(h as int),
                &kt.slice(h as int),
                before,
                *self,
                answer,
            ));
            let z: Matrix<T> = match answer {
                Ok(z) => z,
                Err(e) => {
                    return Err(e);
                },
            };
            let ghost given = z;
            match matrix::spread(z, n, n) {
                Some(out) => {
                    outs.push(out);
                },
                None => {
                    return Err(OffloadError::AnswerShape);
                },
            }
            proof {
                states = states.push(*self);
                answers = answers.push(given);
            }
        }
        let out: Tensor3<T> = Tensor3::of_heads(outs, n, n);
        assert(states.len() == answers.len() + 1 && answers.len() <= q@.len());
        Ok(out)
    }

    /// Attention of every head; without any shielding unless the executor does better.
    fn offload_attention_permuted(
        &mut self,
        q: &Tensor3<T>,
        k: &Tensor3<T>,
        v: &Tensor3<T>,
        scale: T,
        mask: AttentionMask,
    ) -> (r: Result<Tensor3<T>, OffloadError>)
        default_ensures
            *final(self) == *old(self),
            attention::plain_run(q, k, v, scale, mask, r),
    {
        attention::plain_attention(q, k, v, scale, mask)
    }

    /// Attention of queries over a longer cache of keys and values.
    fn offload_attention_permuted_cached(
        &mut self,
        _q: &Tensor3<T>,
        _k: &Tensor3<T>,
        _v: &Tensor3<T>,
        _scale: T,
        _q_pos_offset: usize,
        _mask: AttentionMask,
    ) -> (r: Result<Tensor3<T>, OffloadError>)
        default_ensures
            r == Err::<Tensor3<T>, OffloadError>(OffloadError::NotImplemented),
            *final(self) == *old(self),
    {
        Err(OffloadError::NotImplemented)
    }

    /// Takes a per-layer embedding table.
    fn provision_ple_table(&mut self, _table: PleTable<T>) -> (r: Result<(), OffloadError>)
        default_ensures
            r == Err::<(), OffloadError>(OffloadError::PleProvisionNotImplemented),
            *final(self) == *old(self),
    {
        Err(OffloadError::PleProvisionNotImplemented)
    }

    /// Looks tokens up in the per-layer embedding table.
    fn ple_gather(&self, _token_ids: &Vec<u32>, _layer_idx: usize) -> (r: Result<
        Matrix<T>,
        OffloadError,
    >)
        default_ensures
            r == Err::<Matrix<T>, OffloadError>(OffloadError::PleGatherNotProvisioned),
    {
        Err(OffloadError::PleGatherNotProvisioned)
    }
}

} // verus!
