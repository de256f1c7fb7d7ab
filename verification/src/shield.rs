//! Shield rows: high-energy noise stacked under the data before masking, so that the
//! masked operand does not give away the inner products of the data.

use vstd::prelude::*;

use crate::gaussian;
use crate::matrix;
use crate::matrix::Matrix;
use crate::pow2;
use crate::rng;
use crate::rng::MaskRng;
use crate::scalar::{Ops, Scalar};

verus! {

/// How many shield rows to stack, and their energy relative to the data.
#[derive(Debug)]
pub struct ShieldConfig<T> {
    pub k: usize,
    pub energy_scale: T,
}

impl<T: Copy> Clone for ShieldConfig<T> {
    fn clone(&self) -> (r: ShieldConfig<T>)
        ensures
            r == *self,
    {
        *self
    }
}

impl<T: Copy> Copy for ShieldConfig<T> {

}

impl<T: Scalar> ShieldConfig<T> {
    /// No shield.
    pub fn none() -> (r: ShieldConfig<T>)
        ensures
            r == no_shield(T::ops()),
    {
        ShieldConfig { k: 0, energy_scale: T::from_int(0) }
    }

    /// `k` rows at this energy.
    pub fn new(k: usize, energy_scale: T) -> (r: ShieldConfig<T>)
        ensures
            r == (ShieldConfig { k, energy_scale }),
    {
        ShieldConfig { k, energy_scale }
    }

    /// Whether there are shield rows at all.
    pub fn enabled(&self) -> (r: bool)
        ensures
            r == (self.k > 0),
    {
        self.k > 0
    }
}

impl<T: Scalar> Default for ShieldConfig<T> {
    fn default() -> (r: ShieldConfig<T>)
        ensures
            r == no_shield(T::ops()),
    {
        ShieldConfig::none()
    }
}

/// No shield.
pub open spec fn no_shield<T>(ops: Ops<T>) -> ShieldConfig<T> {
    ShieldConfig { k: 0, energy_scale: ops.zero() }
}

/// Number of shield rows that lands `n` data rows on a power of two, at least `k_base`:
/// `n` and the rows together are the least power of two that holds `n + k_base` rows.
pub fn shield_k_for_batch(n: usize, k_base: usize) -> (k: usize)
    requires
        pow2::next_pow2((n + k_base) as nat) <= usize::MAX,
    ensures
        k >= k_base,
        pow2::is_next_pow2((n + k_base) as nat, (n + k) as nat),
{
    proof {
        pow2::lemma_next_pow2((n + k_base) as nat);
    }
    let stacked: usize = pow2::next_power_of_two(n + k_base);
    stacked - n
}

/// Euclidean norm of a row.
pub open spec fn row_norm<T>(ops: Ops<T>, row: Seq<T>) -> T {
    (ops.sqrt)(matrix::dot(ops, row, row, row.len()))
}

/// Sum of the norms of the first `n` rows.
pub open spec fn norm_sum<T>(ops: Ops<T>, m: Seq<Seq<T>>, n: nat) -> T
    decreases n,
{
    if n == 0 {
        ops.zero()
    } else {
        (ops.add)(norm_sum(ops, m, (n - 1) as nat), row_norm(ops, m[n - 1]))
    }
}

/// Mean norm of the rows; zero without rows.
pub open spec fn mean_norm<T>(ops: Ops<T>, m: Seq<Seq<T>>) -> T {
    if m.len() == 0 {
        ops.zero()
    } else {
        (ops.div)(norm_sum(ops, m, m.len()), (ops.from_int)(m.len() as int))
    }
}

/// Deviation of each shield entry: the energy times the mean norm of the data, spread over
/// `d` entries.
pub open spec fn deviation<T>(ops: Ops<T>, energy_scale: T, m: Seq<Seq<T>>, d: nat) -> T {
    if d == 0 {
        ops.zero()
    } else {
        (ops.div)(
            (ops.mul)(energy_scale, mean_norm(ops, m)),
            (ops.sqrt)((ops.from_int)(d as int)),
        )
    }
}

/// `k` rows of `d` bulk Gaussian values, filled row by row.
pub open spec fn bulk_rows<T>(ops: Ops<T>, s: rng::RngState, k: nat, d: nat, sigma: T) -> Seq<
    Seq<T>,
> {
    Seq::new(
        k,
        |i: int| Seq::new(d, |j: int| gaussian::bulk(ops, s, k * d, sigma)[i * d + j]),
    )
}

/// The data followed by its shield rows.
pub open spec fn stacked<T>(
    ops: Ops<T>,
    m: Seq<Seq<T>>,
    d: nat,
    cfg: ShieldConfig<T>,
    s: rng::RngState,
) -> Seq<Seq<T>> {
    if cfg.k == 0 {
        m
    } else {
        m + bulk_rows(ops, s, cfg.k as nat, d, deviation(ops, cfg.energy_scale, m, d))
    }
}

/// The stream after the shield rows of [`stacked`] have been read from it.
pub open spec fn after_stacked<T>(
    ops: Ops<T>,
    m: Seq<Seq<T>>,
    d: nat,
    cfg: ShieldConfig<T>,
    s: rng::RngState,
) -> rng::RngState {
    if cfg.k == 0 {
        s
    } else {
        rng::skip(
            s,
            gaussian::bulk_words(ops, cfg.k as nat * d, deviation(ops, cfg.energy_scale, m, d)),
        )
    }
}

/// Mean norm of the rows.
pub fn mean_row_norm<T: Scalar>(m: &Matrix<T>) -> (r: T)
    ensures
        r == mean_norm(T::ops(), m@),
{
    let n: usize = m.nrows();
    if n == 0 {
        return T::from_int(0);
    }
    let mut acc: T = T::from_int(0);
    for i in 0..n
        invariant
            n == m@.len(),
            acc == norm_sum(T::ops(), m@, i as nat),
    {
        let row = m.row(i);
        let mut squares: T = T::from_int(0);
        for j in 0..row.len()
            invariant
                squares == matrix::dot(T::ops(), row@, row@, j as nat),
        {
            squares = squares.plus(row[j].times(row[j]));
        }
        acc = acc.plus(squares.square_root());
    }
    acc.over(T::from_count(n))
}

/// Deviation of each shield entry for this data.
pub fn shield_deviation<T: Scalar>(energy_scale: T, hidden: &Matrix<T>) -> (r: T)
    ensures
        r == deviation(T::ops(), energy_scale, hidden@, hidden.width()),
{
    let d: usize = hidden.ncols();
    if d == 0 {
        T::from_int(0)
    } else {
        energy_scale.times(mean_row_norm(hidden)).over(T::from_count(d).square_root())
    }
}

proof fn lemma_cell(i: int, j: int, k: nat, d: nat)
    requires
        0 <= i < k,
        0 <= j < d,
    ensures
        0 <= i * d + j < k * d,
{
    assert(0 <= i * d + j < k * d) by (nonlinear_arith)
        requires
            0 <= i < k,
            0 <= j < d,
    ;
}

/// Stacks the shield rows under the data; the second result is the number of data rows.
pub fn stack_shield<T: Scalar>(hidden: &Matrix<T>, cfg: ShieldConfig<T>, rng: &mut MaskRng) -> (r: (
    Matrix<T>,
    usize,
))
    requires
        hidden@.len() + cfg.k <= usize::MAX,
        cfg.k * hidden.width() <= usize::MAX,
    ensures
        r.0@ == stacked(T::ops(), hidden@, hidden.width(), cfg, old(rng)@),
        r.0@.len() == hidden@.len() + cfg.k,
        r.0.width() == hidden.width(),
        r.1 == hidden@.len(),
        final(rng)@ == after_stacked(T::ops(), hidden@, hidden.width(), cfg, old(rng)@),
{
    let n: usize = hidden.nrows();
    if !cfg.enabled() {
        return (hidden.copied(), n);
    }
    let d: usize = hidden.ncols();
    let sigma: T = shield_deviation(cfg.energy_scale, hidden);
    let ghost start = rng@;
    let ghost target = bulk_rows(T::ops(), start, cfg.k as nat, d as nat, sigma);
    let mut slab: Vec<T> = matrix::filled_row(T::from_int(0), cfg.k * d);
    gaussian::fill_gaussian(&mut slab, sigma, rng);
    let mut rows: Vec<Vec<T>> = Vec::new();
    for i in 0..cfg.k
        invariant
            cfg.k * d <= usize::MAX,
            slab@ == gaussian::bulk(T::ops(), start, (cfg.k * d) as nat, sigma),
            target == bulk_rows(T::ops(), start, cfg.k as nat, d as nat, sigma),
            rows@.len() == i,
            forall|a: int| 0 <= a < i ==> #[trigger] rows@[a]@ == target[a],
            forall|a: int| 0 <= a < i ==> #[trigger] rows@[a]@.len() == d,
    {
        let mut row: Vec<T> = Vec::new();
        for j in 0..d
            invariant
                i < cfg.k,
                cfg.k * d <= usize::MAX,
                slab@ == gaussian::bulk(T::ops(), start, (cfg.k * d) as nat, sigma),
                target == bulk_rows(T::ops(), start, cfg.k as nat, d as nat, sigma),
                row@.len() == j,
                forall|b: int| 0 <= b < j ==> #[trigger] row@[b] == target[i as int][b],
        {
            proof {
                lemma_cell(i as int, j as int, cfg.k as nat, d as nat);
                lemma_cell(i as int, 0, cfg.k as nat, d as nat);
            }
            row.push(slab[i * d + j]);
        }
        assert(row@ =~= target[i as int]);
        rows.push(row);
    }
    let shield: Matrix<T> = Matrix::of_rows(rows, d);
    assert(shield@ =~= target);
    (hidden.stacked_on(&shield), n)
}

/// The data is what stands above the shield.
pub proof fn law_shield_keeps_the_data<T>(
    ops: Ops<T>,
    m: Seq<Seq<T>>,
    d: nat,
    cfg: ShieldConfig<T>,
    s: rng::RngState,
)
    ensures
        stacked(ops, m, d, cfg, s).take(m.len() as int) == m,
        stacked(ops, m, d, cfg, s).len() == m.len() + cfg.k,
{
    assert(stacked(ops, m, d, cfg, s).take(m.len() as int) =~= m);
}

} // verus!
