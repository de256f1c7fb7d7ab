//! Per-layer embedding tables, looked up by token on the trusted side.

use vstd::prelude::*;
use vstd::string::*;

use crate::exact;
use crate::matrix;
use crate::matrix::Matrix;
use crate::scalar::{Ops, Scalar};
use crate::text;

verus! {

/// Why a table was refused or a lookup failed.
#[derive(Debug, PartialEq, Eq)]
pub enum PleError {
    NoLayers,
    /// The scale as it is printed.
    ScaleNotPositive(String),
    SizeOverflow,
    SlabSize { layer: usize, len: usize, expected: usize },
    LayerOutOfRange { layer_idx: usize, layers: usize },
    TokenOutOfVocab { token_id: u32, vocab_size: usize },
}

impl PleError {
    /// The error in words.
    pub open spec fn text(self) -> Seq<char> {
        match self {
            PleError::NoLayers => "PleTable: must have at least one layer"@,
            PleError::ScaleNotPositive(scale) => "PleTable: scale must be > 0, got "@ + scale@,
            PleError::SizeOverflow => "PleTable: vocab_size * d_ple overflow"@,
            PleError::SlabSize { layer, len, expected } => "PleTable: layer "@ + text::decimal(
                layer as nat,
            ) + " has "@ + text::decimal(len as nat) + " bytes, expected vocab_size * d_ple = "@
                + text::decimal(expected as nat),
            PleError::LayerOutOfRange { layer_idx, layers } => "PleTable: layer_idx "@
                + text::decimal(layer_idx as nat) + " out of range (have "@ + text::decimal(
                layers as nat,
            ) + ")"@,
            PleError::TokenOutOfVocab { token_id, vocab_size } => "PleTable: token_id "@
                + text::decimal(token_id as nat) + " out of vocab range (vocab_size = "@
                + text::decimal(vocab_size as nat) + ")"@,
        }
    }

    /// The error in words.
    pub fn message(&self) -> (r: String)
        ensures
            r@ == self.text(),
    {
        let mut out: String = String::new();
        match self {
            PleError::NoLayers => {
                out.append("PleTable: must have at least one layer");
            },
            PleError::ScaleNotPositive(scale) => {
                out.append("PleTable: scale must be > 0, got ");
                out.append(scale.as_str());
            },
            PleError::SizeOverflow => {
                out.append("PleTable: vocab_size * d_ple overflow");
            },
            PleError::SlabSize { layer, len, expected } => {
                out.append("PleTable: layer ");
                text::push_decimal(&mut out, *layer);
                out.append(" has ");
                text::push_decimal(&mut out, *len);
                out.append(" bytes, expected vocab_size * d_ple = ");
                text::push_decimal(&mut out, *expected);
            },
            PleError::LayerOutOfRange { layer_idx, layers } => {
                out.append("PleTable: layer_idx ");
                text::push_decimal(&mut out, *layer_idx);
                out.append(" out of range (have ");
                text::push_decimal(&mut out, *layers);
                out.append(")");
            },
            PleError::TokenOutOfVocab { token_id, vocab_size } => {
                out.append("PleTable: token_id ");
                text::push_decimal(&mut out, *token_id as usize);
                out.append(" out of vocab range (vocab_size = ");
                text::push_decimal(&mut out, *vocab_size);
                out.append(")");
            },
        }
        assert(out@ =~= self.text());
        out
    }
}

/// What a table holds: one slab of `vocab_size` rows of `d_ple` quantised values per layer.
pub struct Table<T> {
    pub layers: Seq<Seq<i8>>,
    pub vocab_size: nat,
    pub d_ple: nat,
    pub scale: T,
}

impl<T> Table<T> {
    /// There is a layer, and every slab has the size of the table.
    pub open spec fn complete(self) -> bool {
        &&& self.layers.len() > 0
        &&& forall|l: int|
            0 <= l < self.layers.len() ==> (#[trigger] self.layers[l]).len() == self.vocab_size
                * self.d_ple
    }

    /// The dequantised row of a token at a layer.
    pub open spec fn row(self, ops: Ops<T>, layer: int, token: int) -> Seq<T> {
        Seq::new(
            self.d_ple,
            |j: int|
                (ops.mul)(
                    (ops.from_int)(self.layers[layer][token * self.d_ple + j] as int),
                    (ops.div)(ops.one(), self.scale),
                ),
        )
    }

    /// What looking tokens up at a layer gives: an error for an unknown layer, then for the
    /// first unknown token, else one row per token.
    pub open spec fn looked_up(
        self,
        ops: Ops<T>,
        tokens: Seq<u32>,
        layer_idx: usize,
        r: Result<Matrix<T>, PleError>,
    ) -> bool {
        let bad = first_unknown(tokens, self.vocab_size);
        if layer_idx >= self.layers.len() {
            r == Err::<Matrix<T>, PleError>(
                PleError::LayerOutOfRange { layer_idx, layers: self.layers.len() as usize },
            )
        } else if bad < tokens.len() {
            r == Err::<Matrix<T>, PleError>(
                PleError::TokenOutOfVocab {
                    token_id: tokens[bad],
                    vocab_size: self.vocab_size as usize,
                },
            )
        } else {
            r matches Ok(m) && {
                &&& m@ == Seq::new(
                    tokens.len(),
                    |i: int| self.row(ops, layer_idx as int, tokens[i] as int),
                )
                &&& m.width() == self.d_ple
            }
        }
    }
}

/// The first slab whose length is not `expected`, or the number of slabs.
pub open spec fn first_misfit(slabs: Seq<Seq<i8>>, expected: nat) -> int
    decreases slabs.len(),
{
    if slabs.len() == 0 {
        0
    } else if slabs[0].len() != expected {
        0
    } else {
        1 + first_misfit(slabs.drop_first(), expected)
    }
}

/// The first token outside the vocabulary, or the number of tokens.
pub open spec fn first_unknown(tokens: Seq<u32>, vocab_size: nat) -> int
    decreases tokens.len(),
{
    if tokens.len() == 0 {
        0
    } else if tokens[0] >= vocab_size {
        0
    } else {
        1 + first_unknown(tokens.drop_first(), vocab_size)
    }
}

proof fn lemma_first_misfit(slabs: Seq<Seq<i8>>, expected: nat, k: int)
    requires
        0 <= k <= slabs.len(),
        forall|l: int| 0 <= l < k ==> (#[trigger] slabs[l]).len() == expected,
        k == slabs.len() || slabs[k].len() != expected,
    ensures
        first_misfit(slabs, expected) == k,
    decreases slabs.len(),
{
    if k > 0 {
        assert(slabs[0].len() == expected);
        assert forall|l: int| 0 <= l < k - 1 implies (#[trigger] slabs.drop_first()[l]).len()
            == expected by {
            assert(slabs[l + 1].len() == expected);
        }
        lemma_first_misfit(slabs.drop_first(), expected, k - 1);
    }
}

proof fn lemma_first_unknown(tokens: Seq<u32>, vocab_size: nat, k: int)
    requires
        0 <= k <= tokens.len(),
        forall|l: int| 0 <= l < k ==> #[trigger] tokens[l] < vocab_size,
        k == tokens.len() || tokens[k] >= vocab_size,
    ensures
        first_unknown(tokens, vocab_size) == k,
    decreases tokens.len(),
{
    if k > 0 {
        assert(tokens[0] < vocab_size);
        assert forall|l: int| 0 <= l < k - 1 implies #[trigger] tokens.drop_first()[l]
            < vocab_size by {
            assert(tokens[l + 1] < vocab_size);
        }
        lemma_first_unknown(tokens.drop_first(), vocab_size, k - 1);
    }
}

/// A per-layer embedding table of quantised values.
#[derive(Debug)]
pub struct PleTable<T> {
    data: Vec<Vec<i8>>,
    vocab_size: usize,
    d_ple: usize,
    scale: T,
}

/// The slabs of a list.
pub open spec fn slabs_of(data: Seq<Vec<i8>>) -> Seq<Seq<i8>> {
    Seq::new(data.len(), |l: int| data[l]@)
}

impl<T> View for PleTable<T> {
    type V = Table<T>;

    closed spec fn view(&self) -> Table<T> {
        Table {
            layers: slabs_of(self.data@),
            vocab_size: self.vocab_size as nat,
            d_ple: self.d_ple as nat,
            scale: self.scale,
        }
    }
}

impl<T: Copy> Clone for PleTable<T> {
    fn clone(&self) -> (r: PleTable<T>)
        ensures
            r@ == self@,
    {
        proof {
            use_type_invariant(self);
        }
        let mut data: Vec<Vec<i8>> = Vec::new();
        for l in 0..self.data.len()
            invariant
                data@.len() == l,
                forall|a: int| 0 <= a < l ==> #[trigger] data@[a]@ == self.data@[a]@,
        {
            data.push(matrix::copied_row(&self.data[l]));
        }
        assert(slabs_of(data@) =~= slabs_of(self.data@));
        PleTable { data, vocab_size: self.vocab_size, d_ple: self.d_ple, scale: self.scale }
    }
}

impl<T> PleTable<T> {
    #[verifier::type_invariant]
    spec fn well_formed(self) -> bool {
        &&& self@.complete()
        &&& self.vocab_size * self.d_ple <= usize::MAX
    }

    pub fn num_layers(&self) -> (r: usize)
        ensures
            r == self@.layers.len(),
            self@.complete(),
    {
        proof {
            use_type_invariant(self);
        }
        self.data.len()
    }

    pub fn vocab_size(&self) -> (r: usize)
        ensures
            r == self@.vocab_size,
    {
        self.vocab_size
    }

    pub fn d_ple(&self) -> (r: usize)
        ensures
            r == self@.d_ple,
    {
        self.d_ple
    }

    /// Size of the slabs in bytes.
    pub fn bytes(&self) -> (r: usize)
        requires
            self@.layers.len() * (self@.vocab_size * self@.d_ple) <= usize::MAX,
        ensures
            r == self@.layers.len() * (self@.vocab_size * self@.d_ple),
    {
        proof {
            use_type_invariant(self);
        }
        let slab: usize = self.vocab_size * self.d_ple;
        let mut acc: usize = 0;
        let n: usize = self.data.len();
        assert(0 * slab == 0) by (nonlinear_arith);
        for l in 0..n
            invariant
                n == self.data@.len(),
                self@.complete(),
                slab == self@.vocab_size * self@.d_ple,
                n * slab <= usize::MAX,
                acc == l * slab,
        {
            assert((l + 1) * slab <= n * slab && (l + 1) * slab == l * slab + slab)
                by (nonlinear_arith)
                requires
                    l + 1 <= n,
            ;
            assert(self@.layers[l as int].len() == slab);
            acc = acc + self.data[l].len();
        }
        acc
    }
}

impl<T: Scalar> PleTable<T> {
    /// The quantisation scale: a stored value is the real one times this.
    pub fn scale(&self) -> (r: T)
        ensures
            r == self@.scale,
    {
        self.scale
    }

    /// The table with these slabs. Refused, in this order: no layer; a scale that is not
    /// above zero; a slab size beyond a machine word; a slab of another size.
    pub fn from_int8_rows(
        per_layer_data: Vec<Vec<i8>>,
        vocab_size: usize,
        d_ple: usize,
        scale: T,
    ) -> (r: Result<PleTable<T>, PleError>)
        ensures
            r matches Ok(t) ==> t@ == (Table {
                layers: slabs_of(per_layer_data@),
                vocab_size: vocab_size as nat,
                d_ple: d_ple as nat,
                scale,
            }),
            ({
                let slabs = slabs_of(per_layer_data@);
                let expected = vocab_size * d_ple;
                let bad = first_misfit(slabs, expected as nat);
                if slabs.len() == 0 {
                    r == Err::<PleTable<T>, PleError>(PleError::NoLayers)
                } else if (T::ops().le)(scale, T::ops().zero()) {
                    r matches Err(PleError::ScaleNotPositive(s)) && s@ == (T::ops().show)(scale)
                } else if expected > usize::MAX {
                    r == Err::<PleTable<T>, PleError>(PleError::SizeOverflow)
                } else if bad < slabs.len() {
                    r == Err::<PleTable<T>, PleError>(
                        PleError::SlabSize {
                            layer: bad as usize,
                            len: slabs[bad].len() as usize,
                            expected: expected as usize,
                        },
                    )
                } else {
                    r is Ok
                }
            }),
    {
        if per_layer_data.len() == 0 {
            return Err(PleError::NoLayers);
        }
        if scale.at_most(T::from_int(0)) {
            return Err(PleError::ScaleNotPositive(scale.shown()));
        }
        let expected: usize = match vocab_size.checked_mul(d_ple) {
            Some(x) => x,
            None => {
                return Err(PleError::SizeOverflow);
            },
        };
        let ghost slabs = slabs_of(per_layer_data@);
        for l in 0..per_layer_data.len()
            invariant
                slabs == slabs_of(per_layer_data@),
                forall|i: int| 0 <= i < l ==> (#[trigger] slabs[i]).len() == expected,
                slabs.len() > 0,
                !(T::ops().le)(scale, T::ops().zero()),
                expected == vocab_size * d_ple,
        {
            assert(slabs[l as int] == per_layer_data@[l as int]@);
            if per_layer_data[l].len() != expected {
                proof {
                    lemma_first_misfit(slabs, expected as nat, l as int);
                }
                return Err(
                    PleError::SlabSize { layer: l, len: per_layer_data[l].len(), expected },
                );
            }
        }
        proof {
            lemma_first_misfit(slabs, expected as nat, slabs.len() as int);
        }
        Ok(PleTable { data: per_layer_data, vocab_size, d_ple, scale })
    }

    /// The dequantised rows of these tokens at a layer. A layer that is not there is
    /// reported first, else the first token outside the vocabulary.
    pub fn gather(&self, token_ids: &Vec<u32>, layer_idx: usize) -> (r: Result<Matrix<T>, PleError>)
        ensures
            self@.looked_up(T::ops(), token_ids@, layer_idx, r),
    {
        proof {
            use_type_invariant(self);
        }
        if layer_idx >= self.data.len() {
            return Err(PleError::LayerOutOfRange { layer_idx, layers: self.data.len() });
        }
        let inv_scale: T = T::from_int(1).over(self.scale);
        let d: usize = self.d_ple;
        let layer = &self.data[layer_idx];
        assert(self@.layers[layer_idx as int] == layer@);
        let mut rows: Vec<Vec<T>> = Vec::new();
        for i in 0..token_ids.len()
            invariant
                self@.complete(),
                self.vocab_size * self.d_ple <= usize::MAX,
                layer_idx < self@.layers.len(),
                layer@ == self@.layers[layer_idx as int],
                layer@.len() == self@.vocab_size * self@.d_ple,
                d == self@.d_ple,
                d == self.d_ple,
                inv_scale == (T::ops().div)(T::ops().one(), self@.scale),
                rows@.len() == i,
                forall|a: int| 0 <= a < i ==> #[trigger] token_ids@[a] < self@.vocab_size,
                forall|a: int|
                    0 <= a < i ==> #[trigger] rows@[a]@ == self@.row(
                        T::ops(),
                        layer_idx as int,
                        token_ids@[a] as int,
                    ),
        {
            let tid: u32 = token_ids[i];
            if tid as usize >= self.vocab_size {
                proof {
                    lemma_first_unknown(token_ids@, self@.vocab_size, i as int);
                }
                return Err(PleError::TokenOutOfVocab { token_id: tid, vocab_size: self.vocab_size });
            }
            let t: usize = tid as usize;
            let ghost target = self@.row(T::ops(), layer_idx as int, t as int);
            let mut row: Vec<T> = Vec::new();
            for j in 0..d
                invariant
                    t < self.vocab_size,
                    self.vocab_size * self.d_ple <= usize::MAX,
                    layer_idx < self@.layers.len(),
                    layer@ == self@.layers[layer_idx as int],
                    layer@.len() == self@.vocab_size * self@.d_ple,
                    d == self@.d_ple,
                    d == self.d_ple,
                    inv_scale == (T::ops().div)(T::ops().one(), self@.scale),
                    target == self@.row(T::ops(), layer_idx as int, t as int),
                    row@.len() == j,
                    forall|b: int| 0 <= b < j ==> #[trigger] row@[b] == target[b],
            {
                assert(0 <= t * d && t * d + j < self.vocab_size * d) by (nonlinear_arith)
                    requires
                        0 <= t < self.vocab_size,
                        0 <= j < d,
                ;
                let b: i8 = layer[t * d + j];
                row.push(T::from_int(b as i64).times(inv_scale));
            }
            assert(row@ =~= target);
            rows.push(row);
        }
        proof {
            lemma_first_unknown(token_ids@, self@.vocab_size, token_ids@.len() as int);
        }
        let m: Matrix<T> = Matrix::of_rows(rows, d);
        assert(m@ =~= Seq::new(
            token_ids@.len(),
            |i: int| self@.row(T::ops(), layer_idx as int, token_ids@[i] as int),
        ));
        Ok(m)
    }
}

/// The slab that is reported is the first one of another size; none is where all fit.
pub proof fn law_first_misfit_is_first(slabs: Seq<Seq<i8>>, expected: nat)
    ensures
        0 <= first_misfit(slabs, expected) <= slabs.len(),
        forall|l: int|
            0 <= l < first_misfit(slabs, expected) ==> (#[trigger] slabs[l]).len() == expected,
        first_misfit(slabs, expected) < slabs.len() ==> slabs[first_misfit(slabs, expected)].len()
            != expected,
    decreases slabs.len(),
{
    if slabs.len() > 0 && slabs[0].len() == expected {
        let rest = slabs.drop_first();
        law_first_misfit_is_first(rest, expected);
        assert forall|l: int| 0 <= l < first_misfit(slabs, expected) implies (
        #[trigger] slabs[l]).len() == expected by {
            if l > 0 {
                assert(rest[l - 1].len() == expected);
            }
        }
    }
}

/// The token that is reported is the first one outside the vocabulary; none is where all are in
/// it.
pub proof fn law_first_unknown_is_first(tokens: Seq<u32>, vocab_size: nat)
    ensures
        0 <= first_unknown(tokens, vocab_size) <= tokens.len(),
        forall|l: int|
            0 <= l < first_unknown(tokens, vocab_size) ==> #[trigger] tokens[l] < vocab_size,
        first_unknown(tokens, vocab_size) < tokens.len() ==> tokens[first_unknown(
            tokens,
            vocab_size,
        )] >= vocab_size,
    decreases tokens.len(),
{
    if tokens.len() > 0 && tokens[0] < vocab_size {
        let rest = tokens.drop_first();
        law_first_unknown_is_first(rest, vocab_size);
        assert forall|l: int| 0 <= l < first_unknown(tokens, vocab_size) implies #[trigger] tokens[l]
            < vocab_size by {
            if l > 0 {
                assert(rest[l - 1] < vocab_size);
            }
        }
    }
}

/// A lookup succeeds exactly where the layer is there and every token is in the vocabulary. It
/// gives a row for every token, in order, whose entries times the scale are the values that the
/// table stores for that token at that layer.
pub proof fn law_lookup_undoes_the_quantisation(
    t: Table<real>,
    ops: Ops<real>,
    tokens: Seq<u32>,
    layer_idx: usize,
    r: Result<Matrix<real>, PleError>,
)
    requires
        exact::exact(ops),
        t.scale > 0real,
        t.looked_up(ops, tokens, layer_idx, r),
    ensures
        r is Ok <==> layer_idx < t.layers.len() && forall|i: int|
            0 <= i < tokens.len() ==> #[trigger] tokens[i] < t.vocab_size,
        r matches Ok(m) ==> m@.len() == tokens.len() && forall|i: int, j: int|
            0 <= i < tokens.len() && 0 <= j < t.d_ple ==> (#[trigger] m@[i][j]) * t.scale
                == t.layers[layer_idx as int][tokens[i] * t.d_ple + j] as int as real,
        r matches Ok(m) ==> forall|i: int|
            0 <= i < tokens.len() ==> (#[trigger] m@[i]).len() == t.d_ple,
        r matches Err(PleError::TokenOutOfVocab { token_id, .. }) ==> tokens.contains(token_id)
            && token_id >= t.vocab_size,
{
    law_first_unknown_is_first(tokens, t.vocab_size);
    let bad = first_unknown(tokens, t.vocab_size);
    if bad < tokens.len() {
        assert(tokens[bad] >= t.vocab_size);
    }
    if let Ok(m) = r {
        let u = 1real / t.scale;
        exact::lemma_quotient(1real, t.scale);
        assert forall|i: int, j: int| 0 <= i < tokens.len() && 0 <= j < t.d_ple implies (
        #[trigger] m@[i][j]) * t.scale == t.layers[layer_idx as int][tokens[i] * t.d_ple
            + j] as int as real by {
            let x = t.layers[layer_idx as int][tokens[i] * t.d_ple + j] as int as real;
            assert(m@[i] == t.row(ops, layer_idx as int, tokens[i] as int));
            exact::lemma_times_assoc(x, u, t.scale);
        }
    }
}

} // verus!
