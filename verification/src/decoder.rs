//! The layers of the Qwen3 text decoder.
use crate::nn::root_mean_square;
use crate::tensor::{
    add_refused, add_result, array, brain_half, broadcast_div, broadcast_div_refused,
    broadcast_div_result, broadcast_mul, broadcast_mul_refused, broadcast_mul_result, cast,
    cast_refused, cast_to, cat_pair, cat_two, comparable, cos, cos_refused, cos_result, dims,
    dtype_of, extent, is_number, kind_of, layer, layer_refused, layer_result, lemma_division,
    lemma_last_axis, lemma_volume_vector, matmul, matmul_refused, matmul_result, mean_last,
    mean_refused, mean_result, narrow, narrow_array, negative, negative_refused, negative_result,
    one, pair_refused, plus, plus_refused, plus_result, rank_of, refuse, sin, sin_refused,
    sin_result, single, single_precision, sqrt, sqrt_refused, sqrt_result, square, square_refused,
    square_result, sum, tensor_dims, tensor_kind, two, unsqueeze, volume, with_axis, Array,
};
use crate::weights::{
    dotted, law_narrowed_stores_find_the_same, narrowed, weight_loaded, weight_refused, WeightStore,
};
use candle_core::scalar::Scalar;
use candle_core::{DType, Device, Error, Tensor};
use candle_transformers::quantized_nn;
use candle_transformers::quantized_var_builder as quantized;
use vstd::prelude::*;

verus! {

// ---------------------------------------------------------------------------
// Weights
// ---------------------------------------------------------------------------

/// `candle_transformers::quantized_var_builder::VarBuilder`, quantized tensors by name.
#[verifier::external_type_specification]
#[verifier::external_body]
pub struct ExQuantizedVarBuilder(candle_transformers::quantized_var_builder::VarBuilder);

/// `candle_transformers::quantized_nn::Linear`, a linear map with quantized weights.
#[verifier::external_type_specification]
#[verifier::external_body]
pub struct ExQuantizedLinear(candle_transformers::quantized_nn::Linear);

/// A quantized tensor: extents and packed elements.
pub struct Packed {
    pub dims: Seq<usize>,
    pub format: int,
    pub bytes: Seq<u8>,
}

/// Quantized tensors by their full names.
pub uninterp spec fn quantized_entries(v: quantized::VarBuilder) -> Map<Seq<char>, Packed>;

/// The parts of the prefix for names.
pub uninterp spec fn quantized_prefix(v: quantized::VarBuilder) -> Seq<Seq<char>>;

/// Quantized tensors are unpacked on a graphics processor of Apple.
pub uninterp spec fn on_apple_graphics(v: quantized::VarBuilder) -> bool;

/// Quantized tensors are unpacked on a graphics processor of Nvidia.
pub uninterp spec fn on_nvidia_graphics(v: quantized::VarBuilder) -> bool;

/// Quantized tensors are unpacked on a graphics processor.
pub open spec fn on_graphics(v: quantized::VarBuilder) -> bool {
    on_apple_graphics(v) || on_nvidia_graphics(v)
}

/// The quantized tensor that a linear map is made of.
pub uninterp spec fn quantized_linear(l: quantized_nn::Linear) -> Packed;

/// `t` can come of unpacking a quantized tensor: a result, or none where it is refused.
pub uninterp spec fn unpacking_outcome(p: Packed, t: Option<Array>) -> bool;

/// `t` is what unpacking a quantized tensor gave.
#[verifier::inline]
pub open spec fn dequantized(p: Packed, t: Array) -> bool {
    unpacking_outcome(p, Some(t))
}

/// `r` can come of a linear map with quantized weights for `x`: a result, or none where it is
/// refused.
pub uninterp spec fn quantized_outcome(w: Packed, x: Array, r: Option<Array>) -> bool;

/// `r` is what a linear map with quantized weights gave for `x`.
#[verifier::inline]
pub open spec fn quantized_result(w: Packed, x: Array, r: Array) -> bool {
    quantized_outcome(w, x, Some(r))
}

/// A linear map with quantized weights can be refused for `x`; one without rows always is.
pub open spec fn quantized_refused(w: Packed, x: Array) -> bool {
    w.dims[0] == 0 || quantized_outcome(w, x, None)
}

/// Making a linear map of a quantized tensor can be refused.
pub uninterp spec fn making_refused(p: Packed) -> bool;

/// The quantized tensor of that name.
pub open spec fn quantized_at(v: quantized::VarBuilder, name: Seq<char>) -> Packed {
    quantized_entries(v)[dotted(quantized_prefix(v), name)]
}

/// The quantized tensor of that name is there and has these extents.
pub open spec fn has_quantized(v: quantized::VarBuilder, name: Seq<char>, d: Seq<usize>) -> bool {
    &&& quantized_entries(v).contains_key(dotted(quantized_prefix(v), name))
    &&& quantized_at(v, name).dims == d
}

/// `quantized_var_builder::VarBuilder::pp`: the same tensors with one more part to the prefix.
#[verifier::external_body]
fn quantized_part(v: &quantized::VarBuilder, part: &str) -> (r: quantized::VarBuilder)
    ensures
        quantized_entries(r) == quantized_entries(*v),
        quantized_prefix(r) == quantized_prefix(*v).push(part@),
        on_apple_graphics(r) == on_apple_graphics(*v),
        on_nvidia_graphics(r) == on_nvidia_graphics(*v),
{
    v.pp(part)
}

/// `quantized_nn::linear_no_bias`: a linear map made of the tensor `weight`, which must be there. A
/// tensor in a format that is not packed is unpacked, which the device can refuse.
#[verifier::external_body]
fn load_quantized_linear(in_dim: usize, out_dim: usize, v: &quantized::VarBuilder) -> (r: Result<
    quantized_nn::Linear,
    Error,
>)
    ensures
        r is Ok ==> has_quantized(*v, "weight"@, seq![out_dim, in_dim]),
        r matches Ok(l) ==> quantized_linear(l) == quantized_at(*v, "weight"@),
        r is Err ==> !has_quantized(*v, "weight"@, seq![out_dim, in_dim]) || making_refused(
            quantized_at(*v, "weight"@),
        ),
{
    quantized_nn::linear_no_bias(in_dim, out_dim, v.clone())
}

/// `quantized_var_builder::VarBuilder::get` of the tensor `weight`, which must be there, and its
/// `dequantize`, which gives single precision.
#[verifier::external_body]
fn load_dequantized(size: usize, v: &quantized::VarBuilder) -> (r: Result<Tensor, Error>)
    ensures
        r is Ok ==> has_quantized(*v, "weight"@, seq![size]),
        has_quantized(*v, "weight"@, seq![size]) ==> unpacking_outcome(
            quantized_at(*v, "weight"@),
            match r {
                Ok(t) => Some(array(t)),
                Err(_) => None,
            },
        ),
        r matches Ok(t) ==> tensor_dims(t) == seq![size] && tensor_kind(t) == single(),
{
    v.get(size, "weight")?.dequantize(v.device())
}

/// `Device::is_metal` of `quantized_var_builder::VarBuilder::device`.
#[verifier::external_body]
fn unpacks_on_apple(v: &quantized::VarBuilder) -> (r: bool)
    ensures
        r == on_apple_graphics(*v),
{
    v.device().is_metal()
}

/// `Device::is_cuda` of `quantized_var_builder::VarBuilder::device`.
#[verifier::external_body]
fn unpacks_on_nvidia(v: &quantized::VarBuilder) -> (r: bool)
    ensures
        r == on_nvidia_graphics(*v),
{
    v.device().is_cuda()
}

/// `DType::BF16`: the half-precision element type of graphics processors.
#[verifier::external_body]
fn half_precision() -> (r: DType)
    ensures
        kind_of(r) == brain_half(),
{
    DType::BF16
}

/// `quantized_nn::Linear::forward`, which divides by the number of rows.
#[verifier::external_body]
fn quantized_forward(l: &quantized_nn::Linear, x: &Tensor) -> (r: Result<Tensor, Error>)
    requires
        quantized_linear(*l).dims.len() == 2,
        quantized_linear(*l).dims[0] >= 1,
    ensures
        match r {
            Ok(t) => quantized_outcome(quantized_linear(*l), array(*x), Some(array(t))),
            Err(_) => quantized_outcome(quantized_linear(*l), array(*x), None),
        },
{
    candle_nn::Module::forward(l, x)
}

/// Weights, quantized or not.
pub enum Weights {
    Standard(WeightStore),
    Quantized(quantized::VarBuilder),
}

/// The same weights under a longer prefix.
pub open spec fn sub_weights(w: Weights, part: Seq<char>, r: Weights) -> bool {
    match (w, r) {
        (Weights::Standard(a), Weights::Standard(b)) => narrowed(a, part, b),
        (Weights::Quantized(a), Weights::Quantized(b)) => quantized_entries(b)
            == quantized_entries(a) && quantized_prefix(b) == quantized_prefix(a).push(part)
            && on_graphics(b) == on_graphics(a),
        _ => false,
    }
}

impl Weights {
    /// The same weights with one more part to the prefix.
    pub fn pp(&self, part: &str) -> (r: Weights)
        ensures
            sub_weights(*self, part@, r),
    {
        match self {
            Weights::Standard(w) => Weights::Standard(w.pp(part)),
            Weights::Quantized(v) => Weights::Quantized(quantized_part(v, part)),
        }
    }
}

// ---------------------------------------------------------------------------
// Linear maps
// ---------------------------------------------------------------------------

/// A linear map with quantized weights, and the number of its rows.
pub struct QuantizedLayer {
    inner: quantized_nn::Linear,
    rows: usize,
}

impl QuantizedLayer {
    /// The rows are those of the weights.
    #[verifier::type_invariant]
    spec fn counted(self) -> bool {
        quantized_linear(self.inner).dims.len() == 2 && quantized_linear(self.inner).dims[0]
            == self.rows
    }

    /// The quantized tensor that the map is made of.
    pub closed spec fn packed(self) -> Packed {
        quantized_linear(self.inner)
    }

    /// The map of the tensor `weight`.
    fn load(in_dim: usize, out_dim: usize, v: &quantized::VarBuilder) -> (r: Result<
        QuantizedLayer,
        Error,
    >)
        ensures
            r is Ok ==> has_quantized(*v, "weight"@, seq![out_dim, in_dim]),
            r matches Ok(l) ==> l.packed() == quantized_at(*v, "weight"@),
            r is Err ==> !has_quantized(*v, "weight"@, seq![out_dim, in_dim]) || making_refused(
                quantized_at(*v, "weight"@),
            ),
    {
        let inner = load_quantized_linear(in_dim, out_dim, v)?;
        Ok(QuantizedLayer { inner, rows: out_dim })
    }

    /// Applies the map to the last axis. A map without rows is refused.
    fn forward(&self, x: &Tensor) -> (r: Result<Tensor, Error>)
        ensures
            r matches Ok(t) ==> quantized_result(self.packed(), array(*x), array(t)),
            r is Err ==> quantized_refused(self.packed(), array(*x)),
    {
        proof {
            use_type_invariant(self);
        }
        if self.rows == 0 {
            return refuse(x);
        }
        quantized_forward(&self.inner, x)
    }
}

/// A linear map without a bias.
pub enum LinearLayer {
    Standard(Tensor),
    Quantized(QuantizedLayer),
}

/// `r` is what a linear map gave for `x`. A quantized one works in single precision; its result is
/// converted back.
pub open spec fn linear_forward(l: LinearLayer, x: Array, r: Array) -> bool {
    match l {
        LinearLayer::Standard(w) => layer_result(array(w), None, x, r),
        LinearLayer::Quantized(q) => exists|input: Array, y: Array| #[trigger]
            cast_to(x, single(), input) && #[trigger] quantized_result(
                q.packed(),
                input,
                y,
            ) && cast_to(y, x.kind, r),
    }
}

/// A step of a linear map can be refused for `x`.
pub open spec fn linear_forward_refused(l: LinearLayer, x: Array) -> bool {
    match l {
        LinearLayer::Standard(w) => layer_refused(array(w), None, x),
        LinearLayer::Quantized(q) => {
            ||| cast_refused(x, single())
            ||| exists|input: Array| #[trigger]
                cast_to(x, single(), input) && {
                    ||| quantized_refused(q.packed(), input)
                    ||| exists|y: Array| #[trigger]
                        quantized_result(q.packed(), input, y) && cast_refused(y, x.kind)
                }
        },
    }
}

/// The tensor `weight` of a linear map can be refused.
pub open spec fn linear_missing(w: Weights, in_dim: usize, out_dim: usize) -> bool {
    match w {
        Weights::Standard(s) => weight_refused(s, "weight"@, seq![out_dim, in_dim]),
        Weights::Quantized(v) => !has_quantized(v, "weight"@, seq![out_dim, in_dim])
            || making_refused(quantized_at(v, "weight"@)),
    }
}

/// The tensor of a linear map under one more part of the prefix can be refused.
pub open spec fn sub_linear_missing(
    w: Weights,
    part: Seq<char>,
    in_dim: usize,
    out_dim: usize,
) -> bool {
    exists|s: Weights| #[trigger] sub_weights(w, part, s) && linear_missing(s, in_dim, out_dim)
}

/// A linear map is made of the tensor `weight`.
pub open spec fn linear_from(w: Weights, in_dim: usize, out_dim: usize, l: LinearLayer) -> bool {
    match (w, l) {
        (Weights::Standard(s), LinearLayer::Standard(t)) => weight_loaded(
            s,
            "weight"@,
            seq![out_dim, in_dim],
            t,
        ),
        (Weights::Quantized(v), LinearLayer::Quantized(q)) => has_quantized(
            v,
            "weight"@,
            seq![out_dim, in_dim],
        ) && q.packed() == quantized_at(v, "weight"@),
        _ => false,
    }
}

/// A linear map under one more part of the prefix.
pub open spec fn sub_linear_from(
    w: Weights,
    part: Seq<char>,
    in_dim: usize,
    out_dim: usize,
    l: LinearLayer,
) -> bool {
    exists|s: Weights| #[trigger] sub_weights(w, part, s) && linear_from(s, in_dim, out_dim, l)
}

/// A linear map without a bias.
pub fn linear_no_bias(in_dim: usize, out_dim: usize, vb: &Weights) -> (r: Result<
    LinearLayer,
    Error,
>)
    ensures
        r matches Ok(l) ==> linear_from(*vb, in_dim, out_dim, l),
        r is Err ==> linear_missing(*vb, in_dim, out_dim),
{
    match vb {
        Weights::Standard(w) => Ok(LinearLayer::Standard(w.get(two(out_dim, in_dim), "weight")?)),
        Weights::Quantized(v) => Ok(
            LinearLayer::Quantized(QuantizedLayer::load(in_dim, out_dim, v)?),
        ),
    }
}

impl LinearLayer {
    /// Applies the map to the last axis.
    pub fn forward(&self, x: &Tensor) -> (r: Result<Tensor, Error>)
        ensures
            r matches Ok(y) ==> linear_forward(*self, array(*x), array(y)),
            r is Err ==> linear_forward_refused(*self, array(*x)),
    {
        match self {
            LinearLayer::Standard(w) => layer(w, &None, x),
            LinearLayer::Quantized(q) => {
                let input = cast(x, single_precision())?;
                let y = q.forward(&input)?;
                let r = cast(&y, dtype_of(x))?;
                assert(cast_to(array(*x), single(), array(input)));
                assert(quantized_result(q.packed(), array(input), array(y)));
                Ok(r)
            },
        }
    }
}

// ---------------------------------------------------------------------------
// Normalization
// ---------------------------------------------------------------------------

/// Normalization by the root of the mean square.
pub struct RmsNorm {
    pub weight: Tensor,
    /// What is added to the mean square.
    pub eps: Scalar,
}

/// The intermediate results of normalization.
pub struct RmsTrace {
    pub single: Array,
    pub squares: Array,
    pub mean: Array,
    pub shifted: Array,
    pub root: Array,
    pub normed: Array,
    pub back: Array,
    pub weight: Array,
}

/// Normalization, with its intermediate results.
pub open spec fn rms_steps(n: RmsNorm, x: Array, t: RmsTrace, r: Array) -> bool {
    &&& cast_to(x, single(), t.single)
    &&& square_result(t.single, t.squares)
    &&& mean_result(t.squares, t.mean)
    &&& plus_result(t.mean, n.eps, t.shifted)
    &&& sqrt_result(t.shifted, t.root)
    &&& broadcast_div_result(t.single, t.root, t.normed)
    &&& cast_to(t.normed, x.kind, t.back)
    &&& cast_to(array(n.weight), x.kind, t.weight)
    &&& broadcast_mul_result(t.back, t.weight, r)
}

/// `r` is what normalization gave for `x`.
pub open spec fn rms_forward(n: RmsNorm, x: Array, r: Array) -> bool {
    exists|t: RmsTrace| #[trigger] rms_steps(n, x, t, r)
}

/// A step of normalization can be refused for `x`.
pub open spec fn rms_refused(n: RmsNorm, x: Array) -> bool {
    ||| cast_refused(x, single())
    ||| cast_refused(array(n.weight), x.kind)
    ||| exists|input: Array| #[trigger]
        cast_to(x, single(), input) && {
            ||| square_refused(input)
            ||| exists|squares: Array| #[trigger]
                square_result(input, squares) && dividing_refused(n, x.kind, input, squares)
        }
}

/// A step of dividing by the root of the mean square, or of applying the weight, can be refused.
pub open spec fn dividing_refused(n: RmsNorm, kind: int, input: Array, squares: Array) -> bool {
    ||| mean_refused(squares)
    ||| exists|mean: Array| #[trigger]
        mean_result(squares, mean) && {
            ||| plus_refused(mean, n.eps)
            ||| exists|shifted: Array| #[trigger]
                plus_result(mean, n.eps, shifted) && {
                    ||| sqrt_refused(shifted)
                    ||| exists|root: Array| #[trigger]
                        sqrt_result(shifted, root) && {
                            ||| broadcast_div_refused(input, root)
                            ||| exists|normed: Array| #[trigger]
                                broadcast_div_result(input, root, normed) && {
                                    ||| cast_refused(normed, kind)
                                    ||| exists|back: Array, weight: Array| #[trigger]
                                        cast_to(normed, kind, back) && #[trigger] cast_to(
                                            array(n.weight),
                                            kind,
                                            weight,
                                        ) && broadcast_mul_refused(back, weight)
                                }
                        }
                }
        }
}

/// The tensor `weight` of a normalization can be refused, or its unpacking and conversion.
pub open spec fn rms_missing(w: Weights, size: usize) -> bool {
    match w {
        Weights::Standard(s) => weight_refused(s, "weight"@, seq![size]),
        Weights::Quantized(v) => {
            ||| !has_quantized(v, "weight"@, seq![size])
            ||| unpacking_outcome(quantized_at(v, "weight"@), None)
            ||| exists|plain: Array| #[trigger]
                dequantized(quantized_at(v, "weight"@), plain) && cast_refused(
                    plain,
                    if on_graphics(v) {
                        brain_half()
                    } else {
                        single()
                    },
                )
        },
    }
}

/// The tensor of a normalization under one more part of the prefix can be refused.
pub open spec fn sub_rms_missing(w: Weights, part: Seq<char>, size: usize) -> bool {
    exists|s: Weights| #[trigger] sub_weights(w, part, s) && rms_missing(s, size)
}

/// A normalization is made of the tensor `weight`; a quantized one is unpacked, and kept in half
/// precision on a graphics processor.
pub open spec fn norm_from(w: Weights, size: usize, eps: Scalar, n: RmsNorm) -> bool {
    &&& n.eps == eps
    &&& match w {
        Weights::Standard(s) => weight_loaded(s, "weight"@, seq![size], n.weight),
        Weights::Quantized(v) => has_quantized(v, "weight"@, seq![size]) && exists|plain: Array|
            #[trigger]
            dequantized(quantized_at(v, "weight"@), plain) && cast_to(
                plain,
                if on_graphics(v) {
                    brain_half()
                } else {
                    single()
                },
                array(n.weight),
            ),
    }
}

/// A normalization under one more part of the prefix.
pub open spec fn sub_norm_from(
    w: Weights,
    part: Seq<char>,
    size: usize,
    eps: Scalar,
    n: RmsNorm,
) -> bool {
    exists|s: Weights| #[trigger] sub_weights(w, part, s) && norm_from(s, size, eps, n)
}

impl RmsNorm {
    /// The normalization of a store.
    pub fn new(size: usize, eps: Scalar, vb: &WeightStore) -> (r: Result<RmsNorm, Error>)
        ensures
            r matches Ok(n) ==> n.eps == eps && weight_loaded(
                *vb,
                "weight"@,
                seq![size],
                n.weight,
            ),
            r is Err ==> weight_refused(*vb, "weight"@, seq![size]),
    {
        let weight = vb.get(one(size), "weight")?;
        Ok(RmsNorm { weight, eps })
    }

    /// A normalization with a given weight.
    pub fn from_weight(weight: Tensor, eps: Scalar) -> (r: RmsNorm)
        ensures
            r.weight == weight,
            r.eps == eps,
    {
        RmsNorm { weight, eps }
    }

    /// The normalization of weights, quantized or not. Dequantized weights are kept in half precision
    /// on graphics processors.
    pub fn load(size: usize, eps: Scalar, vb: &Weights) -> (r: Result<RmsNorm, Error>)
        ensures
            r matches Ok(n) ==> norm_from(*vb, size, eps, n),
            r is Err ==> rms_missing(*vb, size),
    {
        match vb {
            Weights::Standard(w) => RmsNorm::new(size, eps, w),
            Weights::Quantized(v) => {
                let plain = load_dequantized(size, v)?;
                let dtype = if unpacks_on_apple(v) || unpacks_on_nvidia(v) {
                    half_precision()
                } else {
                    single_precision()
                };
                let weight = cast(&plain, dtype)?;
                assert(dequantized(quantized_at(*v, "weight"@), array(plain)));
                Ok(RmsNorm::from_weight(weight, eps))
            },
        }
    }

    /// Normalizes along the last axis. It is computed in single precision and converted back.
    pub fn forward(&self, x: &Tensor) -> (r: Result<Tensor, Error>)
        ensures
            r matches Ok(y) ==> rms_forward(*self, array(*x), array(y)),
            r is Err ==> rms_refused(*self, array(*x)),
    {
        let single = cast(x, single_precision())?;
        let squares = square(&single)?;
        let mean = mean_last(&squares)?;
        let shifted = plus(&mean, &self.eps)?;
        let root = sqrt(&shifted)?;
        let normed = broadcast_div(&single, &root)?;
        let back = cast(&normed, dtype_of(x))?;
        let weight = cast(&self.weight, dtype_of(x))?;
        let r = broadcast_mul(&back, &weight)?;
        proof {
            let t = RmsTrace {
                single: array(single),
                squares: array(squares),
                mean: array(mean),
                shifted: array(shifted),
                root: array(root),
                normed: array(normed),
                back: array(back),
                weight: array(weight),
            };
            assert(rms_steps(*self, array(*x), t, array(r)));
        }
        Ok(r)
    }
}

// ---------------------------------------------------------------------------
// Rotary positions
// ---------------------------------------------------------------------------

/// Rotary position embedding: the cosines and sines of the angles, one row for each position.
pub struct RotaryEmbedding {
    pub cos: Tensor,
    pub sin: Tensor,
}

/// Cosines and sines of the products of positions and frequencies, each one twice, side by side.
pub open spec fn rotary_tables(
    positions: Array,
    frequencies: Array,
    angles: Array,
    e: RotaryEmbedding,
) -> bool {
    let twice = cat_pair(angles, angles, 1);
    &&& matmul_result(with_axis(positions, 1), with_axis(frequencies, 0), angles)
    &&& cos_result(twice, array(e.cos))
    &&& sin_result(twice, array(e.sin))
}

/// The tables are those of positions and frequencies.
pub open spec fn rotary_made(positions: Array, frequencies: Array, e: RotaryEmbedding) -> bool {
    exists|angles: Array| #[trigger] rotary_tables(positions, frequencies, angles, e)
}

/// The rows of a table for positions in an element type, as a tensor that stretches over texts and
/// heads.
pub open spec fn position_rows(table: Array, start: int, len: int, kind: int, r: Array) -> bool {
    exists|c: Array| #[trigger]
        cast_to(narrow_array(table, 0, start, len), kind, c) && r == with_axis(with_axis(c, 0), 0)
}

/// The tables are refused where positions or frequencies are not vectors or the table grows past
/// counting; a step of making them can be refused too.
pub open spec fn rotary_making_refused(positions: Array, frequencies: Array) -> bool {
    let column = with_axis(positions, 1);
    let line = with_axis(frequencies, 0);
    ||| positions.dims.len() != 1
    ||| frequencies.dims.len() != 1
    ||| matmul_refused(column, line)
    ||| exists|angles: Array| #[trigger]
        matmul_result(column, line, angles) && {
            ||| pair_refused(angles, angles, 1)
            ||| cos_refused(cat_pair(angles, angles, 1))
            ||| sin_refused(cat_pair(angles, angles, 1))
        }
}

/// There are not as many rows in a table, or converting them can be refused.
pub open spec fn rows_refused(table: Array, start: int, len: int, kind: int) -> bool {
    ||| table.dims.len() == 0
    ||| start + len > table.dims[0]
    ||| cast_refused(narrow_array(table, 0, start, len), kind)
}

/// Rotation is refused where there are not four axes or not as many positions in the tables; a step
/// of it can be refused too.
pub open spec fn rotary_refused(e: RotaryEmbedding, x: Array, start: int) -> bool {
    let len = x.dims[2] as int;
    let width = x.dims[3] as int;
    let half = width / 2;
    let last = x.dims.len() - 1;
    let second = narrow_array(x, 3, half, width - half);
    let first = narrow_array(x, 3, 0, half);
    ||| x.dims.len() < 4
    ||| rows_refused(array(e.cos), start, len, x.kind)
    ||| rows_refused(array(e.sin), start, len, x.kind)
    ||| negative_refused(second)
    ||| exists|negated: Array| #[trigger]
        negative_result(second, negated) && pair_refused(negated, first, last)
    ||| exists|cos: Array| #[trigger]
        position_rows(array(e.cos), start, len, x.kind, cos) && broadcast_mul_refused(x, cos)
    ||| exists|negated: Array, sin: Array, cos: Array|
        {
            let rotated = cat_pair(negated, first, last);
            &&& #[trigger] negative_result(second, negated)
            &&& #[trigger] position_rows(array(e.sin), start, len, x.kind, sin)
            &&& #[trigger] position_rows(array(e.cos), start, len, x.kind, cos)
            &&& {
                ||| broadcast_mul_refused(rotated, sin)
                ||| exists|straight: Array, crossed: Array| #[trigger]
                    broadcast_mul_result(x, cos, straight) && #[trigger] broadcast_mul_result(
                        rotated,
                        sin,
                        crossed,
                    ) && add_refused(straight, crossed)
            }
        }
}

/// The intermediate results of rotation.
pub struct RotaryTrace {
    pub cos: Array,
    pub sin: Array,
    pub negated: Array,
    pub straight: Array,
    pub crossed: Array,
}

/// Rotation, with its intermediate results: each entry times the cosine, and the other half of the
/// entries, the first half of which changes its sign, times the sine.
pub open spec fn rotary_steps(
    e: RotaryEmbedding,
    x: Array,
    start: int,
    t: RotaryTrace,
    r: Array,
) -> bool {
    let len = x.dims[2] as int;
    let width = x.dims[3] as int;
    let half = width / 2;
    let last = x.dims.len() - 1;
    &&& position_rows(array(e.cos), start, len, x.kind, t.cos)
    &&& position_rows(array(e.sin), start, len, x.kind, t.sin)
    &&& negative_result(narrow_array(x, 3, half, width - half), t.negated)
    &&& broadcast_mul_result(x, t.cos, t.straight)
    &&& broadcast_mul_result(
        cat_pair(t.negated, narrow_array(x, 3, 0, half), last),
        t.sin,
        t.crossed,
    )
    &&& add_result(t.straight, t.crossed, r)
}

/// `r` is what rotation gave for `x` from position `start` on.
pub open spec fn rotary_forward(e: RotaryEmbedding, x: Array, start: int, r: Array) -> bool {
    exists|t: RotaryTrace| #[trigger] rotary_steps(e, x, start, t, r)
}

fn rows_for_positions(table: &Tensor, start: usize, len: usize, like: &Tensor) -> (r: Result<
    Tensor,
    Error,
>)
    ensures
        r matches Ok(t) ==> position_rows(
            array(*table),
            start as int,
            len as int,
            tensor_kind(*like),
            array(t),
        ),
        r is Err ==> rows_refused(
            array(*table),
            start as int,
            len as int,
            tensor_kind(*like),
        ),
        r is Ok ==> tensor_dims(*table).len() > 0 && start + len <= tensor_dims(*table)[0],
{
    let rows = narrow(table, 0, start, len)?;
    let c = cast(&rows, dtype_of(like))?;
    let a = unsqueeze(&c, 0)?;
    let r = unsqueeze(&a, 0)?;
    assert(cast_to(
        narrow_array(array(*table), 0, start as int, len as int),
        tensor_kind(*like),
        array(c),
    ));
    Ok(r)
}

impl RotaryEmbedding {
    /// The tables for a vector of positions and a vector of frequencies, one for each two entries of a
    /// head.
    pub fn new(positions: &Tensor, frequencies: &Tensor) -> (r: Result<RotaryEmbedding, Error>)
        ensures
            r matches Ok(e) ==> rotary_made(array(*positions), array(*frequencies), e),
            r matches Ok(e) ==> tensor_dims(*positions).len() == 1 && tensor_dims(
                *frequencies,
            ).len() == 1 && tensor_dims(e.cos) == seq![
                tensor_dims(*positions)[0],
                (2 * tensor_dims(*frequencies)[0]) as usize,
            ] && tensor_dims(e.sin) == tensor_dims(e.cos),
            r is Err ==> rotary_making_refused(array(*positions), array(*frequencies)),
    {
        let p = dims(positions);
        let f = dims(frequencies);
        if p.len() != 1 || f.len() != 1 {
            return refuse(positions);
        }
        let column = unsqueeze(positions, 1)?;
        let line = unsqueeze(frequencies, 0)?;
        let angles = matmul(&column, &line)?;
        assert(tensor_dims(angles) =~= seq![p@[0], f@[0]]);
        let twice = cat_two(&angles, &angles, 1)?;
        assert(tensor_dims(twice) =~= seq![p@[0], (2 * f@[0]) as usize]);
        let e = RotaryEmbedding { cos: cos(&twice)?, sin: sin(&twice)? };
        assert(rotary_tables(array(*positions), array(*frequencies), array(angles), e));
        Ok(e)
    }

    /// Rotates entries by the angles of their positions. The axes are texts, heads, positions and
    /// entries.
    pub fn apply(&self, x: &Tensor, start_pos: usize) -> (r: Result<Tensor, Error>)
        ensures
            r matches Ok(y) ==> rotary_forward(*self, array(*x), start_pos as int, array(y)),
            r is Err ==> rotary_refused(*self, array(*x), start_pos as int),
            r is Ok ==> {
                &&& tensor_dims(*x).len() >= 4
                &&& tensor_dims(self.cos).len() > 0 && start_pos + tensor_dims(*x)[2]
                    <= tensor_dims(self.cos)[0]
                &&& tensor_dims(self.sin).len() > 0 && start_pos + tensor_dims(*x)[2]
                    <= tensor_dims(self.sin)[0]
            },
    {
        let seq_len = extent(x, 2)?;
        let cos = rows_for_positions(&self.cos, start_pos, seq_len, x)?;
        let sin = rows_for_positions(&self.sin, start_pos, seq_len, x)?;
        let head_dim = extent(x, 3)?;
        let half: usize = head_dim / 2;
        let x1 = narrow(x, 3, 0, half)?;
        let x2 = narrow(x, 3, half, head_dim - half)?;
        let negated = negative(&x2)?;
        let last: usize = dims(x).len() - 1;
        let rotated = cat_two(&negated, &x1, last)?;
        let straight = broadcast_mul(x, &cos)?;
        let crossed = broadcast_mul(&rotated, &sin)?;
        let r = sum(&straight, &crossed)?;
        proof {
            let t = RotaryTrace {
                cos: array(cos),
                sin: array(sin),
                negated: array(negated),
                straight: array(straight),
                crossed: array(crossed),
            };
            assert(rotary_steps(*self, array(*x), start_pos as int, t, array(r)));
        }
        Ok(r)
    }
}

// ---------------------------------------------------------------------------
// What normalization and rotation do
// ---------------------------------------------------------------------------

/// Normalization divides by the root of the mean square, in single precision, and then applies the weight. No
/// mean is taken away and no bias added.
pub proof fn law_root_mean_square_divides(n: RmsNorm, x: Array, r: Array)
    requires
        rms_forward(n, x, r),
    ensures
        exists|exact: Array, root: Array, even: Array, back: Array, weight: Array|
            {
                &&& #[trigger] cast_to(x, single(), exact)
                &&& #[trigger] root_mean_square(exact, n.eps, root)
                &&& #[trigger] broadcast_div_result(exact, root, even)
                &&& #[trigger] cast_to(even, x.kind, back)
                &&& #[trigger] cast_to(array(n.weight), x.kind, weight)
                &&& broadcast_mul_result(back, weight, r)
            },
{
    let t = choose|t: RmsTrace| #[trigger] rms_steps(n, x, t, r);
    assert(square_result(t.single, t.squares));
    assert(mean_result(t.squares, t.mean));
    assert(plus_result(t.mean, n.eps, t.shifted));
    assert(root_mean_square(t.single, n.eps, t.root));
    assert(cast_to(x, single(), t.single));
}

/// `part` holds rows of a table from row `start` on.
pub open spec fn table_rows(table: Array, start: int, len: int, part: Array) -> bool {
    &&& part.kind == table.kind
    &&& table.dims.len() == 2 ==> forall|i: int, j: int|
        #![trigger part.elems[i * table.dims[1] + j]]
        0 <= i < len && 0 <= j < table.dims[1] ==> part.elems[i * table.dims[1] + j]
            == table.elems[(start + i) * table.dims[1] + j]
}

proof fn lemma_table_rows(table: Array, start: int, len: int)
    requires
        0 <= start,
        0 <= len,
    ensures
        table_rows(table, start, len, narrow_array(table, 0, start, len)),
{
    let part = narrow_array(table, 0, start, len);
    if table.dims.len() == 2 {
        let w = table.dims[1] as int;
        assert(table.dims.skip(1) =~= seq![table.dims[1]]);
        lemma_volume_vector(table.dims[1]);
        assert(table.dims.take(0) =~= Seq::<usize>::empty());
        assert(volume(table.dims.take(0)) == 1);
        assert forall|i: int, j: int|
            #![trigger part.elems[i * table.dims[1] + j]]
            0 <= i < len && 0 <= j < table.dims[1] implies part.elems[i * table.dims[1] + j]
            == table.elems[(start + i) * table.dims[1] + j] by {
            let k = i * w + j;
            assert(0 <= k < len * w) by (nonlinear_arith)
                requires
                    0 <= i < len,
                    0 <= j < w,
                    k == i * w + j,
            ;
            lemma_division(0, len * w, k);
            assert(0 * (len * w) == 0);
            assert(0 * (table.dims[0] * w) == 0);
            assert(1 * (len * w) == len * w) by (nonlinear_arith);
            assert(start * w + k == (start + i) * w + j) by (nonlinear_arith)
                requires
                    k == i * w + j,
            ;
        }
    }
}

/// `y` holds the other half of each row of `x`: the second half with the other sign, and behind it the first
/// half as it is.
pub open spec fn halves_exchanged(x: Array, y: Array) -> bool {
    let w = x.dims[3] as int;
    let half = w / 2;
    &&& comparable(x.kind) ==> forall|o: int, j: int|
        #![trigger y.elems[o * w + j]]
        0 <= o < volume(x.dims.drop_last()) && 0 <= j < w - half && is_number(
            x.kind,
            x.elems[o * w + half + j],
        ) ==> rank_of(x.kind, y.elems[o * w + j]) == -rank_of(x.kind, x.elems[o * w + half + j])
    &&& forall|o: int, j: int|
        #![trigger y.elems[o * w + (w - half + j)]]
        0 <= o < volume(x.dims.drop_last()) && 0 <= j < half ==> y.elems[o * w + (w - half + j)]
            == x.elems[o * w + j]
}

proof fn lemma_halves_exchanged(x: Array, negated: Array)
    requires
        x.dims.len() == 4,
        negative_result(
            narrow_array(x, 3, x.dims[3] as int / 2, x.dims[3] - x.dims[3] as int / 2),
            negated,
        ),
        negated.dims == x.dims.update(3, (x.dims[3] - x.dims[3] as int / 2) as usize),
    ensures
        halves_exchanged(
            x,
            cat_pair(negated, narrow_array(x, 3, 0, x.dims[3] as int / 2), 3),
        ),
{
    let w = x.dims[3] as int;
    let half = w / 2;
    let second = narrow_array(x, 3, half, w - half);
    let first = narrow_array(x, 3, 0, half);
    let y = cat_pair(negated, first, 3);
    let outer = volume(x.dims.drop_last());
    assert(negated.dims.skip(4) =~= Seq::<usize>::empty());
    assert(volume(Seq::<usize>::empty()) == 1);
    assert(negated.dims.take(3) =~= x.dims.drop_last());
    let a = w - half;
    assert(negated.dims[3] == a);
    assert(first.dims[3] == half);
    let inner = volume(negated.dims.skip(4)) as int;
    assert(a * inner == a && half * inner == half) by (nonlinear_arith)
        requires
            inner == 1,
    ;
    assert(second.elems.len() == outer * a) by {
        assert(x.dims.skip(4) =~= Seq::<usize>::empty());
        assert(x.dims.take(3) =~= x.dims.drop_last());
        assert((w - half) * 1 == a);
    }
    assert forall|o: int, m: int| 0 <= o < outer && 0 <= m < w implies #[trigger] y.elems[o * w + m]
        == if m < a {
        negated.elems[o * a + m]
    } else {
        first.elems[o * half + m - a]
    } by {
        lemma_division(o, w, m);
        assert(0 <= o * w + m < outer * w) by (nonlinear_arith)
            requires
                0 <= o < outer,
                0 <= m < w,
        ;
    }
    assert forall|o: int, j: int|
        #![trigger y.elems[o * w + j]]
        comparable(x.kind) && 0 <= o < outer && 0 <= j < w - half && is_number(
            x.kind,
            x.elems[o * w + half + j],
        ) implies rank_of(x.kind, y.elems[o * w + j]) == -rank_of(
        x.kind,
        x.elems[o * w + half + j],
    ) by {
        lemma_last_axis(x, half, a, o, j);
        assert(0 <= o * a + j < outer * a) by (nonlinear_arith)
            requires
                0 <= o < outer,
                0 <= j < a,
        ;
        assert(second.elems[o * a + j] == x.elems[o * w + half + j]);
        assert(rank_of(x.kind, negated.elems[o * a + j]) == -rank_of(
            x.kind,
            second.elems[o * a + j],
        ));
    }
    assert forall|o: int, j: int|
        #![trigger y.elems[o * w + (w - half + j)]]
        0 <= o < outer && 0 <= j < half implies y.elems[o * w + (w - half + j)] == x.elems[o * w
        + j] by {
        lemma_last_axis(x, 0, half, o, j);
        let m = w - half + j;
        assert(y.elems[o * w + m] == first.elems[o * half + m - a]);
    }
}

/// Every entry is turned with its partner in the other half of its row by the angle of its position: it is
/// multiplied by the cosine, its partner by the sine, and the two are added. Positions are counted from
/// `start` on.
pub proof fn law_entries_turn_with_their_partners(
    e: RotaryEmbedding,
    x: Array,
    start: int,
    r: Array,
)
    requires
        rotary_forward(e, x, start, r),
        x.dims.len() == 4,
        0 <= start,
    ensures
        exists|cos: Array, sin: Array, negated: Array, straight: Array, crossed: Array|
            {
                let w = x.dims[3] as int;
                let other = cat_pair(negated, narrow_array(x, 3, 0, w / 2), 3);
                &&& #[trigger] rows_for(array(e.cos), start, x, cos)
                &&& #[trigger] rows_for(array(e.sin), start, x, sin)
                &&& negated.dims == x.dims.update(3, (w - w / 2) as usize) ==> halves_exchanged(
                    x,
                    other,
                )
                &&& #[trigger] broadcast_mul_result(x, cos, straight)
                &&& negative_result(narrow_array(x, 3, w / 2, w - w / 2), negated)
                &&& #[trigger] turned_by_sine(negated, x, sin, crossed)
                &&& add_result(straight, crossed, r)
            },
{
    let t = choose|t: RotaryTrace| #[trigger] rotary_steps(e, x, start, t, r);
    lemma_rows_for(array(e.cos), start, x, t.cos);
    lemma_rows_for(array(e.sin), start, x, t.sin);
    let w = x.dims[3] as int;
    if t.negated.dims == x.dims.update(3, (w - w / 2) as usize) {
        lemma_halves_exchanged(x, t.negated);
    }
    assert(turned_by_sine(t.negated, x, t.sin, t.crossed));
    assert(broadcast_mul_result(x, t.cos, t.straight));
}

/// `crossed` is the other half of each row of `x`, the part with another sign in front, times the sines.
pub open spec fn turned_by_sine(negated: Array, x: Array, sin: Array, crossed: Array) -> bool {
    broadcast_mul_result(
        cat_pair(negated, narrow_array(x, 3, 0, x.dims[3] as int / 2), 3),
        sin,
        crossed,
    )
}

/// `r` holds the rows of a table for the positions of `x` from `start` on, in its element type, for all texts
/// and heads.
pub open spec fn rows_for(table: Array, start: int, x: Array, r: Array) -> bool {
    exists|part: Array, c: Array|
        {
            &&& #[trigger] table_rows(table, start, x.dims[2] as int, part)
            &&& #[trigger] cast_to(part, x.kind, c)
            &&& r.elems == c.elems
            &&& r.dims == seq![1usize, 1] + c.dims
        }
}

proof fn lemma_rows_for(table: Array, start: int, x: Array, r: Array)
    requires
        position_rows(table, start, x.dims[2] as int, x.kind, r),
        0 <= start,
    ensures
        rows_for(table, start, x, r),
{
    let len = x.dims[2] as int;
    let c = choose|c: Array| #[trigger]
        cast_to(narrow_array(table, 0, start, len), x.kind, c) && r == with_axis(with_axis(c, 0), 0);
    lemma_table_rows(table, start, len);
    assert(r.dims =~= seq![1usize, 1] + c.dims);
    assert(table_rows(table, start, len, narrow_array(table, 0, start, len)));
}

/// A linear map is the tensor that a store has under this name.
pub open spec fn map_named(
    w: WeightStore,
    name: Seq<char>,
    in_dim: usize,
    out_dim: usize,
    l: LinearLayer,
) -> bool {
    l matches LinearLayer::Standard(t) && weight_loaded(w, name, seq![out_dim, in_dim], t)
}

/// A linear map under a part of the prefix has the part before its name. What is not quantized in the store
/// is not quantized in the map.
pub proof fn law_maps_have_full_names(
    w: WeightStore,
    part: Seq<char>,
    in_dim: usize,
    out_dim: usize,
    l: LinearLayer,
)
    requires
        sub_linear_from(Weights::Standard(w), part, in_dim, out_dim, l),
    ensures
        map_named(w, part + ".weight"@, in_dim, out_dim, l),
{
    reveal_strlit("weight");
    reveal_strlit(".weight");
    assert(part + seq!['.'] + "weight"@ =~= part + ".weight"@);
    let s = choose|s: Weights| #[trigger]
        sub_weights(Weights::Standard(w), part, s) && linear_from(s, in_dim, out_dim, l);
    if let (Weights::Standard(r), LinearLayer::Standard(t)) = (s, l) {
        law_narrowed_stores_find_the_same(w, part, r, "weight"@, seq![out_dim, in_dim], t);
    }
}

} // verus!
