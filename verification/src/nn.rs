//! Linear layers and normalizations.
use crate::tensor::{
    array, broadcast_add, broadcast_add_refused, broadcast_add_result, broadcast_div,
    broadcast_div_refused, broadcast_div_result, broadcast_mul, broadcast_mul_refused,
    broadcast_mul_result, broadcast_sub, broadcast_sub_refused, broadcast_sub_result, cast,
    cast_refused, cast_to, dtype_of, layer, layer_refused, layer_result, layer_shaped, mean_last,
    mean_refused, mean_result, one, option_array, plus, plus_refused, plus_result, single,
    single_precision, sqrt, sqrt_refused, sqrt_result, square, square_refused, square_result,
    tensor_dims, tensor_kind, two, Array,
};
use crate::weights::{
    law_narrowed_stores_find_the_same, narrowed, weight_loaded, weight_refused, WeightStore,
};
use candle_core::scalar::Scalar;
use candle_core::{Error, Tensor};
use vstd::prelude::*;

verus! {

/// A linear map, with a bias or without.
pub struct Dense {
    /// One row for each output.
    pub weight: Tensor,
    /// One number for each output.
    pub bias: Option<Tensor>,
}

/// `r` is what a linear map gave for `x`.
pub open spec fn dense_result(l: Dense, x: Array, r: Array) -> bool {
    layer_result(array(l.weight), option_array(l.bias), x, r)
}

/// The tensors of a linear map are those of their names.
pub open spec fn dense_from(
    w: WeightStore,
    in_dim: usize,
    out_dim: usize,
    biased: bool,
    l: Dense,
) -> bool {
    &&& weight_loaded(w, "weight"@, seq![out_dim, in_dim], l.weight)
    &&& match l.bias {
        Some(b) => biased && weight_loaded(w, "bias"@, seq![out_dim], b),
        None => !biased,
    }
}

/// Applying a linear map to `x` can be refused.
pub open spec fn dense_refused(l: Dense, x: Array) -> bool {
    layer_refused(array(l.weight), option_array(l.bias), x)
}

/// A tensor of a linear map can be refused.
pub open spec fn dense_missing(w: WeightStore, in_dim: usize, out_dim: usize, biased: bool) -> bool {
    ||| weight_refused(w, "weight"@, seq![out_dim, in_dim])
    ||| biased && weight_refused(w, "bias"@, seq![out_dim])
}

/// A tensor of a linear map under one more part of the prefix can be refused.
pub open spec fn sub_dense_missing(
    w: WeightStore,
    part: Seq<char>,
    in_dim: usize,
    out_dim: usize,
    biased: bool,
) -> bool {
    exists|s: WeightStore| #[trigger]
        narrowed(w, part, s) && dense_missing(s, in_dim, out_dim, biased)
}

/// A linear map under one more part of the prefix.
pub open spec fn sub_dense_from(
    w: WeightStore,
    part: Seq<char>,
    in_dim: usize,
    out_dim: usize,
    biased: bool,
    l: Dense,
) -> bool {
    exists|s: WeightStore| #[trigger]
        narrowed(w, part, s) && dense_from(s, in_dim, out_dim, biased, l)
}

impl Dense {
    /// The weight is a matrix, and a bias has a number for each of its rows.
    pub open spec fn wf(self) -> bool {
        layer_shaped(array(self.weight), option_array(self.bias))
    }

    /// The linear map of a store.
    pub fn load(in_dim: usize, out_dim: usize, biased: bool, vb: &WeightStore) -> (r: Result<
        Dense,
        Error,
    >)
        ensures
            r matches Ok(l) ==> l.wf() && dense_from(*vb, in_dim, out_dim, biased, l),
            r is Err ==> dense_missing(*vb, in_dim, out_dim, biased),
    {
        let weight = vb.get(two(out_dim, in_dim), "weight")?;
        let bias = if biased {
            Some(vb.get(one(out_dim), "bias")?)
        } else {
            None
        };
        Ok(Dense { weight, bias })
    }

    /// The linear map of a store under one more part of its prefix.
    pub fn load_at(
        vb: &WeightStore,
        part: &str,
        in_dim: usize,
        out_dim: usize,
        biased: bool,
    ) -> (r: Result<Dense, Error>)
        ensures
            r matches Ok(l) ==> l.wf() && sub_dense_from(*vb, part@, in_dim, out_dim, biased, l),
            r matches Ok(l) ==> tensor_dims(l.weight) == seq![out_dim, in_dim],
            r is Err ==> sub_dense_missing(*vb, part@, in_dim, out_dim, biased),
    {
        let s = vb.pp(part);
        assert(narrowed(*vb, part@, s));
        let l = Dense::load(in_dim, out_dim, biased, &s)?;
        Ok(l)
    }

    /// Applies the map to the last axis.
    pub fn forward(&self, x: &Tensor) -> (r: Result<Tensor, Error>)
        ensures
            r matches Ok(y) ==> dense_result(*self, array(*x), array(y)),
            r is Err ==> dense_refused(*self, array(*x)),
            r matches Ok(y) ==> tensor_kind(y) == tensor_kind(*x),
            r matches Ok(y) ==> self.wf() ==> tensor_dims(*x).len() >= 1 && tensor_dims(y)
                == tensor_dims(*x).drop_last().push(tensor_dims(self.weight)[0]),
    {
        layer(&self.weight, &self.bias, x)
    }
}

/// Normalization by mean and deviation.
pub struct LayerNorm {
    pub weight: Tensor,
    pub bias: Tensor,
    /// What is added to the variance.
    pub eps: Scalar,
}

/// The intermediate results of normalization.
pub struct NormTrace {
    pub mean: Array,
    pub centered: Array,
    pub squares: Array,
    pub variance: Array,
    pub shifted: Array,
    pub deviation: Array,
}

/// Normalization of `x` up to the weights, with its intermediate results.
pub open spec fn centering_steps(n: LayerNorm, x: Array, t: NormTrace, r: Array) -> bool {
    &&& mean_result(x, t.mean)
    &&& broadcast_sub_result(x, t.mean, t.centered)
    &&& square_result(t.centered, t.squares)
    &&& mean_result(t.squares, t.variance)
    &&& plus_result(t.variance, n.eps, t.shifted)
    &&& sqrt_result(t.shifted, t.deviation)
    &&& broadcast_div_result(t.centered, t.deviation, r)
}

/// `r` is what normalization gave for `x` up to the weights.
pub open spec fn centered_by(n: LayerNorm, x: Array, r: Array) -> bool {
    exists|t: NormTrace| #[trigger] centering_steps(n, x, t, r)
}

/// A step of normalization up to the weights can be refused.
pub open spec fn centering_refused(n: LayerNorm, x: Array) -> bool {
    ||| mean_refused(x)
    ||| exists|mean: Array| #[trigger]
        mean_result(x, mean) && {
            ||| broadcast_sub_refused(x, mean)
            ||| exists|centered: Array| #[trigger]
                broadcast_sub_result(x, mean, centered) && scaling_refused(n, centered)
        }
}

/// A step of dividing centered numbers by their deviation can be refused.
pub open spec fn scaling_refused(n: LayerNorm, centered: Array) -> bool {
    ||| square_refused(centered)
    ||| exists|squares: Array| #[trigger]
        square_result(centered, squares) && {
            ||| mean_refused(squares)
            ||| exists|variance: Array| #[trigger]
                mean_result(squares, variance) && {
                    ||| plus_refused(variance, n.eps)
                    ||| exists|shifted: Array| #[trigger]
                        plus_result(variance, n.eps, shifted) && {
                            ||| sqrt_refused(shifted)
                            ||| exists|deviation: Array| #[trigger]
                                sqrt_result(shifted, deviation) && broadcast_div_refused(
                                    centered,
                                    deviation,
                                )
                        }
                }
        }
}

/// `r` is `x` times a weight, plus a bias.
pub open spec fn weighted_by(x: Array, weight: Array, bias: Array, r: Array) -> bool {
    exists|scaled: Array| #[trigger]
        broadcast_mul_result(x, weight, scaled) && broadcast_add_result(scaled, bias, r)
}

/// Multiplying `x` by a weight or adding a bias can be refused.
pub open spec fn weighting_refused(x: Array, weight: Array, bias: Array) -> bool {
    ||| broadcast_mul_refused(x, weight)
    ||| exists|scaled: Array| #[trigger]
        broadcast_mul_result(x, weight, scaled) && broadcast_add_refused(scaled, bias)
}

/// `r` is what normalization in single precision gave for `x`: it is converted back before the
/// weights are applied.
pub open spec fn norm_result(n: LayerNorm, x: Array, r: Array) -> bool {
    exists|input: Array, normed: Array, back: Array, weight: Array, bias: Array|
        {
            &&& #[trigger] cast_to(x, single(), input)
            &&& #[trigger] centered_by(n, input, normed)
            &&& #[trigger] cast_to(normed, x.kind, back)
            &&& #[trigger] cast_to(array(n.weight), x.kind, weight)
            &&& #[trigger] cast_to(array(n.bias), x.kind, bias)
            &&& weighted_by(back, weight, bias, r)
        }
}

/// A step of normalization in single precision can be refused.
pub open spec fn norm_refused(n: LayerNorm, x: Array) -> bool {
    ||| cast_refused(x, single())
    ||| cast_refused(array(n.weight), x.kind)
    ||| cast_refused(array(n.bias), x.kind)
    ||| exists|input: Array| #[trigger]
        cast_to(x, single(), input) && {
            ||| centering_refused(n, input)
            ||| exists|normed: Array| #[trigger]
                centered_by(n, input, normed) && {
                    ||| cast_refused(normed, x.kind)
                    ||| exists|back: Array, weight: Array, bias: Array|
                        {
                            &&& #[trigger] cast_to(normed, x.kind, back)
                            &&& #[trigger] cast_to(array(n.weight), x.kind, weight)
                            &&& #[trigger] cast_to(array(n.bias), x.kind, bias)
                            &&& weighting_refused(back, weight, bias)
                        }
                }
        }
}

/// `r` is what normalization in the element type of `x` gave.
pub open spec fn plain_norm_result(n: LayerNorm, x: Array, r: Array) -> bool {
    exists|normed: Array| #[trigger]
        centered_by(n, x, normed) && weighted_by(normed, array(n.weight), array(n.bias), r)
}

/// A step of normalization in the element type of `x` can be refused.
pub open spec fn plain_norm_refused(n: LayerNorm, x: Array) -> bool {
    ||| centering_refused(n, x)
    ||| exists|normed: Array| #[trigger]
        centered_by(n, x, normed) && weighting_refused(normed, array(n.weight), array(n.bias))
}

/// The tensors of a normalization are those of their names.
pub open spec fn norm_from(w: WeightStore, size: usize, eps: Scalar, n: LayerNorm) -> bool {
    &&& n.eps == eps
    &&& weight_loaded(w, "weight"@, seq![size], n.weight)
    &&& weight_loaded(w, "bias"@, seq![size], n.bias)
}

/// A tensor of a normalization can be refused.
pub open spec fn norm_missing(w: WeightStore, size: usize) -> bool {
    weight_refused(w, "weight"@, seq![size]) || weight_refused(w, "bias"@, seq![size])
}

/// A tensor of a normalization under one more part of the prefix can be refused.
pub open spec fn sub_norm_missing(w: WeightStore, part: Seq<char>, size: usize) -> bool {
    exists|s: WeightStore| #[trigger] narrowed(w, part, s) && norm_missing(s, size)
}

/// A normalization under one more part of the prefix.
pub open spec fn sub_norm_from(
    w: WeightStore,
    part: Seq<char>,
    size: usize,
    eps: Scalar,
    n: LayerNorm,
) -> bool {
    exists|s: WeightStore| #[trigger] narrowed(w, part, s) && norm_from(s, size, eps, n)
}

impl LayerNorm {
    /// The normalization of a store.
    pub fn new(hidden_size: usize, eps: Scalar, vb: &WeightStore) -> (r: Result<LayerNorm, Error>)
        ensures
            r matches Ok(n) ==> norm_from(*vb, hidden_size, eps, n),
            r is Err ==> norm_missing(*vb, hidden_size),
    {
        let weight = vb.get(one(hidden_size), "weight")?;
        let bias = vb.get(one(hidden_size), "bias")?;
        Ok(LayerNorm { weight, bias, eps })
    }

    /// The normalization of a store under one more part of its prefix.
    pub fn load_at(vb: &WeightStore, part: &str, size: usize, eps: Scalar) -> (r: Result<
        LayerNorm,
        Error,
    >)
        ensures
            r matches Ok(n) ==> sub_norm_from(*vb, part@, size, eps, n),
            r is Err ==> sub_norm_missing(*vb, part@, size),
    {
        let s = vb.pp(part);
        assert(narrowed(*vb, part@, s));
        let n = LayerNorm::new(size, eps, &s)?;
        Ok(n)
    }

    /// Centers along the last axis and divides by the deviation.
    fn center(&self, x: &Tensor) -> (r: Result<Tensor, Error>)
        ensures
            r matches Ok(y) ==> centered_by(*self, array(*x), array(y)),
            r is Err ==> centering_refused(*self, array(*x)),
    {
        let mean = mean_last(x)?;
        let centered = broadcast_sub(x, &mean)?;
        let squares = square(&centered)?;
        let variance = mean_last(&squares)?;
        let shifted = plus(&variance, &self.eps)?;
        let deviation = sqrt(&shifted)?;
        let r = broadcast_div(&centered, &deviation)?;
        proof {
            let t = NormTrace {
                mean: array(mean),
                centered: array(centered),
                squares: array(squares),
                variance: array(variance),
                shifted: array(shifted),
                deviation: array(deviation),
            };
            assert(centering_steps(*self, array(*x), t, array(r)));
        }
        Ok(r)
    }

    /// Normalizes along the last axis in single precision.
    pub fn forward(&self, x: &Tensor) -> (r: Result<Tensor, Error>)
        ensures
            r matches Ok(y) ==> norm_result(*self, array(*x), array(y)),
            r is Err ==> norm_refused(*self, array(*x)),
    {
        let input = cast(x, single_precision())?;
        let normed = self.center(&input)?;
        let back = cast(&normed, dtype_of(x))?;
        let weight = cast(&self.weight, dtype_of(x))?;
        let bias = cast(&self.bias, dtype_of(x))?;
        weigh(&back, &weight, &bias)
    }

    /// Normalizes along the last axis in the element type of the input.
    pub fn forward_plain(&self, x: &Tensor) -> (r: Result<Tensor, Error>)
        ensures
            r matches Ok(y) ==> plain_norm_result(*self, array(*x), array(y)),
            r is Err ==> plain_norm_refused(*self, array(*x)),
    {
        let normed = self.center(x)?;
        weigh(&normed, &self.weight, &self.bias)
    }
}

/// A tensor times a weight, plus a bias.
fn weigh(x: &Tensor, weight: &Tensor, bias: &Tensor) -> (r: Result<Tensor, Error>)
    ensures
        r matches Ok(y) ==> weighted_by(array(*x), array(*weight), array(*bias), array(y)),
        r is Err ==> weighting_refused(array(*x), array(*weight), array(*bias)),
{
    let scaled = broadcast_mul(x, weight)?;
    broadcast_add(&scaled, bias)
}

/// `r` is what is left of `x` without its mean, over the root of the mean of its squares and a little more.
pub open spec fn standardized(x: Array, more: Scalar, r: Array) -> bool {
    exists|mean: Array, rest: Array, spread: Array|
        {
            &&& #[trigger] mean_result(x, mean)
            &&& #[trigger] broadcast_sub_result(x, mean, rest)
            &&& #[trigger] root_mean_square(rest, more, spread)
            &&& broadcast_div_result(rest, spread, r)
        }
}

/// `r` is the root of the mean of the squares of `x` and a little more.
pub open spec fn root_mean_square(x: Array, more: Scalar, r: Array) -> bool {
    exists|squares: Array, mean: Array, sum: Array|
        {
            &&& #[trigger] square_result(x, squares)
            &&& #[trigger] mean_result(squares, mean)
            &&& #[trigger] plus_result(mean, more, sum)
            &&& sqrt_result(sum, r)
        }
}

proof fn lemma_standardized(n: LayerNorm, x: Array, r: Array)
    requires
        centered_by(n, x, r),
    ensures
        standardized(x, n.eps, r),
{
    let t = choose|t: NormTrace| #[trigger] centering_steps(n, x, t, r);
    assert(square_result(t.centered, t.squares));
    assert(mean_result(t.squares, t.variance));
    assert(plus_result(t.variance, n.eps, t.shifted));
    assert(root_mean_square(t.centered, n.eps, t.deviation));
    assert(mean_result(x, t.mean));
}

/// Normalization takes the mean away, divides by the deviation, and then applies the weight and the bias, in
/// single precision or in the type of the input.
pub proof fn law_mean_goes_before_the_weights(n: LayerNorm, x: Array, r: Array)
    ensures
        plain_norm_result(n, x, r) ==> exists|even: Array, scaled: Array|
            {
                &&& #[trigger] standardized(x, n.eps, even)
                &&& #[trigger] broadcast_mul_result(even, array(n.weight), scaled)
                &&& broadcast_add_result(scaled, array(n.bias), r)
            },
        norm_result(n, x, r) ==> exists|
            exact: Array,
            even: Array,
            back: Array,
            weight: Array,
            bias: Array,
            scaled: Array,
        |
            {
                &&& #[trigger] cast_to(x, single(), exact)
                &&& #[trigger] standardized(exact, n.eps, even)
                &&& #[trigger] cast_to(even, x.kind, back)
                &&& #[trigger] cast_to(array(n.weight), x.kind, weight)
                &&& #[trigger] cast_to(array(n.bias), x.kind, bias)
                &&& #[trigger] broadcast_mul_result(back, weight, scaled)
                &&& broadcast_add_result(scaled, bias, r)
            },
{
    if plain_norm_result(n, x, r) {
        let normed = choose|normed: Array| #[trigger]
            centered_by(n, x, normed) && weighted_by(normed, array(n.weight), array(n.bias), r);
        lemma_standardized(n, x, normed);
        let scaled = choose|scaled: Array| #[trigger]
            broadcast_mul_result(normed, array(n.weight), scaled) && broadcast_add_result(
                scaled,
                array(n.bias),
                r,
            );
        assert(broadcast_mul_result(normed, array(n.weight), scaled));
    }
    if norm_result(n, x, r) {
        let (input, normed, back, weight, bias) = choose|
            input: Array,
            normed: Array,
            back: Array,
            weight: Array,
            bias: Array,
        |
            {
                &&& #[trigger] cast_to(x, single(), input)
                &&& #[trigger] centered_by(n, input, normed)
                &&& #[trigger] cast_to(normed, x.kind, back)
                &&& #[trigger] cast_to(array(n.weight), x.kind, weight)
                &&& #[trigger] cast_to(array(n.bias), x.kind, bias)
                &&& weighted_by(back, weight, bias, r)
            };
        lemma_standardized(n, input, normed);
        let scaled = choose|scaled: Array| #[trigger]
            broadcast_mul_result(back, weight, scaled) && broadcast_add_result(scaled, bias, r);
        assert(broadcast_mul_result(back, weight, scaled));
    }
}

/// A linear map is made of the tensors that a store has under these names.
pub open spec fn dense_named(
    w: WeightStore,
    weight: Seq<char>,
    bias: Option<Seq<char>>,
    in_dim: usize,
    out_dim: usize,
    l: Dense,
) -> bool {
    &&& weight_loaded(w, weight, seq![out_dim, in_dim], l.weight)
    &&& match (bias, l.bias) {
        (Some(name), Some(b)) => weight_loaded(w, name, seq![out_dim], b),
        (None, None) => true,
        _ => false,
    }
}

/// A normalization is made of the tensors that a store has under these names.
pub open spec fn norm_named(
    w: WeightStore,
    weight: Seq<char>,
    bias: Seq<char>,
    size: usize,
    eps: Scalar,
    n: LayerNorm,
) -> bool {
    &&& weight_loaded(w, weight, seq![size], n.weight)
    &&& weight_loaded(w, bias, seq![size], n.bias)
    &&& n.eps == eps
}

/// A linear map under a part of the prefix has the part before its names.
pub proof fn law_maps_have_full_names(
    w: WeightStore,
    part: Seq<char>,
    in_dim: usize,
    out_dim: usize,
    biased: bool,
    l: Dense,
)
    requires
        sub_dense_from(w, part, in_dim, out_dim, biased, l),
    ensures
        dense_named(
            w,
            part + ".weight"@,
            if biased {
                Some(part + ".bias"@)
            } else {
                None
            },
            in_dim,
            out_dim,
            l,
        ),
{
    let s = choose|s: WeightStore| #[trigger]
        narrowed(w, part, s) && dense_from(s, in_dim, out_dim, biased, l);
    lemma_dotted_ends(part);
    law_narrowed_stores_find_the_same(w, part, s, "weight"@, seq![out_dim, in_dim], l.weight);
    if let Some(b) = l.bias {
        law_narrowed_stores_find_the_same(w, part, s, "bias"@, seq![out_dim], b);
    }
}

/// A normalization under a part of the prefix has the part before its names.
pub proof fn law_normalizations_have_full_names(
    w: WeightStore,
    part: Seq<char>,
    size: usize,
    eps: Scalar,
    n: LayerNorm,
)
    requires
        sub_norm_from(w, part, size, eps, n),
    ensures
        norm_named(w, part + ".weight"@, part + ".bias"@, size, eps, n),
{
    let s = choose|s: WeightStore| #[trigger] narrowed(w, part, s) && norm_from(s, size, eps, n);
    lemma_dotted_ends(part);
    law_narrowed_stores_find_the_same(w, part, s, "weight"@, seq![size], n.weight);
    law_narrowed_stores_find_the_same(w, part, s, "bias"@, seq![size], n.bias);
}

proof fn lemma_dotted_ends(part: Seq<char>)
    ensures
        part + seq!['.'] + "weight"@ == part + ".weight"@,
        part + seq!['.'] + "bias"@ == part + ".bias"@,
{
    reveal_strlit("weight");
    reveal_strlit("bias");
    reveal_strlit(".weight");
    reveal_strlit(".bias");
    assert(part + seq!['.'] + "weight"@ =~= part + ".weight"@);
    assert(part + seq!['.'] + "bias"@ =~= part + ".bias"@);
}

} // verus!
