//! The layers of the audio encoder of Qwen3-ASR.
use crate::attention::{
    agreement, entries_by_head, entries_by_position, heads_first, heads_refused,
    lemma_entries_by_head, lemma_entries_by_position, lemma_rows_as_columns, under, values_by_score,
};
use crate::nn::{
    dense_named, dense_refused, dense_result, law_maps_have_full_names,
    law_normalizations_have_full_names, norm_named, norm_refused, norm_result, sub_dense_from,
    sub_dense_missing, sub_norm_from, sub_norm_missing, Dense, LayerNorm,
};
use crate::tensor::{
    add_refused, add_result, all_ordinary, array, broadcast_add, broadcast_add_refused,
    broadcast_add_result, broadcast_dims, broadcast_extent, cast, cast_to, contiguous,
    contiguous_refused, conv2d, conv2d_refused, conv2d_result, countless, dims, dtype_of, exchanged,
    fits, gelu, gelu_refused, gelu_result, gives_zeros, in_turn, is_index, is_order, is_permuted,
    layer_result, layout_refused, lemma_offset_of_four, lemma_same_numbers, lemma_volume_matrix,
    lemma_volume_vector, lemma_way_around_zeros, matmul, matmul_refused, matmul_result, offset, one,
    option_array, over, over_refused, over_result, permute, plain_groups, refuse, reshape_refused,
    reshaped, root_of, same_numbers, single, single_precision, slid, softmax_last, softmax_result,
    square_root, sum, swap_axes, tensor_dims, unsqueeze, volume, with_axis, with_way_around, Array,
    Sliding,
};
use crate::weights::{narrowed, weight_loaded, weight_refused, WeightStore};
use candle_core::scalar::Scalar;
use candle_core::{Error, Tensor};
use vstd::prelude::*;

verus! {

/// Sizes of the encoder.
#[derive(Debug, Clone, Copy, PartialEq, Eq, Structural)]
pub struct AuTConfig {
    pub d_model: usize,
    pub num_layers: usize,
    pub num_attention_heads: usize,
    pub intermediate_size: usize,
    pub num_mel_bins: usize,
    pub output_dim: usize,
    pub downsample_hidden_size: usize,
}

impl AuTConfig {
    /// The sizes of the model with 0.6 billion parameters.
    pub fn qwen3_asr_0_6b() -> (r: AuTConfig)
        ensures
            r == (AuTConfig {
                d_model: 896,
                num_layers: 18,
                num_attention_heads: 14,
                intermediate_size: 3584,
                num_mel_bins: 128,
                output_dim: 1024,
                downsample_hidden_size: 480,
            }),
    {
        AuTConfig {
            d_model: 896,
            num_layers: 18,
            num_attention_heads: 14,
            intermediate_size: 3584,
            num_mel_bins: 128,
            output_dim: 1024,
            downsample_hidden_size: 480,
        }
    }

    /// The width of a head.
    pub fn head_dim(&self) -> (r: usize)
        requires
            self.num_attention_heads > 0,
        ensures
            r == self.d_model / self.num_attention_heads,
    {
        self.d_model / self.num_attention_heads
    }

    /// There are heads, and widths can be counted.
    pub open spec fn wf(self) -> bool {
        &&& self.num_attention_heads >= 1
        &&& self.d_model <= i64::MAX
        &&& self.downsample_hidden_size * (self.num_mel_bins / 8) <= usize::MAX
    }
}

// ---------------------------------------------------------------------------
// Attention
// ---------------------------------------------------------------------------

/// Attention of every position to every other.
pub struct SelfAttention {
    pub q_proj: Dense,
    pub k_proj: Dense,
    pub v_proj: Dense,
    pub out_proj: Dense,
    pub num_heads: usize,
    pub head_dim: usize,
}

/// The intermediate results of attention.
pub struct SelfTrace {
    pub q: Array,
    pub k: Array,
    pub v: Array,
    pub q_heads: Array,
    pub k_heads: Array,
    pub v_heads: Array,
    pub k_turned: Array,
    pub products: Array,
    pub scores: Array,
    pub single: Array,
    pub soft: Array,
    pub weights: Array,
    pub mixed: Array,
    pub ordered: Array,
}

/// Attention, with its intermediate results.
pub open spec fn self_attention_steps(a: SelfAttention, x: Array, t: SelfTrace, r: Array) -> bool {
    let cut = seq![x.dims[0], x.dims[1], a.num_heads, a.head_dim];
    &&& dense_result(a.q_proj, x, t.q)
    &&& dense_result(a.k_proj, x, t.k)
    &&& dense_result(a.v_proj, x, t.v)
    &&& heads_first(under(t.q, cut), t.q_heads)
    &&& heads_first(under(t.k, cut), t.k_heads)
    &&& heads_first(under(t.v, cut), t.v_heads)
    &&& is_permuted(t.k_heads, exchanged(t.k_heads.dims.len(), 2, 3), t.k_turned)
    &&& matmul_result(t.q_heads, t.k_turned, t.products)
    &&& over_result(t.products, root_of(a.head_dim as i64), t.scores)
    &&& cast_to(t.scores, single(), t.single)
    &&& softmax_result(t.single, t.soft)
    &&& cast_to(t.soft, t.scores.kind, t.weights)
    &&& matmul_result(t.weights, t.v_heads, t.mixed)
    &&& heads_first(t.mixed, t.ordered)
    &&& dense_result(
        a.out_proj,
        under(t.ordered, seq![x.dims[0], x.dims[1], (a.num_heads * a.head_dim) as usize]),
        r,
    )
}

/// `r` is what attention gave for `x`.
pub open spec fn self_attention_result(a: SelfAttention, x: Array, r: Array) -> bool {
    exists|t: SelfTrace| #[trigger] self_attention_steps(a, x, t, r)
}

/// A step of cutting `x` into heads can be refused.
pub open spec fn cutting_refused(x: Array, cut: Seq<usize>) -> bool {
    reshape_refused(x, cut) || heads_refused(under(x, cut))
}

/// A step from heads to the values that the scores weigh can be refused.
pub open spec fn mixing_refused(a: SelfAttention, q: Array, k: Array, v: Array) -> bool {
    let root = root_of(a.head_dim as i64);
    ||| k.dims.len() < 4
    ||| exists|turned: Array| #[trigger]
        is_permuted(k, exchanged(k.dims.len(), 2, 3), turned) && {
            ||| matmul_refused(q, turned)
            ||| exists|products: Array| #[trigger]
                matmul_result(q, turned, products) && {
                    ||| over_refused(products, root)
                    ||| exists|scores: Array| #[trigger]
                        over_result(products, root, scores) && crate::attention::mixing_refused(
                            scores,
                            v,
                        )
                }
        }
}

/// `mixed` are values, weighed by a softmax of the products of queries and keys over the root of
/// the width.
pub open spec fn mixing_result(
    a: SelfAttention,
    q: Array,
    k: Array,
    v: Array,
    mixed: Array,
) -> bool {
    exists|turned: Array, products: Array, scores: Array|
        {
            &&& #[trigger] is_permuted(k, exchanged(k.dims.len(), 2, 3), turned)
            &&& #[trigger] matmul_result(q, turned, products)
            &&& #[trigger] over_result(products, root_of(a.head_dim as i64), scores)
            &&& crate::attention::mixing_result(scores, v, mixed)
        }
}

/// Attention is refused where there are not three axes; a step of it can be refused too.
pub open spec fn self_attention_refused(a: SelfAttention, x: Array) -> bool {
    let cut = seq![x.dims[0], x.dims[1], a.num_heads, a.head_dim];
    let wide = seq![x.dims[0], x.dims[1], (a.num_heads * a.head_dim) as usize];
    ||| x.dims.len() != 3
    ||| dense_refused(a.q_proj, x)
    ||| dense_refused(a.k_proj, x)
    ||| dense_refused(a.v_proj, x)
    ||| exists|q: Array, k: Array, v: Array|
        {
            &&& #[trigger] dense_result(a.q_proj, x, q)
            &&& #[trigger] dense_result(a.k_proj, x, k)
            &&& #[trigger] dense_result(a.v_proj, x, v)
            &&& {
                ||| cutting_refused(q, cut)
                ||| cutting_refused(k, cut)
                ||| cutting_refused(v, cut)
                ||| exists|q_heads: Array, k_heads: Array, v_heads: Array|
                    {
                        &&& #[trigger] heads_first(under(q, cut), q_heads)
                        &&& #[trigger] heads_first(under(k, cut), k_heads)
                        &&& #[trigger] heads_first(under(v, cut), v_heads)
                        &&& {
                            ||| mixing_refused(a, q_heads, k_heads, v_heads)
                            ||| exists|mixed: Array| #[trigger]
                                mixing_result(a, q_heads, k_heads, v_heads, mixed) && {
                                    ||| heads_refused(mixed)
                                    ||| exists|ordered: Array| #[trigger]
                                        heads_first(mixed, ordered) && (reshape_refused(
                                            ordered,
                                            wide,
                                        ) || dense_refused(a.out_proj, under(ordered, wide)))
                                }
                        }
                    }
            }
        }
}

/// A weight of attention can be refused.
pub open spec fn self_attention_missing(c: AuTConfig, w: WeightStore) -> bool {
    ||| sub_dense_missing(w, "q_proj"@, c.d_model, c.d_model, true)
    ||| sub_dense_missing(w, "k_proj"@, c.d_model, c.d_model, true)
    ||| sub_dense_missing(w, "v_proj"@, c.d_model, c.d_model, true)
    ||| sub_dense_missing(w, "out_proj"@, c.d_model, c.d_model, true)
}

/// The weights of attention are those of their names.
pub open spec fn self_attention_from(c: AuTConfig, w: WeightStore, a: SelfAttention) -> bool {
    &&& sub_dense_from(w, "q_proj"@, c.d_model, c.d_model, true, a.q_proj)
    &&& sub_dense_from(w, "k_proj"@, c.d_model, c.d_model, true, a.k_proj)
    &&& sub_dense_from(w, "v_proj"@, c.d_model, c.d_model, true, a.v_proj)
    &&& sub_dense_from(w, "out_proj"@, c.d_model, c.d_model, true, a.out_proj)
    &&& a.num_heads == c.num_attention_heads
    &&& a.head_dim == c.d_model / c.num_attention_heads
}

fn cut_heads(x: &Tensor, b: usize, s: usize, heads: usize, width: usize) -> (r: Result<
    Tensor,
    Error,
>)
    ensures
        r matches Ok(y) ==> heads_first(under(array(*x), seq![b, s, heads, width]), array(y)),
        r is Err ==> cutting_refused(array(*x), seq![b, s, heads, width]),
{
    let d: Vec<usize> = vec![b, s, heads, width];
    assert(d@ =~= seq![b, s, heads, width]);
    let cut = reshaped(x, d)?;
    let swapped = swap_axes(&cut, 1, 2)?;
    assert(heads_first(array(cut), array(swapped)));
    contiguous(&swapped)
}

impl SelfAttention {
    /// The width of all heads can be counted.
    pub open spec fn wf(self) -> bool {
        self.num_heads * self.head_dim <= usize::MAX && self.head_dim <= i64::MAX
    }

    /// The attention of a store.
    pub fn new(config: &AuTConfig, vb: &WeightStore) -> (r: Result<SelfAttention, Error>)
        requires
            config.wf(),
        ensures
            r matches Ok(a) ==> a.wf() && self_attention_from(*config, *vb, a),
            r is Err ==> self_attention_missing(*config, *vb),
    {
        let d: usize = config.d_model;
        let head_dim = config.head_dim();
        let q_proj = Dense::load_at(vb, "q_proj", d, d, true)?;
        let k_proj = Dense::load_at(vb, "k_proj", d, d, true)?;
        let v_proj = Dense::load_at(vb, "v_proj", d, d, true)?;
        let out_proj = Dense::load_at(vb, "out_proj", d, d, true)?;
        proof {
            let n = config.num_attention_heads as int;
            vstd::arithmetic::div_mod::lemma_fundamental_div_mod(d as int, n);
            vstd::arithmetic::div_mod::lemma_div_is_ordered_by_denominator(d as int, 1, n);
            assert(n * (d as int / n) <= d);
        }
        Ok(
            SelfAttention {
                q_proj,
                k_proj,
                v_proj,
                out_proj,
                num_heads: config.num_attention_heads,
                head_dim,
            },
        )
    }

    /// Attention over positions. The axes are recordings, positions and entries.
    pub fn forward(&self, hidden_states: &Tensor) -> (r: Result<Tensor, Error>)
        requires
            self.wf(),
        ensures
            r is Ok ==> tensor_dims(*hidden_states).len() == 3,
            r matches Ok(y) ==> self_attention_result(*self, array(*hidden_states), array(y)),
            r is Err ==> self_attention_refused(*self, array(*hidden_states)),
    {
        let x = hidden_states;
        let d = dims(x);
        if d.len() != 3 {
            return refuse(x);
        }
        let q = self.q_proj.forward(x)?;
        let k = self.k_proj.forward(x)?;
        let v = self.v_proj.forward(x)?;
        let q_heads = cut_heads(&q, d[0], d[1], self.num_heads, self.head_dim)?;
        let k_heads = cut_heads(&k, d[0], d[1], self.num_heads, self.head_dim)?;
        let v_heads = cut_heads(&v, d[0], d[1], self.num_heads, self.head_dim)?;
        let k_turned = swap_axes(&k_heads, 2, 3)?;
        let products = matmul(&q_heads, &k_turned)?;
        let root = square_root(self.head_dim as i64)?;
        let scores = over(&products, &root)?;
        let single = cast(&scores, single_precision())?;
        let soft = softmax_last(&single)?;
        let weights = cast(&soft, dtype_of(&scores))?;
        let mixed = matmul(&weights, &v_heads)?;
        assert(crate::attention::mixing_result(array(scores), array(v_heads), array(mixed)));
        assert(mixing_result(
            *self,
            array(q_heads),
            array(k_heads),
            array(v_heads),
            array(mixed),
        ));
        let swapped = swap_axes(&mixed, 1, 2)?;
        assert(heads_first(array(mixed), array(swapped)));
        let ordered = contiguous(&swapped)?;
        assert(0 <= self.num_heads * self.head_dim) by (nonlinear_arith);
        let wide: Vec<usize> = vec![d[0], d[1], self.num_heads * self.head_dim];
        assert(wide@ =~= seq![d@[0], d@[1], (self.num_heads * self.head_dim) as usize]);
        let flat = reshaped(&ordered, wide)?;
        let r = self.out_proj.forward(&flat)?;
        proof {
            let t = SelfTrace {
                q: array(q),
                k: array(k),
                v: array(v),
                q_heads: array(q_heads),
                k_heads: array(k_heads),
                v_heads: array(v_heads),
                k_turned: array(k_turned),
                products: array(products),
                scores: array(scores),
                single: array(single),
                soft: array(soft),
                weights: array(weights),
                mixed: array(mixed),
                ordered: array(ordered),
            };
            assert(self_attention_steps(*self, array(*x), t, array(r)));
        }
        Ok(r)
    }
}

// ---------------------------------------------------------------------------
// Feed-forward and the layer as a whole
// ---------------------------------------------------------------------------

/// Two linear maps with a Gaussian error linear unit between them.
pub struct FeedForward {
    pub fc1: Dense,
    pub fc2: Dense,
}

/// `r` is what two linear maps with an activation between them gave for `x`.
pub open spec fn two_maps_result(first: Dense, second: Dense, x: Array, r: Array) -> bool {
    exists|a: Array, b: Array|
        dense_result(first, x, a) && #[trigger] gelu_result(a, b) && dense_result(second, b, r)
}

/// A step of two linear maps with an activation between them can be refused for `x`.
pub open spec fn two_maps_refused(first: Dense, second: Dense, x: Array) -> bool {
    ||| dense_refused(first, x)
    ||| exists|a: Array| #[trigger]
        dense_result(first, x, a) && {
            ||| gelu_refused(a)
            ||| exists|b: Array| #[trigger] gelu_result(a, b) && dense_refused(second, b)
        }
}

fn two_maps(first: &Dense, second: &Dense, x: &Tensor) -> (r: Result<Tensor, Error>)
    ensures
        r matches Ok(y) ==> two_maps_result(*first, *second, array(*x), array(y)),
        r is Err ==> two_maps_refused(*first, *second, array(*x)),
{
    let a = first.forward(x)?;
    let b = gelu(&a)?;
    let r = second.forward(&b)?;
    assert(gelu_result(array(a), array(b)));
    Ok(r)
}

/// The weights of a feed-forward network are those of their names.
pub open spec fn feed_forward_from(c: AuTConfig, w: WeightStore, f: FeedForward) -> bool {
    &&& sub_dense_from(w, "fc1"@, c.d_model, c.intermediate_size, true, f.fc1)
    &&& sub_dense_from(w, "fc2"@, c.intermediate_size, c.d_model, true, f.fc2)
}

/// A weight of a feed-forward network can be refused.
pub open spec fn feed_forward_missing(c: AuTConfig, w: WeightStore) -> bool {
    ||| sub_dense_missing(w, "fc1"@, c.d_model, c.intermediate_size, true)
    ||| sub_dense_missing(w, "fc2"@, c.intermediate_size, c.d_model, true)
}

impl FeedForward {
    /// The network of a store.
    pub fn new(config: &AuTConfig, vb: &WeightStore) -> (r: Result<FeedForward, Error>)
        ensures
            r matches Ok(f) ==> feed_forward_from(*config, *vb, f),
            r is Err ==> feed_forward_missing(*config, *vb),
    {
        let fc1 = Dense::load_at(vb, "fc1", config.d_model, config.intermediate_size, true)?;
        let fc2 = Dense::load_at(vb, "fc2", config.intermediate_size, config.d_model, true)?;
        Ok(FeedForward { fc1, fc2 })
    }

    /// Applies the network to the last axis.
    pub fn forward(&self, x: &Tensor) -> (r: Result<Tensor, Error>)
        ensures
            r matches Ok(y) ==> two_maps_result(self.fc1, self.fc2, array(*x), array(y)),
            r is Err ==> two_maps_refused(self.fc1, self.fc2, array(*x)),
    {
        two_maps(&self.fc1, &self.fc2, x)
    }
}

/// A layer of the encoder.
pub struct EncoderLayer {
    pub self_attn: SelfAttention,
    pub mlp: FeedForward,
    pub self_attn_layer_norm: LayerNorm,
    pub final_layer_norm: LayerNorm,
}

/// The intermediate results of a layer.
pub struct LayerTrace {
    pub normed: Array,
    pub attended: Array,
    pub middle: Array,
    pub normed_again: Array,
    pub fed: Array,
}

/// A layer, with its intermediate results: attention over the normalized input, and a feed-forward
/// network over what came of it, normalized; each one is added to its input.
pub open spec fn encoder_layer_steps(l: EncoderLayer, x: Array, t: LayerTrace, r: Array) -> bool {
    &&& norm_result(l.self_attn_layer_norm, x, t.normed)
    &&& self_attention_result(l.self_attn, t.normed, t.attended)
    &&& add_result(x, t.attended, t.middle)
    &&& norm_result(l.final_layer_norm, t.middle, t.normed_again)
    &&& two_maps_result(l.mlp.fc1, l.mlp.fc2, t.normed_again, t.fed)
    &&& add_result(t.middle, t.fed, r)
}

/// `r` is what a layer gave for `x`.
pub open spec fn encoder_layer_result(l: EncoderLayer, x: Array, r: Array) -> bool {
    exists|t: LayerTrace| #[trigger] encoder_layer_steps(l, x, t, r)
}

/// A step of a layer can be refused for `x`.
pub open spec fn encoder_layer_refused(l: EncoderLayer, x: Array) -> bool {
    ||| norm_refused(l.self_attn_layer_norm, x)
    ||| exists|normed: Array| #[trigger]
        norm_result(l.self_attn_layer_norm, x, normed) && {
            ||| self_attention_refused(l.self_attn, normed)
            ||| exists|attended: Array| #[trigger]
                self_attention_result(l.self_attn, normed, attended) && {
                    ||| add_refused(x, attended)
                    ||| exists|middle: Array| #[trigger]
                        add_result(x, attended, middle) && feeding_refused(l, middle)
                }
        }
}

/// A step of the second half of a layer can be refused.
pub open spec fn feeding_refused(l: EncoderLayer, middle: Array) -> bool {
    ||| norm_refused(l.final_layer_norm, middle)
    ||| exists|normed: Array| #[trigger]
        norm_result(l.final_layer_norm, middle, normed) && {
            ||| two_maps_refused(l.mlp.fc1, l.mlp.fc2, normed)
            ||| exists|fed: Array| #[trigger]
                two_maps_result(l.mlp.fc1, l.mlp.fc2, normed, fed) && add_refused(middle, fed)
        }
}

/// A weight of a layer can be refused.
pub open spec fn encoder_layer_missing(c: AuTConfig, w: WeightStore) -> bool {
    ||| exists|s: WeightStore| #[trigger]
        narrowed(w, "self_attn"@, s) && self_attention_missing(c, s)
    ||| feed_forward_missing(c, w)
    ||| sub_norm_missing(w, "self_attn_layer_norm"@, c.d_model)
    ||| sub_norm_missing(w, "final_layer_norm"@, c.d_model)
}

/// The weights of a layer are those of their names.
pub open spec fn encoder_layer_from(
    c: AuTConfig,
    eps: Scalar,
    w: WeightStore,
    l: EncoderLayer,
) -> bool {
    &&& exists|s: WeightStore| #[trigger]
        narrowed(w, "self_attn"@, s) && self_attention_from(c, s, l.self_attn)
    &&& feed_forward_from(c, w, l.mlp)
    &&& sub_norm_from(w, "self_attn_layer_norm"@, c.d_model, eps, l.self_attn_layer_norm)
    &&& sub_norm_from(w, "final_layer_norm"@, c.d_model, eps, l.final_layer_norm)
}

impl EncoderLayer {
    /// The layer of a store. `eps` is what normalization adds to the variance.
    pub fn new(config: &AuTConfig, eps: Scalar, vb: &WeightStore) -> (r: Result<
        EncoderLayer,
        Error,
    >)
        requires
            config.wf(),
        ensures
            r matches Ok(l) ==> l.self_attn.wf() && encoder_layer_from(*config, eps, *vb, l),
            r is Err ==> encoder_layer_missing(*config, *vb),
    {
        let attn_vb = vb.pp("self_attn");
        assert(narrowed(*vb, "self_attn"@, attn_vb));
        let self_attn = SelfAttention::new(config, &attn_vb)?;
        let mlp = FeedForward::new(config, vb)?;
        let self_attn_layer_norm = LayerNorm::load_at(
            vb,
            "self_attn_layer_norm",
            config.d_model,
            eps,
        )?;
        let final_layer_norm = LayerNorm::load_at(vb, "final_layer_norm", config.d_model, eps)?;
        Ok(EncoderLayer { self_attn, mlp, self_attn_layer_norm, final_layer_norm })
    }

    /// The layer over positions.
    pub fn forward(&self, hidden_states: &Tensor) -> (r: Result<Tensor, Error>)
        requires
            self.self_attn.wf(),
        ensures
            r matches Ok(y) ==> encoder_layer_result(*self, array(*hidden_states), array(y)),
            r is Err ==> encoder_layer_refused(*self, array(*hidden_states)),
    {
        let normed = self.self_attn_layer_norm.forward(hidden_states)?;
        let attended = self.self_attn.forward(&normed)?;
        let middle = sum(hidden_states, &attended)?;
        let normed_again = self.final_layer_norm.forward(&middle)?;
        let fed = self.mlp.forward(&normed_again)?;
        let r = sum(&middle, &fed)?;
        proof {
            let t = LayerTrace {
                normed: array(normed),
                attended: array(attended),
                middle: array(middle),
                normed_again: array(normed_again),
                fed: array(fed),
            };
            assert(encoder_layer_steps(*self, array(*hidden_states), t, array(r)));
        }
        Ok(r)
    }
}

/// Two linear maps from the encoder's width to the decoder's.
pub struct AudioProjector {
    pub proj1: Dense,
    pub proj2: Dense,
}

/// The weights of the projector are those of their names.
pub open spec fn projector_from(c: AuTConfig, w: WeightStore, p: AudioProjector) -> bool {
    &&& sub_dense_from(w, "proj1"@, c.d_model, c.d_model, true, p.proj1)
    &&& sub_dense_from(w, "proj2"@, c.d_model, c.output_dim, true, p.proj2)
}

/// A weight of the projector can be refused.
pub open spec fn projector_missing(c: AuTConfig, w: WeightStore) -> bool {
    ||| sub_dense_missing(w, "proj1"@, c.d_model, c.d_model, true)
    ||| sub_dense_missing(w, "proj2"@, c.d_model, c.output_dim, true)
}

impl AudioProjector {
    /// The projector of a store.
    pub fn new(config: &AuTConfig, vb: &WeightStore) -> (r: Result<AudioProjector, Error>)
        ensures
            r matches Ok(p) ==> projector_from(*config, *vb, p),
            r is Err ==> projector_missing(*config, *vb),
    {
        let proj1 = Dense::load_at(vb, "proj1", config.d_model, config.d_model, true)?;
        let proj2 = Dense::load_at(vb, "proj2", config.d_model, config.output_dim, true)?;
        Ok(AudioProjector { proj1, proj2 })
    }

    /// Applies the projector to the last axis.
    pub fn forward(&self, x: &Tensor) -> (r: Result<Tensor, Error>)
        ensures
            r matches Ok(y) ==> two_maps_result(self.proj1, self.proj2, array(*x), array(y)),
            r is Err ==> two_maps_refused(self.proj1, self.proj2, array(*x)),
    {
        two_maps(&self.proj1, &self.proj2, x)
    }
}

// ---------------------------------------------------------------------------
// Convolutions
// ---------------------------------------------------------------------------

/// A convolution along two axes with a bias for each channel.
pub struct ConvLayer {
    /// Kernels by output channel and input channel.
    pub weight: Tensor,
    /// One number for each output channel.
    pub bias: Tensor,
    pub sliding: Sliding,
}

/// The bias as a tensor that stretches over a picture.
pub open spec fn channel_bias(b: Array) -> Array {
    under(b, seq![1usize, b.dims[0], 1, 1])
}

/// `r` is what a convolution with a bias gave for `x`.
pub open spec fn conv_layer_result(l: ConvLayer, x: Array, r: Array) -> bool {
    exists|y: Array| #[trigger]
        conv2d_result(x, array(l.weight), l.sliding, y) && broadcast_add_result(
            y,
            channel_bias(array(l.bias)),
            r,
        )
}

/// A step of a convolution with a bias can be refused for `x`.
pub open spec fn conv_layer_refused(l: ConvLayer, x: Array) -> bool {
    let bias = array(l.bias);
    ||| conv2d_refused(x, array(l.weight), l.sliding)
    ||| layout_refused(bias, channel_bias(bias).dims)
    ||| exists|y: Array| #[trigger]
        conv2d_result(x, array(l.weight), l.sliding, y) && broadcast_add_refused(
            y,
            channel_bias(bias),
        )
}

/// A tensor of a convolution can be refused.
pub open spec fn conv_layer_missing(
    w: WeightStore,
    kernel: Seq<usize>,
    weight_name: Seq<char>,
    bias_name: Seq<char>,
) -> bool {
    ||| weight_refused(w, weight_name, kernel)
    ||| weight_refused(w, bias_name, seq![kernel[0]])
}

/// The tensors of a convolution are those of their names.
pub open spec fn conv_layer_from(
    w: WeightStore,
    kernel: Seq<usize>,
    weight_name: Seq<char>,
    bias_name: Seq<char>,
    l: ConvLayer,
) -> bool {
    &&& weight_loaded(w, weight_name, kernel, l.weight)
    &&& weight_loaded(w, bias_name, seq![kernel[0]], l.bias)
}

impl ConvLayer {
    /// One bias for each kernel.
    pub open spec fn wf(self) -> bool {
        &&& tensor_dims(self.weight).len() == 4
        &&& tensor_dims(self.bias) == seq![tensor_dims(self.weight)[0]]
    }

    /// The convolution of a store, with kernels of these extents.
    pub fn load(
        vb: &WeightStore,
        kernel: Vec<usize>,
        weight_name: &str,
        bias_name: &str,
        sliding: Sliding,
    ) -> (r: Result<ConvLayer, Error>)
        requires
            kernel@.len() == 4,
        ensures
            r matches Ok(l) ==> l.wf() && l.sliding == sliding && conv_layer_from(
                *vb,
                kernel@,
                weight_name@,
                bias_name@,
                l,
            ),
            r is Err ==> conv_layer_missing(*vb, kernel@, weight_name@, bias_name@),
    {
        let channels: usize = kernel[0];
        let weight = vb.get(kernel, weight_name)?;
        let bias = vb.get(one(channels), bias_name)?;
        Ok(ConvLayer { weight, bias, sliding })
    }

    /// Applies the convolution. The axes are pictures, channels, rows and columns.
    pub fn forward(&self, x: &Tensor) -> (r: Result<Tensor, Error>)
        requires
            self.wf(),
        ensures
            r matches Ok(y) ==> conv_layer_result(*self, array(*x), array(y)),
            r is Err ==> conv_layer_refused(*self, array(*x)),
            r is Ok ==> tensor_dims(*x).len() == 4 && fits(
                tensor_dims(*x)[2] as int,
                tensor_dims(self.weight)[2] as int,
                self.sliding,
            ) && fits(
                tensor_dims(*x)[3] as int,
                tensor_dims(self.weight)[3] as int,
                self.sliding,
            ),
            r matches Ok(y) ==> plain_groups(
                tensor_dims(*x),
                tensor_dims(self.weight),
                self.sliding,
            ) ==> tensor_dims(y) == seq![
                tensor_dims(*x)[0],
                tensor_dims(self.weight)[0],
                slid(
                    tensor_dims(*x)[2] as int,
                    tensor_dims(self.weight)[2] as int,
                    self.sliding,
                ) as usize,
                slid(
                    tensor_dims(*x)[3] as int,
                    tensor_dims(self.weight)[3] as int,
                    self.sliding,
                ) as usize,
            ],
    {
        let y = conv2d(x, &self.weight, &self.sliding)?;
        let channels: usize = dims(&self.bias)[0];
        let d: Vec<usize> = vec![1, channels, 1, 1];
        assert(d@ =~= seq![1usize, channels, 1usize, 1usize]);
        proof {
            lemma_channel_volume(channels);
        }
        let b = reshaped(&self.bias, d)?;
        let r = broadcast_add(&y, &b)?;
        proof {
            assert(conv2d_result(array(*x), array(self.weight), self.sliding, array(y)));
            if plain_groups(tensor_dims(*x), tensor_dims(self.weight), self.sliding) {
                let p = tensor_dims(y);
                let q = tensor_dims(b);
                assert(p.len() == 4 && q.len() == 4);
                assert(broadcast_extent(p, q, 4) == p[0]);
                assert(broadcast_extent(p, q, 3) == p[1]);
                assert(broadcast_extent(p, q, 2) == p[2]);
                assert(broadcast_extent(p, q, 1) == p[3]);
                assert(broadcast_dims(p, q) =~= p);
            }
        }
        Ok(r)
    }
}

/// A number for each channel leaves room for as many elements as a vector of them.
proof fn lemma_channel_volume(channels: usize)
    ensures
        volume(seq![1usize, channels, 1, 1]) == volume(seq![channels]),
        !countless(seq![1usize, channels, 1, 1]),
{
    let d = seq![1usize, channels, 1, 1];
    lemma_volume_vector(channels);
    assert(d.take(0) =~= Seq::<usize>::empty());
    assert(d.take(1) =~= seq![1usize]);
    lemma_volume_vector(1);
    assert(d.take(2) =~= seq![1usize, channels]);
    lemma_volume_matrix(1, channels);
    assert(d.take(3).drop_last() =~= d.take(2));
    assert(d.take(4).drop_last() =~= d.take(3));
    assert(d.take(4) =~= d);
    assert(volume(d.take(3)) == volume(d.take(2)) * 1);
    assert(volume(d.take(4)) == volume(d.take(3)) * 1);
}

/// Three convolutions that halve both axes, and a linear map.
pub struct ConvDownsample {
    pub conv2d1: ConvLayer,
    pub conv2d2: ConvLayer,
    pub conv2d3: ConvLayer,
    pub conv_out: Dense,
}

/// What a convolution with a kernel of three, a stride of two and a padding of one leaves of an
/// extent: half of it, rounded up.
pub open spec fn halved(n: int) -> int {
    (n - 1) / 2 + 1
}

/// Three times half, rounded up each time.
pub open spec fn downsampled(n: int) -> int {
    halved(halved(halved(n)))
}

/// Three times half is one eighth, rounded up once.
pub proof fn law_downsampling_is_by_eight(n: int)
    requires
        n >= 1,
    ensures
        downsampled(n) == (n + 7) / 8,
{
}

/// The sliding of the three convolutions.
pub open spec fn halving() -> Sliding {
    Sliding { padding: 1, stride: 2, groups: 1 }
}

/// The intermediate results of downsampling.
pub struct DownsampleTrace {
    pub turned: Array,
    pub a: Array,
    pub a_on: Array,
    pub b: Array,
    pub b_on: Array,
    pub c: Array,
    pub c_on: Array,
    pub rows: Array,
}

/// Downsampling, with its intermediate results: the spectrogram as a picture of mel bins by time, three
/// convolutions with activations, the columns as rows of all channels and bins, and a linear map.
pub open spec fn downsample_steps(d: ConvDownsample, x: Array, t: DownsampleTrace, r: Array) -> bool {
    &&& is_permuted(x, exchanged(x.dims.len(), 1, 2), t.turned)
    &&& conv_layer_result(d.conv2d1, with_axis(t.turned, 1), t.a)
    &&& gelu_result(t.a, t.a_on)
    &&& conv_layer_result(d.conv2d2, t.a_on, t.b)
    &&& gelu_result(t.b, t.b_on)
    &&& conv_layer_result(d.conv2d3, t.b_on, t.c)
    &&& gelu_result(t.c, t.c_on)
    &&& t.c_on.dims[1] * t.c_on.dims[2] <= usize::MAX
    &&& columns_first(t.c_on, t.rows)
    &&& dense_result(
        d.conv_out,
        under(
            t.rows,
            seq![x.dims[0], t.c_on.dims[3], (t.c_on.dims[1] * t.c_on.dims[2]) as usize],
        ),
        r,
    )
}

/// `r` is what downsampling gave for `x`.
pub open spec fn downsample_result(d: ConvDownsample, x: Array, r: Array) -> bool {
    exists|t: DownsampleTrace| #[trigger] downsample_steps(d, x, t, r)
}

/// Downsampling is refused where there are not three axes; a step of it can be refused too.
pub open spec fn downsample_refused(d: ConvDownsample, x: Array) -> bool {
    ||| x.dims.len() != 3
    ||| exists|turned: Array| #[trigger]
        is_permuted(x, exchanged(x.dims.len(), 1, 2), turned) && {
            let picture = with_axis(turned, 1);
            ||| conv_on_refused(d.conv2d1, picture)
            ||| exists|a: Array| #[trigger]
                conv_on(d.conv2d1, picture, a) && {
                    ||| conv_on_refused(d.conv2d2, a)
                    ||| exists|b: Array| #[trigger]
                        conv_on(d.conv2d2, a, b) && {
                            ||| conv_on_refused(d.conv2d3, b)
                            ||| exists|c: Array| #[trigger]
                                conv_on(d.conv2d3, b, c) && flattening_refused(d, x.dims[0], c)
                        }
                }
        }
}

/// `r` is what a convolution and an activation gave for `x`.
pub open spec fn conv_on(l: ConvLayer, x: Array, r: Array) -> bool {
    exists|y: Array| #[trigger] conv_layer_result(l, x, y) && gelu_result(y, r)
}

/// A step of a convolution or its activation can be refused for `x`.
pub open spec fn conv_on_refused(l: ConvLayer, x: Array) -> bool {
    ||| conv_layer_refused(l, x)
    ||| exists|y: Array| #[trigger] conv_layer_result(l, x, y) && gelu_refused(y)
}

/// `r` is a picture with its columns before channels and rows.
pub open spec fn columns_first(c: Array, r: Array) -> bool {
    is_permuted(c, seq![0usize, 3, 1, 2], r)
}

/// A step from the last picture to the entries can be refused, or a column of all channels and bins
/// cannot be counted.
pub open spec fn flattening_refused(d: ConvDownsample, recordings: usize, c: Array) -> bool {
    let wide = c.dims[1] * c.dims[2];
    let flat = seq![recordings, c.dims[3], wide as usize];
    ||| wide > usize::MAX
    ||| exists|rows: Array| #[trigger]
        columns_first(c, rows) && {
            ||| contiguous_refused(rows)
            ||| reshape_refused(rows, flat)
            ||| dense_refused(d.conv_out, under(rows, flat))
        }
}

/// A convolution of kernels of three by three under one more part of the prefix.
pub open spec fn sub_conv_from(
    w: WeightStore,
    part: Seq<char>,
    channels_in: usize,
    channels_out: usize,
    l: ConvLayer,
) -> bool {
    exists|s: WeightStore| #[trigger]
        narrowed(w, part, s) && conv_layer_from(
            s,
            seq![channels_out, channels_in, 3usize, 3usize],
            "weight"@,
            "bias"@,
            l,
        )
}

/// The weights of downsampling are those of their names.
pub open spec fn downsample_from(c: AuTConfig, w: WeightStore, d: ConvDownsample) -> bool {
    let h = c.downsample_hidden_size;
    &&& sub_conv_from(w, "conv2d1"@, 1, h, d.conv2d1)
    &&& sub_conv_from(w, "conv2d2"@, h, h, d.conv2d2)
    &&& sub_conv_from(w, "conv2d3"@, h, h, d.conv2d3)
    &&& sub_dense_from(
        w,
        "conv_out"@,
        (h * (c.num_mel_bins / 8)) as usize,
        c.d_model,
        false,
        d.conv_out,
    )
}

/// A tensor of a convolution of kernels of three by three can be refused.
pub open spec fn sub_conv_missing(
    w: WeightStore,
    part: Seq<char>,
    channels_in: usize,
    channels_out: usize,
) -> bool {
    exists|s: WeightStore| #[trigger]
        narrowed(w, part, s) && conv_layer_missing(
            s,
            seq![channels_out, channels_in, 3usize, 3usize],
            "weight"@,
            "bias"@,
        )
}

/// A weight of downsampling can be refused.
pub open spec fn downsample_missing(c: AuTConfig, w: WeightStore) -> bool {
    let h = c.downsample_hidden_size;
    ||| sub_conv_missing(w, "conv2d1"@, 1, h)
    ||| sub_conv_missing(w, "conv2d2"@, h, h)
    ||| sub_conv_missing(w, "conv2d3"@, h, h)
    ||| sub_dense_missing(w, "conv_out"@, (h * (c.num_mel_bins / 8)) as usize, c.d_model, false)
}

fn load_conv(vb: &WeightStore, part: &str, channels_in: usize, channels_out: usize) -> (r: Result<
    ConvLayer,
    Error,
>)
    ensures
        r matches Ok(l) ==> l.wf() && l.sliding == halving() && tensor_dims(l.weight) == seq![
            channels_out,
            channels_in,
            3usize,
            3usize,
        ] && sub_conv_from(*vb, part@, channels_in, channels_out, l),
        r is Err ==> sub_conv_missing(*vb, part@, channels_in, channels_out),
{
    let s = vb.pp(part);
    assert(narrowed(*vb, part@, s));
    let kernel: Vec<usize> = vec![channels_out, channels_in, 3, 3];
    assert(kernel@ =~= seq![channels_out, channels_in, 3usize, 3usize]);
    let l = ConvLayer::load(
        &s,
        kernel,
        "weight",
        "bias",
        Sliding { padding: 1, stride: 2, groups: 1 },
    )?;
    Ok(l)
}

impl ConvDownsample {
    /// Kernels of three by three that halve both axes, and a linear map without a bias.
    pub open spec fn wf(self) -> bool {
        &&& self.conv2d1.wf() && self.conv2d2.wf() && self.conv2d3.wf()
        &&& self.conv2d1.sliding == halving() && self.conv2d2.sliding == halving()
            && self.conv2d3.sliding == halving()
        &&& tensor_dims(self.conv2d1.weight)[2] == 3 && tensor_dims(self.conv2d1.weight)[3] == 3
        &&& tensor_dims(self.conv2d2.weight)[2] == 3 && tensor_dims(self.conv2d2.weight)[3] == 3
        &&& tensor_dims(self.conv2d3.weight)[2] == 3 && tensor_dims(self.conv2d3.weight)[3] == 3
        &&& self.conv_out.wf()
    }

    /// The downsampling of a store.
    pub fn new(config: &AuTConfig, vb: &WeightStore) -> (r: Result<ConvDownsample, Error>)
        requires
            config.wf(),
        ensures
            r matches Ok(d) ==> d.wf() && tensor_dims(d.conv_out.weight)[0] == config.d_model
                && downsample_from(*config, *vb, d),
            r is Err ==> downsample_missing(*config, *vb),
    {
        let h: usize = config.downsample_hidden_size;
        let conv2d1 = load_conv(vb, "conv2d1", 1, h)?;
        let conv2d2 = load_conv(vb, "conv2d2", h, h)?;
        let conv2d3 = load_conv(vb, "conv2d3", h, h)?;
        assert(0 <= h * (config.num_mel_bins / 8)) by (nonlinear_arith);
        let wide: usize = h * (config.num_mel_bins / 8);
        let conv_out = Dense::load_at(vb, "conv_out", wide, config.d_model, false)?;
        Ok(ConvDownsample { conv2d1, conv2d2, conv2d3, conv_out })
    }

    /// From a spectrogram by recording, time and mel bins to entries by recording and an eighth of the
    /// time.
    pub fn forward(&self, x: &Tensor) -> (r: Result<Tensor, Error>)
        requires
            self.wf(),
        ensures
            r is Ok ==> tensor_dims(*x).len() == 3 && tensor_dims(*x)[1] >= 1,
            r matches Ok(y) ==> downsample_result(*self, array(*x), array(y)),
            r matches Ok(y) ==> tensor_dims(y) == seq![
                tensor_dims(*x)[0],
                downsampled(tensor_dims(*x)[1] as int) as usize,
                tensor_dims(self.conv_out.weight)[0],
            ],
            r is Err ==> downsample_refused(*self, array(*x)),
    {
        let d0 = dims(x);
        if d0.len() != 3 {
            return refuse(x);
        }
        let turned = swap_axes(x, 1, 2)?;
        let picture = unsqueeze(&turned, 1)?;
        assert(tensor_dims(picture) =~= seq![d0@[0], 1usize, d0@[2], d0@[1]]);
        let a = self.conv2d1.forward(&picture)?;
        let a_on = gelu(&a)?;
        assert(conv_on(self.conv2d1, array(picture), array(a_on)));
        let b = self.conv2d2.forward(&a_on)?;
        let b_on = gelu(&b)?;
        assert(conv_on(self.conv2d2, array(a_on), array(b_on)));
        let c = self.conv2d3.forward(&b_on)?;
        let c_on = gelu(&c)?;
        assert(conv_on(self.conv2d3, array(b_on), array(c_on)));
        let d = dims(&c_on);
        let order: Vec<usize> = vec![0, 3, 1, 2];
        assert(order@ =~= seq![0usize, 3, 1, 2]);
        assert(is_order(order@, 4));
        let ordered = permute(&c_on, order)?;
        assert(columns_first(array(c_on), array(ordered)));
        let rows = contiguous(&ordered)?;
        let wide: usize = match d[1].checked_mul(d[2]) {
            Some(n) => n,
            None => {
                return refuse(x);
            },
        };
        let flat_dims: Vec<usize> = vec![d0[0], d[3], wide];
        assert(flat_dims@ =~= seq![d0@[0], d@[3], wide]);
        let flat = reshaped(&rows, flat_dims)?;
        let r = self.conv_out.forward(&flat)?;
        proof {
            let t = DownsampleTrace {
                turned: array(turned),
                a: array(a),
                a_on: array(a_on),
                b: array(b),
                b_on: array(b_on),
                c: array(c),
                c_on: array(c_on),
                rows: array(rows),
            };
            assert(downsample_steps(*self, array(*x), t, array(r)));
            let time = d0@[1] as int;
            assert(slid(time, 3, halving()) == halved(time));
            assert(tensor_dims(a)[3] == halved(time));
            assert(tensor_dims(b)[3] == halved(halved(time)));
            assert(tensor_dims(c)[3] == downsampled(time));
            assert(tensor_dims(flat).drop_last() =~= seq![d0@[0], d@[3]]);
            assert(tensor_dims(r) =~= seq![
                d0@[0],
                downsampled(time) as usize,
                tensor_dims(self.conv_out.weight)[0],
            ]);
        }
        Ok(r)
    }
}

// ---------------------------------------------------------------------------
// What a layer leaves of its input
// ---------------------------------------------------------------------------

/// What normalization gives.
pub open spec fn norm_block(n: LayerNorm) -> spec_fn(Array, Array) -> bool {
    |x: Array, y: Array| norm_result(n, x, y)
}

/// What attention gives.
pub open spec fn attention_block(a: SelfAttention) -> spec_fn(Array, Array) -> bool {
    |x: Array, y: Array| self_attention_result(a, x, y)
}

/// What two linear maps with an activation between them give.
pub open spec fn maps_block(first: Dense, second: Dense) -> spec_fn(Array, Array) -> bool {
    |x: Array, y: Array| two_maps_result(first, second, x, y)
}

/// The first half of a layer: attention behind its normalization.
pub open spec fn attending_half(l: EncoderLayer) -> spec_fn(Array, Array) -> bool {
    in_turn(norm_block(l.self_attn_layer_norm), attention_block(l.self_attn))
}

/// The second half of a layer: the feed-forward network behind its normalization.
pub open spec fn feeding_half(l: EncoderLayer) -> spec_fn(Array, Array) -> bool {
    in_turn(norm_block(l.final_layer_norm), maps_block(l.mlp.fc1, l.mlp.fc2))
}

/// Attention and the feed-forward network stand behind one another, each with its own normalization before
/// it and a way around both.
pub proof fn law_halves_have_ways_around(l: EncoderLayer, x: Array, r: Array)
    requires
        encoder_layer_result(l, x, r),
    ensures
        exists|m: Array| #[trigger]
            with_way_around(attending_half(l))(x, m) && with_way_around(feeding_half(l))(m, r),
{
    let t = choose|t: LayerTrace| #[trigger] encoder_layer_steps(l, x, t, r);
    assert(norm_block(l.self_attn_layer_norm)(x, t.normed));
    assert(attention_block(l.self_attn)(t.normed, t.attended));
    assert(attending_half(l)(x, t.attended));
    assert(norm_block(l.final_layer_norm)(t.middle, t.normed_again));
    assert(maps_block(l.mlp.fc1, l.mlp.fc2)(t.normed_again, t.fed));
    assert(feeding_half(l)(t.middle, t.fed));
    assert(with_way_around(attending_half(l))(x, t.middle));
    assert(with_way_around(feeding_half(l))(t.middle, r));
}

/// A layer whose halves give zeros leaves every number of its input as it is.
pub proof fn law_silent_layers_change_nothing(l: EncoderLayer, x: Array, r: Array)
    requires
        encoder_layer_result(l, x, r),
        gives_zeros(attending_half(l)),
        gives_zeros(feeding_half(l)),
        all_ordinary(x),
        x.elems.len() == volume(x.dims),
    ensures
        same_numbers(x, r),
{
    law_halves_have_ways_around(l, x, r);
    let m = choose|m: Array| #[trigger]
        with_way_around(attending_half(l))(x, m) && with_way_around(feeding_half(l))(m, r);
    lemma_way_around_zeros(attending_half(l), x, m);
    lemma_way_around_zeros(feeding_half(l), m, r);
    lemma_same_numbers(x, m, r);
}

/// Attention weighs values by the agreement of queries and keys, head by head. Queries, keys and values come
/// of the same positions, each through a map of its own, and what the heads give stands side by side.
pub proof fn law_values_are_weighed_by_agreement(a: SelfAttention, x: Array, r: Array)
    requires
        self_attention_result(a, x, r),
    ensures
        exists|q: Array, k: Array, v: Array, scores: Array, mixed: Array, flat: Array|
            {
                &&& #[trigger] mapped_heads(a.q_proj, x, a.num_heads, a.head_dim, q)
                &&& #[trigger] mapped_heads(a.k_proj, x, a.num_heads, a.head_dim, k)
                &&& #[trigger] mapped_heads(a.v_proj, x, a.num_heads, a.head_dim, v)
                &&& #[trigger] agreement(q, k, a.head_dim as i64, scores)
                &&& #[trigger] values_by_score(scores, v, mixed)
                &&& #[trigger] entries_by_position(
                    mixed,
                    x.dims[0],
                    x.dims[1],
                    a.num_heads,
                    a.head_dim,
                    flat,
                )
                &&& dense_result(a.out_proj, flat, r)
            },
{
    let t = choose|t: SelfTrace| #[trigger] self_attention_steps(a, x, t, r);
    let (b, s) = (x.dims[0], x.dims[1]);
    lemma_entries_by_head(t.q, b, s, a.num_heads, a.head_dim, t.q_heads);
    lemma_entries_by_head(t.k, b, s, a.num_heads, a.head_dim, t.k_heads);
    lemma_entries_by_head(t.v, b, s, a.num_heads, a.head_dim, t.v_heads);
    lemma_rows_as_columns(t.k_heads, t.k_turned);
    lemma_entries_by_position(t.mixed, t.ordered, b, s, a.num_heads, a.head_dim);
    let flat = under(t.ordered, seq![b, s, (a.num_heads * a.head_dim) as usize]);
    assert(mapped_heads(a.q_proj, x, a.num_heads, a.head_dim, t.q_heads));
    assert(mapped_heads(a.k_proj, x, a.num_heads, a.head_dim, t.k_heads));
    assert(mapped_heads(a.v_proj, x, a.num_heads, a.head_dim, t.v_heads));
    assert(agreement(t.q_heads, t.k_heads, a.head_dim as i64, t.scores));
    assert(values_by_score(t.scores, t.v_heads, t.mixed));
    assert(entries_by_position(t.mixed, b, s, a.num_heads, a.head_dim, flat));
}

/// `y` is what a linear map gives for the positions of `x`, by head.
pub open spec fn mapped_heads(l: Dense, x: Array, heads: usize, width: usize, y: Array) -> bool {
    exists|p: Array| #[trigger]
        dense_result(l, x, p) && entries_by_head(p, x.dims[0], x.dims[1], heads, width, y)
}

/// What a convolution with an activation gives.
pub open spec fn picture_block(l: ConvLayer) -> spec_fn(Array, Array) -> bool {
    |x: Array, y: Array|
        exists|a: Array, b: Array|
            {
                &&& #[trigger] conv2d_result(x, array(l.weight), l.sliding, a)
                &&& broadcast_add_result(
                    a,
                    under(array(l.bias), seq![1usize, tensor_dims(l.bias)[0], 1, 1]),
                    b,
                )
                &&& #[trigger] gelu_result(b, y)
            }
}

proof fn lemma_picture_block(l: ConvLayer, x: Array, a: Array, y: Array)
    requires
        conv_layer_result(l, x, a),
        gelu_result(a, y),
    ensures
        picture_block(l)(x, y),
{
    let b = choose|b: Array| #[trigger]
        conv2d_result(x, array(l.weight), l.sliding, b) && broadcast_add_result(
            b,
            channel_bias(array(l.bias)),
            a,
        );
    assert(broadcast_add_result(
        b,
        under(array(l.bias), seq![1usize, tensor_dims(l.bias)[0], 1, 1]),
        a,
    ));
}

/// `flat` holds, for every column of a picture, its entries by channel and row.
pub open spec fn columns_as_entries(c: Array, recordings: usize, flat: Array) -> bool {
    &&& flat.dims == seq![recordings, c.dims[3], (c.dims[1] * c.dims[2]) as usize]
    &&& c.dims.len() == 4 ==> forall|i: int, ch: int, row: int, col: int|
        #![trigger flat.elems[((i * c.dims[3] + col) * c.dims[1] + ch) * c.dims[2] + row]]
        0 <= i < c.dims[0] && 0 <= ch < c.dims[1] && 0 <= row < c.dims[2] && 0 <= col < c.dims[3]
            ==> flat.elems[((i * c.dims[3] + col) * c.dims[1] + ch) * c.dims[2] + row]
            == c.elems[((i * c.dims[1] + ch) * c.dims[2] + row) * c.dims[3] + col]
}

proof fn lemma_columns_as_entries(c: Array, rows: Array, recordings: usize)
    requires
        columns_first(c, rows),
    ensures
        columns_as_entries(
            c,
            recordings,
            under(rows, seq![recordings, c.dims[3], (c.dims[1] * c.dims[2]) as usize]),
        ),
{
    let flat = under(rows, seq![recordings, c.dims[3], (c.dims[1] * c.dims[2]) as usize]);
    if c.dims.len() == 4 {
        let order = seq![0usize, 3, 1, 2];
        assert(rows.dims =~= seq![c.dims[0], c.dims[3], c.dims[1], c.dims[2]]);
        assert forall|i: int, ch: int, row: int, col: int|
            #![trigger flat.elems[((i * c.dims[3] + col) * c.dims[1] + ch) * c.dims[2] + row]]
            0 <= i < c.dims[0] && 0 <= ch < c.dims[1] && 0 <= row < c.dims[2] && 0 <= col
                < c.dims[3] implies flat.elems[((i * c.dims[3] + col) * c.dims[1] + ch) * c.dims[2]
            + row] == c.elems[((i * c.dims[1] + ch) * c.dims[2] + row) * c.dims[3] + col] by {
            let from = seq![i, ch, row, col];
            let to = seq![i, col, ch, row];
            lemma_offset_of_four(c.dims, from);
            lemma_offset_of_four(rows.dims, to);
            assert(is_index(c.dims, from));
            assert(is_index(rows.dims, to));
            assert forall|n: int| 0 <= n < order.len() implies to[n] == from[#[trigger] order[n] as int] by {
                if n == 0 {
                } else if n == 1 {
                } else if n == 2 {
                }
            }
            assert(rows.elems[offset(rows.dims, to)] == c.elems[offset(c.dims, from)]);
        }
    }
}

/// Downsampling leads a spectrogram, turned so that time runs along its rows, through three convolutions with
/// activations, one behind another; every column of what is left becomes the entries of one position.
pub proof fn law_columns_become_positions(d: ConvDownsample, x: Array, r: Array)
    requires
        downsample_result(d, x, r),
        x.dims.len() == 3,
    ensures
        exists|turned: Array, c: Array, flat: Array|
            {
                &&& is_permuted(x, seq![0usize, 2, 1], turned)
                &&& #[trigger] in_turn(
                    picture_block(d.conv2d1),
                    in_turn(picture_block(d.conv2d2), picture_block(d.conv2d3)),
                )(with_axis(turned, 1), c)
                &&& #[trigger] columns_as_entries(c, x.dims[0], flat)
                &&& dense_result(d.conv_out, flat, r)
            },
{
    let t = choose|t: DownsampleTrace| #[trigger] downsample_steps(d, x, t, r);
    assert(exchanged(3, 1, 2) =~= seq![0usize, 2, 1]);
    let picture = with_axis(t.turned, 1);
    lemma_picture_block(d.conv2d1, picture, t.a, t.a_on);
    lemma_picture_block(d.conv2d2, t.a_on, t.b, t.b_on);
    lemma_picture_block(d.conv2d3, t.b_on, t.c, t.c_on);
    let rest = in_turn(picture_block(d.conv2d2), picture_block(d.conv2d3));
    assert(rest(t.a_on, t.c_on));
    assert(in_turn(picture_block(d.conv2d1), rest)(picture, t.c_on));
    lemma_columns_as_entries(t.c_on, t.rows, x.dims[0]);
    let flat = under(
        t.rows,
        seq![x.dims[0], t.c_on.dims[3], (t.c_on.dims[1] * t.c_on.dims[2]) as usize],
    );
    assert(columns_as_entries(t.c_on, x.dims[0], flat));
    assert(dense_result(d.conv_out, flat, r));
}

/// Two maps stand behind one another with the activation between them.
pub proof fn law_activation_stands_between(first: Dense, second: Dense, x: Array, r: Array)
    requires
        two_maps_result(first, second, x, r),
    ensures
        exists|a: Array, b: Array|
            {
                &&& #[trigger] layer_result(array(first.weight), option_array(first.bias), x, a)
                &&& #[trigger] gelu_result(a, b)
                &&& layer_result(array(second.weight), option_array(second.bias), b, r)
            },
{
    let (a, b) = choose|a: Array, b: Array|
        dense_result(first, x, a) && #[trigger] gelu_result(a, b) && dense_result(second, b, r);
    assert(layer_result(array(first.weight), option_array(first.bias), x, a));
}

/// The maps of attention are made of the tensors of their own names, all of them with biases, and the heads
/// share the width.
pub proof fn law_attention_weights_have_their_names(c: AuTConfig, w: WeightStore, a: SelfAttention)
    requires
        self_attention_from(c, w, a),
        c.num_attention_heads >= 1,
    ensures
        dense_named(
            w,
            "q_proj"@ + ".weight"@,
            Some("q_proj"@ + ".bias"@),
            c.d_model,
            c.d_model,
            a.q_proj,
        ),
        dense_named(
            w,
            "k_proj"@ + ".weight"@,
            Some("k_proj"@ + ".bias"@),
            c.d_model,
            c.d_model,
            a.k_proj,
        ),
        dense_named(
            w,
            "v_proj"@ + ".weight"@,
            Some("v_proj"@ + ".bias"@),
            c.d_model,
            c.d_model,
            a.v_proj,
        ),
        dense_named(
            w,
            "out_proj"@ + ".weight"@,
            Some("out_proj"@ + ".bias"@),
            c.d_model,
            c.d_model,
            a.out_proj,
        ),
        a.num_heads == c.num_attention_heads,
        a.head_dim * a.num_heads <= c.d_model < (a.head_dim + 1) * a.num_heads,
{
    law_maps_have_full_names(w, "q_proj"@, c.d_model, c.d_model, true, a.q_proj);
    law_maps_have_full_names(w, "k_proj"@, c.d_model, c.d_model, true, a.k_proj);
    law_maps_have_full_names(w, "v_proj"@, c.d_model, c.d_model, true, a.v_proj);
    law_maps_have_full_names(w, "out_proj"@, c.d_model, c.d_model, true, a.out_proj);
    let n = c.num_attention_heads as int;
    let d = c.d_model as int;
    vstd::arithmetic::div_mod::lemma_fundamental_div_mod(d, n);
    let q = d / n;
    assert(q * n <= d < (q + 1) * n) by (nonlinear_arith)
        requires
            d == n * q + d % n,
            0 <= d % n < n,
    ;
}

/// The parts of a layer are made of the tensors of their own names.
pub proof fn law_layer_weights_have_their_names(
    c: AuTConfig,
    eps: Scalar,
    w: WeightStore,
    l: EncoderLayer,
)
    requires
        encoder_layer_from(c, eps, w, l),
    ensures
        dense_named(
            w,
            "fc1"@ + ".weight"@,
            Some("fc1"@ + ".bias"@),
            c.d_model,
            c.intermediate_size,
            l.mlp.fc1,
        ),
        dense_named(
            w,
            "fc2"@ + ".weight"@,
            Some("fc2"@ + ".bias"@),
            c.intermediate_size,
            c.d_model,
            l.mlp.fc2,
        ),
        norm_named(
            w,
            "self_attn_layer_norm"@ + ".weight"@,
            "self_attn_layer_norm"@ + ".bias"@,
            c.d_model,
            eps,
            l.self_attn_layer_norm,
        ),
        norm_named(
            w,
            "final_layer_norm"@ + ".weight"@,
            "final_layer_norm"@ + ".bias"@,
            c.d_model,
            eps,
            l.final_layer_norm,
        ),
        exists|s: WeightStore| #[trigger]
            narrowed(w, "self_attn"@, s) && self_attention_from(c, s, l.self_attn),
{
    law_maps_have_full_names(w, "fc1"@, c.d_model, c.intermediate_size, true, l.mlp.fc1);
    law_maps_have_full_names(w, "fc2"@, c.intermediate_size, c.d_model, true, l.mlp.fc2);
    law_normalizations_have_full_names(
        w,
        "self_attn_layer_norm"@,
        c.d_model,
        eps,
        l.self_attn_layer_norm,
    );
    law_normalizations_have_full_names(w, "final_layer_norm"@, c.d_model, eps, l.final_layer_norm);
}

/// The maps of the projector are made of the tensors of their own names.
pub proof fn law_projector_weights_have_their_names(c: AuTConfig, w: WeightStore, p: AudioProjector)
    requires
        projector_from(c, w, p),
    ensures
        dense_named(
            w,
            "proj1"@ + ".weight"@,
            Some("proj1"@ + ".bias"@),
            c.d_model,
            c.d_model,
            p.proj1,
        ),
        dense_named(
            w,
            "proj2"@ + ".weight"@,
            Some("proj2"@ + ".bias"@),
            c.d_model,
            c.output_dim,
            p.proj2,
        ),
{
    law_maps_have_full_names(w, "proj1"@, c.d_model, c.d_model, true, p.proj1);
    law_maps_have_full_names(w, "proj2"@, c.d_model, c.output_dim, true, p.proj2);
}

} // verus!
