//! The joint network: scores of tokens and durations from an encoder frame and a prediction.
use crate::prediction::{batched, last_part};
use crate::tensor::{
    add_batch, add_refused, add_result, array, broadcast_add, broadcast_add_refused,
    broadcast_add_result, comparable, dims, drop_batch, is_zero, lemma_last_axis, matmul,
    matmul_refused, matmul_result, narrow_last, one, ordinary, rank_of, relu, relu_refused,
    relu_result, share, sum, tensor_dims, transpose, transposed, two, volume, without_batch, Array,
};
use crate::weights::{
    law_narrowed_stores_find_the_same, narrowed, weight_loaded, weight_refused, WeightStore,
};
use candle_core::{Error, Tensor};
use vstd::prelude::*;

verus! {

/// Sizes of the joint network.
pub struct JointConfig {
    /// Width of an encoder frame.
    pub encoder_hidden: usize,
    /// Width of a prediction.
    pub pred_hidden: usize,
    /// Width of the joint layer.
    pub joint_hidden: usize,
    /// Number of scores.
    pub output_dim: usize,
    /// Number of token scores, the blank token's among them.
    pub num_classes: usize,
    /// Number of duration scores.
    pub num_durations: usize,
}

/// A linear map with a bias.
pub struct Projection {
    /// One row for each output.
    pub weight: Tensor,
    /// One number for each output.
    pub bias: Tensor,
}

/// `r` is what a linear map gave for `x`.
pub open spec fn linear_result(l: Projection, x: Array, r: Array) -> bool {
    exists|p: Array|
        #[trigger] matmul_result(x, transposed(array(l.weight)), p) && broadcast_add_result(
            p,
            array(l.bias),
            r,
        )
}

/// A step of a linear map can be refused for `x`.
pub open spec fn projection_refused(l: Projection, x: Array) -> bool {
    let turned = transposed(array(l.weight));
    ||| matmul_refused(x, turned)
    ||| exists|p: Array| #[trigger]
        matmul_result(x, turned, p) && broadcast_add_refused(p, array(l.bias))
}

/// A tensor of a linear map can be refused.
pub open spec fn projection_missing(w: WeightStore, in_dim: usize, out_dim: usize) -> bool {
    ||| weight_refused(w, "weight"@, seq![out_dim, in_dim])
    ||| weight_refused(w, "bias"@, seq![out_dim])
}

/// The tensors of a linear map are those of their names.
pub open spec fn linear_loaded(w: WeightStore, in_dim: usize, out_dim: usize, l: Projection) -> bool {
    &&& weight_loaded(w, "weight"@, seq![out_dim, in_dim], l.weight)
    &&& weight_loaded(w, "bias"@, seq![out_dim], l.bias)
}

impl Projection {
    /// The weight is a matrix.
    pub open spec fn wf(self) -> bool {
        tensor_dims(self.weight).len() == 2
    }

    /// The map of a store.
    pub fn load(in_dim: usize, out_dim: usize, vb: &WeightStore) -> (r: Result<Projection, Error>)
        ensures
            r matches Ok(l) ==> l.wf() && linear_loaded(*vb, in_dim, out_dim, l),
            r is Err ==> projection_missing(*vb, in_dim, out_dim),
    {
        let weight = vb.get(two(out_dim, in_dim), "weight")?;
        let bias = vb.get(one(out_dim), "bias")?;
        Ok(Projection { weight, bias })
    }

    /// `x W^T + b`.
    pub fn forward(&self, x: &Tensor) -> (r: Result<Tensor, Error>)
        requires
            self.wf(),
        ensures
            r matches Ok(y) ==> linear_result(*self, array(*x), array(y)),
            r is Err ==> projection_refused(*self, array(*x)),
    {
        let p = matmul(x, &transpose(&self.weight)?)?;
        let r = broadcast_add(&p, &self.bias)?;
        assert(matmul_result(array(*x), transposed(array(self.weight)), array(p)));
        Ok(r)
    }
}

/// The joint network.
pub struct JointNetwork {
    /// From an encoder frame.
    pub enc_proj: Projection,
    /// From a prediction.
    pub pred_proj: Projection,
    /// To the scores.
    pub output_linear: Projection,
    /// Number of token scores.
    pub num_classes: usize,
    /// Number of duration scores.
    pub num_durations: usize,
}

/// The intermediate results of the joint network.
pub struct JointTrace {
    pub enc: Array,
    pub pred: Array,
    pub both: Array,
    pub positive: Array,
    pub scores: Array,
}

/// One pass through the network, with its intermediate results.
pub open spec fn joint_steps(
    net: JointNetwork,
    enc_out: Array,
    pred_out: Array,
    t: JointTrace,
    tokens: Array,
    durations: Array,
) -> bool {
    let scores = without_batch(t.scores);
    &&& linear_result(net.enc_proj, batched(enc_out), t.enc)
    &&& linear_result(net.pred_proj, batched(pred_out), t.pred)
    &&& add_result(t.enc, t.pred, t.both)
    &&& relu_result(t.both, t.positive)
    &&& linear_result(net.output_linear, t.positive, t.scores)
    &&& !too_few_scores(net, t.scores.dims)
    &&& tokens == last_part(scores, 0, net.num_classes as int)
    &&& durations == last_part(scores, net.num_classes as int, net.num_durations as int)
}

/// `tokens` and `durations` are the scores that the network gave.
pub open spec fn joint_result(
    net: JointNetwork,
    enc_out: Array,
    pred_out: Array,
    tokens: Array,
    durations: Array,
) -> bool {
    exists|t: JointTrace| #[trigger] joint_steps(net, enc_out, pred_out, t, tokens, durations)
}

/// A step of the network can be refused, or there are not as many scores as asked for.
pub open spec fn joint_refused(net: JointNetwork, enc_out: Array, pred_out: Array) -> bool {
    ||| projection_refused(net.enc_proj, batched(enc_out))
    ||| projection_refused(net.pred_proj, batched(pred_out))
    ||| exists|enc: Array, pred: Array|
        {
            &&& #[trigger] linear_result(net.enc_proj, batched(enc_out), enc)
            &&& #[trigger] linear_result(net.pred_proj, batched(pred_out), pred)
            &&& scoring_refused(net, enc, pred)
        }
}

/// A step from both projections to the scores can be refused, or there are not as many scores as
/// asked for.
pub open spec fn scoring_refused(net: JointNetwork, enc: Array, pred: Array) -> bool {
    ||| add_refused(enc, pred)
    ||| exists|both: Array| #[trigger]
        add_result(enc, pred, both) && {
            ||| relu_refused(both)
            ||| exists|positive: Array| #[trigger]
                relu_result(both, positive) && {
                    ||| projection_refused(net.output_linear, positive)
                    ||| exists|scores: Array| #[trigger]
                        linear_result(net.output_linear, positive, scores) && too_few_scores(
                            net,
                            scores.dims,
                        )
                }
        }
}

/// The last axis, behind a first one of extent one that is dropped, does not hold a score for each
/// token and duration.
pub open spec fn too_few_scores(net: JointNetwork, dims: Seq<usize>) -> bool {
    let d = if dims.len() > 0 && dims[0] == 1 { dims.remove(0) } else { dims };
    d.len() == 0 || net.num_classes + net.num_durations > d.last()
}

/// The map of a store under two more parts of its prefix.
pub open spec fn deep_linear_loaded(
    w: WeightStore,
    a: Seq<char>,
    b: Seq<char>,
    in_dim: usize,
    out_dim: usize,
    l: Projection,
) -> bool {
    exists|x: WeightStore, y: WeightStore| #[trigger]
        narrowed(w, a, x) && #[trigger] narrowed(x, b, y) && linear_loaded(y, in_dim, out_dim, l)
}

/// The map of a store under one more part of its prefix.
pub open spec fn sub_linear_loaded(
    w: WeightStore,
    a: Seq<char>,
    in_dim: usize,
    out_dim: usize,
    l: Projection,
) -> bool {
    exists|x: WeightStore| #[trigger]
        narrowed(w, a, x) && linear_loaded(x, in_dim, out_dim, l)
}

/// A tensor of a map under two more parts of the prefix can be refused.
pub open spec fn deep_missing(
    w: WeightStore,
    a: Seq<char>,
    b: Seq<char>,
    in_dim: usize,
    out_dim: usize,
) -> bool {
    exists|x: WeightStore, y: WeightStore| #[trigger]
        narrowed(w, a, x) && #[trigger] narrowed(x, b, y) && projection_missing(
            y,
            in_dim,
            out_dim,
        )
}

/// The tensors of a network are those of their names. The output layer stands behind an activation
/// and a dropout; where a tensor of it is missing there, behind an activation alone.
pub open spec fn joint_loaded(w: WeightStore, c: JointConfig, net: JointNetwork) -> bool {
    &&& sub_linear_loaded(w, "enc"@, c.encoder_hidden, c.joint_hidden, net.enc_proj)
    &&& sub_linear_loaded(w, "pred"@, c.pred_hidden, c.joint_hidden, net.pred_proj)
    &&& deep_linear_loaded(
        w,
        "joint_net"@,
        "2"@,
        c.joint_hidden,
        c.output_dim,
        net.output_linear,
    ) || (deep_missing(w, "joint_net"@, "2"@, c.joint_hidden, c.output_dim) && deep_linear_loaded(
        w,
        "joint_net"@,
        "1"@,
        c.joint_hidden,
        c.output_dim,
        net.output_linear,
    ))
}

/// A tensor of a network can be refused. The output layer is missing only where it stands at
/// neither place.
pub open spec fn joint_missing(w: WeightStore, c: JointConfig) -> bool {
    ||| exists|s: WeightStore| #[trigger]
        narrowed(w, "enc"@, s) && projection_missing(s, c.encoder_hidden, c.joint_hidden)
    ||| exists|s: WeightStore| #[trigger]
        narrowed(w, "pred"@, s) && projection_missing(s, c.pred_hidden, c.joint_hidden)
    ||| exists|s: WeightStore, a: WeightStore, b: WeightStore|
        {
            &&& #[trigger] narrowed(w, "joint_net"@, s)
            &&& #[trigger] narrowed(s, "2"@, a)
            &&& #[trigger] narrowed(s, "1"@, b)
            &&& projection_missing(a, c.joint_hidden, c.output_dim)
            &&& projection_missing(b, c.joint_hidden, c.output_dim)
        }
}

impl JointNetwork {
    /// The weights are matrices.
    pub open spec fn wf(self) -> bool {
        self.enc_proj.wf() && self.pred_proj.wf() && self.output_linear.wf()
    }

    /// The network of a store.
    pub fn load(config: &JointConfig, vb: &WeightStore) -> (r: Result<JointNetwork, Error>)
        ensures
            r matches Ok(net) ==> {
                &&& net.wf()
                &&& net.num_classes == config.num_classes
                &&& net.num_durations == config.num_durations
                &&& joint_loaded(*vb, *config, net)
            },
            r is Err ==> joint_missing(*vb, *config),
    {
        let enc_proj = Projection::load(config.encoder_hidden, config.joint_hidden, &vb.pp("enc"))?;
        let pred_proj = Projection::load(config.pred_hidden, config.joint_hidden, &vb.pp("pred"))?;
        let net_vb = vb.pp("joint_net");
        let output_linear = match Projection::load(
            config.joint_hidden,
            config.output_dim,
            &net_vb.pp("2"),
        ) {
            Ok(l) => l,
            Err(_) => Projection::load(config.joint_hidden, config.output_dim, &net_vb.pp("1"))?,
        };
        Ok(
            JointNetwork {
                enc_proj,
                pred_proj,
                output_linear,
                num_classes: config.num_classes,
                num_durations: config.num_durations,
            },
        )
    }

    /// The scores of the tokens and of the durations. Both inputs may be vectors or matrices of
    /// one row.
    pub fn forward(
        &self,
        enc_out: &Tensor,
        pred_out: &Tensor,
    ) -> (r: Result<(Tensor, Tensor), Error>)
        requires
            self.wf(),
        ensures
            r matches Ok((tokens, durations)) ==> joint_result(
                *self,
                array(*enc_out),
                array(*pred_out),
                array(tokens),
                array(durations),
            ),
            r is Err ==> joint_refused(*self, array(*enc_out), array(*pred_out)),
    {
        let enc_in = if dims(enc_out).len() == 1 {
            add_batch(enc_out)?
        } else {
            share(enc_out)
        };
        let pred_in = if dims(pred_out).len() == 1 {
            add_batch(pred_out)?
        } else {
            share(pred_out)
        };
        assert(array(enc_in) == batched(array(*enc_out)));
        assert(array(pred_in) == batched(array(*pred_out)));
        let enc_h = self.enc_proj.forward(&enc_in)?;
        let pred_h = self.pred_proj.forward(&pred_in)?;
        let both = sum(&enc_h, &pred_h)?;
        let positive = relu(&both)?;
        let all_scores = self.output_linear.forward(&positive)?;
        let scores = drop_batch(&all_scores)?;
        let tokens = narrow_last(&scores, 0, self.num_classes)?;
        let durations = narrow_last(&scores, self.num_classes, self.num_durations)?;
        proof {
            let t = JointTrace {
                enc: array(enc_h),
                pred: array(pred_h),
                both: array(both),
                positive: array(positive),
                scores: array(all_scores),
            };
            assert(joint_steps(
                *self,
                array(*enc_out),
                array(*pred_out),
                t,
                array(tokens),
                array(durations),
            ));
        }
        Ok((tokens, durations))
    }
}

/// Without a first axis of extent one.
pub open spec fn plain_extents(d: Seq<usize>) -> Seq<usize> {
    if d[0] == 1 {
        d.remove(0)
    } else {
        d
    }
}

/// The scores are told apart by their place in a row: those of the tokens come first, from the first entry
/// on, and those of the durations follow right behind them.
pub proof fn law_durations_follow_the_tokens(
    net: JointNetwork,
    enc_out: Array,
    pred_out: Array,
    tokens: Array,
    durations: Array,
)
    requires
        joint_result(net, enc_out, pred_out, tokens, durations),
    ensures
        exists|positive: Array, scores: Array|
            {
                &&& #[trigger] linear_result(net.output_linear, positive, scores)
                &&& tokens.dims.last() == net.num_classes
                &&& durations.dims.last() == net.num_durations
                &&& forall|o: int, k: int|
                    #![trigger tokens.elems[o * net.num_classes + k]]
                    0 <= o < volume(plain_extents(scores.dims).drop_last()) && 0 <= k
                        < net.num_classes ==> tokens.elems[o * net.num_classes + k]
                        == scores.elems[o * plain_extents(scores.dims).last() + k]
                &&& forall|o: int, k: int|
                    #![trigger durations.elems[o * net.num_durations + k]]
                    0 <= o < volume(plain_extents(scores.dims).drop_last()) && 0 <= k
                        < net.num_durations ==> durations.elems[o * net.num_durations + k]
                        == scores.elems[o * plain_extents(scores.dims).last() + net.num_classes + k]
            },
{
    let t = choose|t: JointTrace| #[trigger]
        joint_steps(net, enc_out, pred_out, t, tokens, durations);
    let scores = without_batch(t.scores);
    assert(scores.dims == plain_extents(t.scores.dims));
    let w = scores.dims.last();
    assert forall|o: int, k: int|
        #![trigger tokens.elems[o * net.num_classes + k]]
        0 <= o < volume(scores.dims.drop_last()) && 0 <= k < net.num_classes implies tokens.elems[o
        * net.num_classes + k] == t.scores.elems[o * w + k] by {
        lemma_last_axis(scores, 0, net.num_classes as int, o, k);
    }
    assert forall|o: int, k: int|
        #![trigger durations.elems[o * net.num_durations + k]]
        0 <= o < volume(scores.dims.drop_last()) && 0 <= k
            < net.num_durations implies durations.elems[o * net.num_durations + k]
        == t.scores.elems[o * w + net.num_classes + k] by {
        lemma_last_axis(scores, net.num_classes as int, net.num_durations as int, o, k);
    }
    assert(linear_result(net.output_linear, t.positive, t.scores));
}

/// Each entry of the joint layer is the positive part of a sum of two: where one projection gives a zero, it
/// is the positive part of what the other one gave.
pub proof fn law_projections_are_added(
    net: JointNetwork,
    enc_out: Array,
    pred_out: Array,
    tokens: Array,
    durations: Array,
)
    requires
        joint_result(net, enc_out, pred_out, tokens, durations),
    ensures
        exists|enc: Array, pred: Array, positive: Array, scores: Array|
            {
                &&& #[trigger] linear_result(net.enc_proj, batched(enc_out), enc)
                &&& #[trigger] linear_result(net.pred_proj, batched(pred_out), pred)
                &&& #[trigger] linear_result(net.output_linear, positive, scores)
                &&& comparable(enc.kind) && enc.elems.len() == volume(enc.dims) ==> forall|i: int|
                    #![trigger positive.elems[i]]
                    0 <= i < enc.elems.len() ==> {
                        &&& is_zero(enc.kind, pred.elems[i]) && ordinary(enc.kind, enc.elems[i])
                            ==> rank_of(enc.kind, positive.elems[i]) == positive_rank(
                            rank_of(enc.kind, enc.elems[i]),
                        )
                        &&& is_zero(enc.kind, enc.elems[i]) && ordinary(enc.kind, pred.elems[i])
                            ==> rank_of(enc.kind, positive.elems[i]) == positive_rank(
                            rank_of(enc.kind, pred.elems[i]),
                        )
                    }
            },
{
    let t = choose|t: JointTrace| #[trigger]
        joint_steps(net, enc_out, pred_out, t, tokens, durations);
    assert(linear_result(net.enc_proj, batched(enc_out), t.enc));
    assert(linear_result(net.pred_proj, batched(pred_out), t.pred));
    assert(linear_result(net.output_linear, t.positive, t.scores));
    if comparable(t.enc.kind) && t.enc.elems.len() == volume(t.enc.dims) {
        assert forall|i: int|
            #![trigger t.positive.elems[i]]
            0 <= i < t.enc.elems.len() implies {
            &&& is_zero(t.enc.kind, t.pred.elems[i]) && ordinary(t.enc.kind, t.enc.elems[i])
                ==> rank_of(t.enc.kind, t.positive.elems[i]) == positive_rank(
                rank_of(t.enc.kind, t.enc.elems[i]),
            )
            &&& is_zero(t.enc.kind, t.enc.elems[i]) && ordinary(t.enc.kind, t.pred.elems[i])
                ==> rank_of(t.enc.kind, t.positive.elems[i]) == positive_rank(
                rank_of(t.enc.kind, t.pred.elems[i]),
            )
        } by {
            let s = t.both.elems[i];
            assert(rank_of(t.enc.kind, t.both.elems[i]) == rank_of(t.enc.kind, s));
        }
    }
}

/// Where the positive part of a number stands.
pub open spec fn positive_rank(rank: int) -> int {
    if rank > 0 {
        rank
    } else {
        0
    }
}

/// The projections are made of the tensors of their own names, from their own widths to that of the joint
/// layer.
pub proof fn law_projections_have_their_names(w: WeightStore, c: JointConfig, net: JointNetwork)
    requires
        joint_loaded(w, c, net),
    ensures
        weight_loaded(
            w,
            "enc"@ + ".weight"@,
            seq![c.joint_hidden, c.encoder_hidden],
            net.enc_proj.weight,
        ),
        weight_loaded(w, "enc"@ + ".bias"@, seq![c.joint_hidden], net.enc_proj.bias),
        weight_loaded(
            w,
            "pred"@ + ".weight"@,
            seq![c.joint_hidden, c.pred_hidden],
            net.pred_proj.weight,
        ),
        weight_loaded(w, "pred"@ + ".bias"@, seq![c.joint_hidden], net.pred_proj.bias),
{
    reveal_strlit("weight");
    reveal_strlit("bias");
    reveal_strlit(".weight");
    reveal_strlit(".bias");
    let e = choose|x: WeightStore| #[trigger]
        narrowed(w, "enc"@, x) && linear_loaded(x, c.encoder_hidden, c.joint_hidden, net.enc_proj);
    let p = choose|x: WeightStore| #[trigger]
        narrowed(w, "pred"@, x) && linear_loaded(x, c.pred_hidden, c.joint_hidden, net.pred_proj);
    let enc = "enc"@;
    let pred = "pred"@;
    assert(enc + seq!['.'] + "weight"@ =~= enc + ".weight"@);
    assert(enc + seq!['.'] + "bias"@ =~= enc + ".bias"@);
    assert(pred + seq!['.'] + "weight"@ =~= pred + ".weight"@);
    assert(pred + seq!['.'] + "bias"@ =~= pred + ".bias"@);
    law_narrowed_stores_find_the_same(
        w,
        enc,
        e,
        "weight"@,
        seq![c.joint_hidden, c.encoder_hidden],
        net.enc_proj.weight,
    );
    law_narrowed_stores_find_the_same(
        w,
        enc,
        e,
        "bias"@,
        seq![c.joint_hidden],
        net.enc_proj.bias,
    );
    law_narrowed_stores_find_the_same(
        w,
        pred,
        p,
        "weight"@,
        seq![c.joint_hidden, c.pred_hidden],
        net.pred_proj.weight,
    );
    law_narrowed_stores_find_the_same(
        w,
        pred,
        p,
        "bias"@,
        seq![c.joint_hidden],
        net.pred_proj.bias,
    );
}

} // verus!
