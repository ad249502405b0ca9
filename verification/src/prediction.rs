//! The prediction network: an embedding and a stack of LSTM layers.
use crate::tensor::{
    add_batch, array, arrays, broadcast_add, broadcast_add_refused, broadcast_add_result, device_of,
    dims, drop_batch, embed, embed_refused, extent, is_embedding, lemma_last_axis, matmul,
    matmul_refused, matmul_result, mul_refused, mul_result, narrow_array, narrow_last, one, product,
    refuse, share, sigmoid, sigmoid_refused, sigmoid_result, single, single_precision, tanh,
    tanh_refused, tanh_result, tensor_device, tensor_dims, transpose, transposed, two, volume,
    with_batch, without_batch, zeros, zeros_array, zeros_refused, Array,
};
use crate::text::{decimal, decimal_digits};
use crate::weights::{narrowed, weight_loaded, weight_refused, WeightStore};
use candle_core::{Device, Error, Tensor};
use vstd::prelude::*;

verus! {

/// Sizes of the prediction network.
pub struct DecoderConfig {
    /// Rows of the embedding, the blank token among them.
    pub vocab_size: usize,
    /// Columns of the embedding.
    pub embed_dim: usize,
    /// Width of the LSTM state.
    pub pred_hidden: usize,
    /// Number of LSTM layers.
    pub num_lstm_layers: usize,
    /// The blank token.
    pub blank_idx: usize,
}

/// One LSTM layer.
///
/// `gates = x W_ih^T + b_ih + h W_hh^T + b_hh`, cut into the gates i, f, g, o;
/// `c' = sigmoid(f) c + sigmoid(i) tanh(g)` and `h' = sigmoid(o) tanh(c')`.
pub struct LstmLayer {
    /// `4 hidden_size` rows of the input's width.
    pub weight_ih: Tensor,
    /// `4 hidden_size` rows of `hidden_size`.
    pub weight_hh: Tensor,
    /// `4 hidden_size` numbers.
    pub bias_ih: Tensor,
    /// `4 hidden_size` numbers.
    pub bias_hh: Tensor,
    /// Width of the state.
    pub hidden_size: usize,
}

/// A vector as a matrix of one row; anything else unchanged.
pub open spec fn batched(a: Array) -> Array {
    if a.dims.len() == 1 {
        with_batch(a)
    } else {
        a
    }
}

/// The intermediate results of one step of an LSTM layer.
pub struct LstmTrace {
    pub input_part: Array,
    pub input_biased: Array,
    pub hidden_part: Array,
    pub both: Array,
    pub gates: Array,
    pub i: Array,
    pub f: Array,
    pub g: Array,
    pub o: Array,
    pub kept: Array,
    pub written: Array,
    pub squashed: Array,
}

/// The part of the last axis that starts at `start` with `len` entries.
pub open spec fn last_part(a: Array, start: int, len: int) -> Array {
    narrow_array(a, a.dims.len() - 1, start, len)
}

/// One step of a layer, with its intermediate results.
pub open spec fn lstm_steps(
    layer: LstmLayer,
    x: Array,
    h: Array,
    c: Array,
    t: LstmTrace,
    h_new: Array,
    c_new: Array,
) -> bool {
    let hs = layer.hidden_size as int;
    let gates = without_batch(t.gates);
    &&& matmul_result(batched(x), transposed(array(layer.weight_ih)), t.input_part)
    &&& broadcast_add_result(t.input_part, array(layer.bias_ih), t.input_biased)
    &&& matmul_result(batched(h), transposed(array(layer.weight_hh)), t.hidden_part)
    &&& broadcast_add_result(t.input_biased, t.hidden_part, t.both)
    &&& broadcast_add_result(t.both, array(layer.bias_hh), t.gates)
    &&& t.gates.dims.len() > 0 && gates.dims.len() > 0 && 4 * hs <= gates.dims.last()
    &&& sigmoid_result(last_part(gates, 0, hs), t.i)
    &&& sigmoid_result(last_part(gates, hs, hs), t.f)
    &&& tanh_result(last_part(gates, 2 * hs, hs), t.g)
    &&& sigmoid_result(last_part(gates, 3 * hs, hs), t.o)
    &&& mul_result(t.f, c, t.kept)
    &&& mul_result(t.i, t.g, t.written)
    &&& broadcast_add_result(t.kept, t.written, c_new)
    &&& tanh_result(c_new, t.squashed)
    &&& mul_result(t.o, t.squashed, h_new)
}

/// `h_new` and `c_new` are what one step of a layer gave for `x`, `h` and `c`.
pub open spec fn lstm_result(
    layer: LstmLayer,
    x: Array,
    h: Array,
    c: Array,
    h_new: Array,
    c_new: Array,
) -> bool {
    exists|t: LstmTrace| #[trigger] lstm_steps(layer, x, h, c, t, h_new, c_new)
}

/// A step of a layer can be refused, or it does not give the gates.
pub open spec fn lstm_refused(layer: LstmLayer, x: Array, h: Array, c: Array) -> bool {
    let from_x = transposed(array(layer.weight_ih));
    let from_h = transposed(array(layer.weight_hh));
    ||| matmul_refused(batched(x), from_x)
    ||| matmul_refused(batched(h), from_h)
    ||| exists|input_part: Array| #[trigger]
        matmul_result(batched(x), from_x, input_part) && {
            ||| broadcast_add_refused(input_part, array(layer.bias_ih))
            ||| exists|input_biased: Array, hidden_part: Array|
                {
                    &&& #[trigger] broadcast_add_result(
                        input_part,
                        array(layer.bias_ih),
                        input_biased,
                    )
                    &&& #[trigger] matmul_result(batched(h), from_h, hidden_part)
                    &&& gating_refused(layer, input_biased, hidden_part, c)
                }
        }
}

/// A step from the parts of the gates to the new state can be refused.
pub open spec fn gating_refused(
    layer: LstmLayer,
    input_biased: Array,
    hidden_part: Array,
    c: Array,
) -> bool {
    ||| broadcast_add_refused(input_biased, hidden_part)
    ||| exists|both: Array| #[trigger]
        broadcast_add_result(input_biased, hidden_part, both) && {
            ||| broadcast_add_refused(both, array(layer.bias_hh))
            ||| exists|gates: Array| #[trigger]
                broadcast_add_result(both, array(layer.bias_hh), gates) && gates_refused(
                    layer.hidden_size as int,
                    gates,
                    c,
                )
        }
}

/// A step from the gates to the new state can be refused, or there are fewer than four gates.
pub open spec fn gates_refused(hs: int, all: Array, c: Array) -> bool {
    let gates = without_batch(all);
    let i = last_part(gates, 0, hs);
    let f = last_part(gates, hs, hs);
    let g = last_part(gates, 2 * hs, hs);
    let o = last_part(gates, 3 * hs, hs);
    ||| all.dims.len() == 0
    ||| gates.dims.len() == 0
    ||| 4 * hs > gates.dims.last()
    ||| sigmoid_refused(i)
    ||| sigmoid_refused(f)
    ||| tanh_refused(g)
    ||| sigmoid_refused(o)
    ||| exists|fv: Array| #[trigger] sigmoid_result(f, fv) && mul_refused(fv, c)
    ||| exists|iv: Array, gv: Array| #[trigger]
        sigmoid_result(i, iv) && #[trigger] tanh_result(g, gv) && mul_refused(iv, gv)
    ||| exists|iv: Array, fv: Array, gv: Array, ov: Array, kept: Array, written: Array|
        {
            &&& #[trigger] sigmoid_result(i, iv)
            &&& #[trigger] sigmoid_result(f, fv)
            &&& #[trigger] tanh_result(g, gv)
            &&& #[trigger] sigmoid_result(o, ov)
            &&& #[trigger] mul_result(fv, c, kept)
            &&& #[trigger] mul_result(iv, gv, written)
            &&& state_refused(ov, kept, written)
        }
}

/// A step from what is kept and what is written to the new state can be refused.
pub open spec fn state_refused(o: Array, kept: Array, written: Array) -> bool {
    ||| broadcast_add_refused(kept, written)
    ||| exists|c_new: Array| #[trigger]
        broadcast_add_result(kept, written, c_new) && {
            ||| tanh_refused(c_new)
            ||| exists|squashed: Array| #[trigger]
                tanh_result(c_new, squashed) && mul_refused(o, squashed)
        }
}

/// A tensor of a layer can be refused.
pub open spec fn lstm_missing(w: WeightStore, input: usize, hidden: usize, index: nat) -> bool {
    let gates = (4 * hidden) as usize;
    let suffix = decimal_digits(index);
    ||| weight_refused(w, "weight_ih_l"@ + suffix, seq![gates, input])
    ||| weight_refused(w, "weight_hh_l"@ + suffix, seq![gates, hidden])
    ||| weight_refused(w, "bias_ih_l"@ + suffix, seq![gates])
    ||| weight_refused(w, "bias_hh_l"@ + suffix, seq![gates])
}

/// The tensors of a layer are those of its number.
pub open spec fn lstm_loaded(w: WeightStore, input: usize, index: nat, layer: LstmLayer) -> bool {
    let gates = (4 * layer.hidden_size) as usize;
    let suffix = decimal_digits(index);
    &&& weight_loaded(w, "weight_ih_l"@ + suffix, seq![gates, input], layer.weight_ih)
    &&& weight_loaded(w, "weight_hh_l"@ + suffix, seq![gates, layer.hidden_size], layer.weight_hh)
    &&& weight_loaded(w, "bias_ih_l"@ + suffix, seq![gates], layer.bias_ih)
    &&& weight_loaded(w, "bias_hh_l"@ + suffix, seq![gates], layer.bias_hh)
}

fn numbered(stem: &str, index: usize) -> (r: String)
    ensures
        r@ == stem@ + decimal_digits(index as nat),
{
    let mut out: String = String::new();
    out.push_str(stem);
    out.push_str(decimal(index as u64).as_str());
    assert(out@ =~= stem@ + decimal_digits(index as nat));
    out
}

impl LstmLayer {
    /// The state is narrow enough to count its gates.
    pub open spec fn wf(self) -> bool {
        &&& 4 * self.hidden_size <= usize::MAX
        &&& tensor_dims(self.weight_ih).len() == 2
        &&& tensor_dims(self.weight_hh).len() == 2
    }

    /// Layer `layer_idx` of a store.
    pub fn load(
        input_size: usize,
        hidden_size: usize,
        layer_idx: usize,
        vb: &WeightStore,
    ) -> (r: Result<LstmLayer, Error>)
        requires
            4 * hidden_size <= usize::MAX,
        ensures
            r matches Ok(layer) ==> layer.wf() && layer.hidden_size == hidden_size && lstm_loaded(
                *vb,
                input_size,
                layer_idx as nat,
                layer,
            ),
            r is Err ==> lstm_missing(*vb, input_size, hidden_size, layer_idx as nat),
    {
        let gate_size: usize = 4 * hidden_size;
        let weight_ih = vb.get(
            two(gate_size, input_size),
            numbered("weight_ih_l", layer_idx).as_str(),
        )?;
        let weight_hh = vb.get(
            two(gate_size, hidden_size),
            numbered("weight_hh_l", layer_idx).as_str(),
        )?;
        let bias_ih = vb.get(one(gate_size), numbered("bias_ih_l", layer_idx).as_str())?;
        let bias_hh = vb.get(one(gate_size), numbered("bias_hh_l", layer_idx).as_str())?;
        Ok(LstmLayer { weight_ih, weight_hh, bias_ih, bias_hh, hidden_size })
    }

    /// One step: the new state from an input and the state before it.
    pub fn step(&self, x: &Tensor, h: &Tensor, c: &Tensor) -> (r: Result<(Tensor, Tensor), Error>)
        requires
            self.wf(),
        ensures
            r matches Ok((h_new, c_new)) ==> lstm_result(
                *self,
                array(*x),
                array(*h),
                array(*c),
                array(h_new),
                array(c_new),
            ),
            r is Err ==> lstm_refused(*self, array(*x), array(*h), array(*c)),
    {
        let x_2d = if dims(x).len() == 1 {
            add_batch(x)?
        } else {
            share(x)
        };
        let h_2d = if dims(h).len() == 1 {
            add_batch(h)?
        } else {
            share(h)
        };
        assert(array(x_2d) == batched(array(*x)));
        assert(array(h_2d) == batched(array(*h)));
        let input_part = matmul(&x_2d, &transpose(&self.weight_ih)?)?;
        let input_biased = broadcast_add(&input_part, &self.bias_ih)?;
        let hidden_part = matmul(&h_2d, &transpose(&self.weight_hh)?)?;
        let both = broadcast_add(&input_biased, &hidden_part)?;
        let all_gates = broadcast_add(&both, &self.bias_hh)?;
        let gates = drop_batch(&all_gates)?;
        let hs: usize = self.hidden_size;
        let i_raw = narrow_last(&gates, 0, hs)?;
        let f_raw = narrow_last(&gates, hs, hs)?;
        let g_raw = narrow_last(&gates, 2 * hs, hs)?;
        let o_raw = narrow_last(&gates, 3 * hs, hs)?;
        let i_gate = sigmoid(&i_raw)?;
        let f_gate = sigmoid(&f_raw)?;
        let g_gate = tanh(&g_raw)?;
        let o_gate = sigmoid(&o_raw)?;
        let kept = product(&f_gate, c)?;
        let written = product(&i_gate, &g_gate)?;
        let c_new = broadcast_add(&kept, &written)?;
        let squashed = tanh(&c_new)?;
        let h_new = product(&o_gate, &squashed)?;
        proof {
            let t = LstmTrace {
                input_part: array(input_part),
                input_biased: array(input_biased),
                hidden_part: array(hidden_part),
                both: array(both),
                gates: array(all_gates),
                i: array(i_gate),
                f: array(f_gate),
                g: array(g_gate),
                o: array(o_gate),
                kept: array(kept),
                written: array(written),
                squashed: array(squashed),
            };
            assert(lstm_steps(
                *self,
                array(*x),
                array(*h),
                array(*c),
                t,
                array(h_new),
                array(c_new),
            ));
        }
        Ok((h_new, c_new))
    }
}

/// The state of the LSTM layers.
pub struct LstmState {
    /// The output of each layer.
    pub h: Vec<Tensor>,
    /// The cell of each layer.
    pub c: Vec<Tensor>,
}

/// `n` times the zero vector of a width.
pub open spec fn zero_vectors(n: nat, width: usize) -> Seq<Array> {
    Seq::new(n, |i: int| zeros_array(seq![width], single()))
}

/// All tensors live there.
pub open spec fn all_on(ts: Seq<Tensor>, device: Device) -> bool {
    forall|i: int| 0 <= i < ts.len() ==> tensor_device(#[trigger] ts[i]) == device
}

impl LstmState {
    /// The state before the first step: zeros.
    pub fn zeros(num_layers: usize, hidden_size: usize, device: &Device) -> (r: Result<
        LstmState,
        Error,
    >)
        requires
            8 * hidden_size <= isize::MAX,
        ensures
            r matches Ok(s) ==> arrays(s.h@) == zero_vectors(num_layers as nat, hidden_size)
                && arrays(s.c@) == zero_vectors(num_layers as nat, hidden_size),
            r matches Ok(s) ==> all_on(s.h@, *device) && all_on(s.c@, *device),
            r is Err ==> num_layers > 0 && zeros_refused(seq![hidden_size], single()),
    {
        let mut h: Vec<Tensor> = Vec::new();
        let mut c: Vec<Tensor> = Vec::new();
        let mut i: usize = 0;
        assert(arrays(h@) =~= zero_vectors(0, hidden_size));
        assert(arrays(c@) =~= zero_vectors(0, hidden_size));
        while i < num_layers
            invariant
                i <= num_layers,
                8 * hidden_size <= isize::MAX,
                arrays(h@) == zero_vectors(i as nat, hidden_size),
                arrays(c@) == zero_vectors(i as nat, hidden_size),
                all_on(h@, *device),
                all_on(c@, *device),
            decreases num_layers - i,
        {
            let x = zero_vector(hidden_size, device)?;
            let y = zero_vector(hidden_size, device)?;
            proof {
                assert(arrays(h@.push(x)) =~= arrays(h@).push(array(x)));
                assert(arrays(c@.push(y)) =~= arrays(c@).push(array(y)));
                assert(zero_vectors(i as nat + 1, hidden_size) =~= zero_vectors(
                    i as nat,
                    hidden_size,
                ).push(zeros_array(seq![hidden_size], single())));
            }
            h.push(x);
            c.push(y);
            i += 1;
        }
        Ok(LstmState { h, c })
    }
}

fn zero_vector(width: usize, device: &Device) -> (r: Result<Tensor, Error>)
    requires
        8 * width <= isize::MAX,
    ensures
        r matches Ok(t) ==> array(t) == zeros_array(seq![width], single()) && tensor_device(t)
            == *device,
        r is Err ==> zeros_refused(seq![width], single()),
{
    zeros(one(width), single_precision(), device)
}

/// The prediction network.
pub struct PredictionNet {
    /// One row for each token.
    pub embedding: Tensor,
    /// The layers, the first one nearest to the embedding.
    pub lstm_layers: Vec<LstmLayer>,
    /// Width of the state.
    pub hidden_size: usize,
    /// Number of layers.
    pub num_layers: usize,
    /// The blank token.
    pub blank_idx: usize,
}

/// `first` is what enters the first layer for a token: its row of the embedding, zeros for blank.
pub open spec fn token_input(net: PredictionNet, token: u32, first: Array) -> bool {
    let table = array(net.embedding);
    if token as usize == net.blank_idx {
        &&& table.dims.len() >= 2 && table.dims[1] <= isize::MAX / 8
        &&& first == zeros_array(seq![table.dims[1]], single())
    } else {
        exists|rows: Array| #[trigger]
            is_embedding(table, seq![token], rows) && first == without_batch(rows)
    }
}

/// The inputs of the layers: the first one's, then each layer's new output.
pub open spec fn layer_input(first: Array, h_new: Seq<Array>, i: int) -> Array {
    if i == 0 {
        first
    } else {
        h_new[i - 1]
    }
}

/// One step of the network, where `first` entered the first layer.
pub open spec fn prediction_steps(
    net: PredictionNet,
    first: Array,
    h: Seq<Array>,
    c: Seq<Array>,
    out: Array,
    h_new: Seq<Array>,
    c_new: Seq<Array>,
) -> bool {
    let n = net.lstm_layers@.len() as int;
    &&& h_new.len() == n
    &&& c_new.len() == n
    &&& out == layer_input(first, h_new, n)
    &&& forall|i: int|
        0 <= i < n ==> lstm_result(
            #[trigger] net.lstm_layers@[i],
            layer_input(first, h_new, i),
            h[i],
            c[i],
            h_new[i],
            c_new[i],
        )
}

/// `out`, `h_new` and `c_new` are what one step of the network gave.
pub open spec fn prediction_result(
    net: PredictionNet,
    token: u32,
    h: Seq<Array>,
    c: Seq<Array>,
    out: Array,
    h_new: Seq<Array>,
    c_new: Seq<Array>,
) -> bool {
    exists|first: Array|
        token_input(net, token, first) && #[trigger] prediction_steps(
            net,
            first,
            h,
            c,
            out,
            h_new,
            c_new,
        )
}

/// What enters the first layer for a token can be refused: its row of the embedding, or zeros for
/// blank. The embedding must have rows, and zeros as wide as they are must find a place.
pub open spec fn token_refused(net: PredictionNet, token: u32) -> bool {
    let table = array(net.embedding);
    if token as usize == net.blank_idx {
        ||| table.dims.len() < 2
        ||| table.dims[1] > isize::MAX / 8
        ||| zeros_refused(seq![table.dims[1]], single())
    } else {
        embed_refused(table, seq![token])
    }
}

/// Layer `at` can refuse a step; `before` are the new outputs of the layers in front of it.
pub open spec fn layer_stops(
    net: PredictionNet,
    first: Array,
    h: Seq<Array>,
    c: Seq<Array>,
    before: Seq<Array>,
    cells: Seq<Array>,
    at: int,
) -> bool {
    &&& 0 <= at < net.lstm_layers@.len()
    &&& before.len() == at
    &&& cells.len() == at
    &&& forall|i: int|
        0 <= i < at ==> lstm_result(
            #[trigger] net.lstm_layers@[i],
            layer_input(first, before, i),
            h[i],
            c[i],
            before[i],
            cells[i],
        )
    &&& lstm_refused(net.lstm_layers@[at], layer_input(first, before, at), h[at], c[at])
}

/// A step of the network can be refused: at its input or in one of its layers.
pub open spec fn prediction_refused(
    net: PredictionNet,
    token: u32,
    h: Seq<Array>,
    c: Seq<Array>,
) -> bool {
    ||| token_refused(net, token)
    ||| exists|first: Array, before: Seq<Array>, cells: Seq<Array>, at: int|
        token_input(net, token, first) && #[trigger] layer_stops(
            net,
            first,
            h,
            c,
            before,
            cells,
            at,
        )
}

/// The width of the input of layer `i`.
pub open spec fn layer_width(config: DecoderConfig, i: int) -> usize {
    if i == 0 {
        config.embed_dim
    } else {
        config.pred_hidden
    }
}

/// The tensors of a network are those of their names.
pub open spec fn prediction_loaded(
    w: WeightStore,
    config: DecoderConfig,
    net: PredictionNet,
) -> bool {
    exists|p: WeightStore, r: WeightStore, l: WeightStore|
        {
            &&& #[trigger] narrowed(w, "prediction"@, p)
            &&& #[trigger] narrowed(p, "dec_rnn"@, r)
            &&& #[trigger] narrowed(r, "lstm"@, l)
            &&& weight_loaded(
                p,
                "embed.weight"@,
                seq![config.vocab_size, config.embed_dim],
                net.embedding,
            )
            &&& forall|i: int|
                0 <= i < config.num_lstm_layers ==> lstm_loaded(
                    l,
                    layer_width(config, i),
                    i as nat,
                    #[trigger] net.lstm_layers@[i],
                )
        }
}

/// A tensor of a network can be refused.
pub open spec fn prediction_missing(w: WeightStore, config: DecoderConfig) -> bool {
    exists|p: WeightStore| #[trigger]
        narrowed(w, "prediction"@, p) && {
            ||| weight_refused(p, "embed.weight"@, seq![config.vocab_size, config.embed_dim])
            ||| exists|r: WeightStore, l: WeightStore, i: nat|
                {
                    &&& #[trigger] narrowed(p, "dec_rnn"@, r)
                    &&& #[trigger] narrowed(r, "lstm"@, l)
                    &&& i < config.num_lstm_layers
                    &&& #[trigger] lstm_missing(
                        l,
                        layer_width(config, i as int),
                        config.pred_hidden,
                        i,
                    )
                }
        }
}

impl PredictionNet {
    /// As many layers as counted, each with a state of the network's width, for which there are
    /// addresses.
    pub open spec fn wf(self) -> bool {
        &&& 8 * self.hidden_size <= isize::MAX
        &&& self.lstm_layers@.len() == self.num_layers
        &&& forall|i: int|
            0 <= i < self.lstm_layers@.len() ==> (#[trigger] self.lstm_layers@[i]).wf()
                && self.lstm_layers@[i].hidden_size == self.hidden_size
    }

    /// The network of a store.
    pub fn load(config: &DecoderConfig, vb: &WeightStore) -> (r: Result<PredictionNet, Error>)
        requires
            8 * config.pred_hidden <= isize::MAX,
        ensures
            r matches Ok(net) ==> {
                &&& net.wf()
                &&& net.hidden_size == config.pred_hidden
                &&& net.num_layers == config.num_lstm_layers
                &&& net.blank_idx == config.blank_idx
                &&& prediction_loaded(*vb, *config, net)
            },
            r is Err ==> prediction_missing(*vb, *config),
    {
        let pred_vb = vb.pp("prediction");
        assert(narrowed(*vb, "prediction"@, pred_vb));
        let embedding = pred_vb.get(two(config.vocab_size, config.embed_dim), "embed.weight")?;
        let rnn_vb = pred_vb.pp("dec_rnn");
        let lstm_vb = rnn_vb.pp("lstm");
        let mut lstm_layers: Vec<LstmLayer> = Vec::new();
        let mut i: usize = 0;
        while i < config.num_lstm_layers
            invariant
                i <= config.num_lstm_layers,
                lstm_layers@.len() == i,
                narrowed(*vb, "prediction"@, pred_vb),
                narrowed(pred_vb, "dec_rnn"@, rnn_vb),
                narrowed(rnn_vb, "lstm"@, lstm_vb),
                8 * config.pred_hidden <= isize::MAX,
                forall|j: int|
                    0 <= j < i ==> (#[trigger] lstm_layers@[j]).wf() && lstm_layers@[j].hidden_size
                        == config.pred_hidden && lstm_loaded(
                        lstm_vb,
                        layer_width(*config, j),
                        j as nat,
                        lstm_layers@[j],
                    ),
            decreases config.num_lstm_layers - i,
        {
            let input_size: usize = if i == 0 {
                config.embed_dim
            } else {
                config.pred_hidden
            };
            assert(input_size == layer_width(*config, i as int));
            let layer = LstmLayer::load(input_size, config.pred_hidden, i, &lstm_vb)?;
            lstm_layers.push(layer);
            i += 1;
        }
        Ok(
            PredictionNet {
                embedding,
                lstm_layers,
                hidden_size: config.pred_hidden,
                num_layers: config.num_lstm_layers,
                blank_idx: config.blank_idx,
            },
        )
    }

    /// The state before the first step.
    pub fn initial_state(&self, device: &Device) -> (r: Result<LstmState, Error>)
        requires
            self.wf(),
        ensures
            r matches Ok(s) ==> arrays(s.h@) == zero_vectors(
                self.num_layers as nat,
                self.hidden_size,
            ) && arrays(s.c@) == zero_vectors(self.num_layers as nat, self.hidden_size),
            r matches Ok(s) ==> all_on(s.h@, *device) && all_on(s.c@, *device),
            r is Err ==> self.num_layers > 0 && zeros_refused(seq![self.hidden_size], single()),
    {
        LstmState::zeros(self.num_layers, self.hidden_size, device)
    }

    /// One step: the output for a token and the state after it.
    pub fn step(&self, token_id: u32, state: &LstmState) -> (r: Result<(Tensor, LstmState), Error>)
        requires
            self.wf(),
            state.h@.len() >= self.lstm_layers@.len(),
            state.c@.len() >= self.lstm_layers@.len(),
        ensures
            r matches Ok((out, next)) ==> prediction_result(
                *self,
                token_id,
                arrays(state.h@),
                arrays(state.c@),
                array(out),
                arrays(next.h@),
                arrays(next.c@),
            ),
            r is Err ==> prediction_refused(
                *self,
                token_id,
                arrays(state.h@),
                arrays(state.c@),
            ),
    {
        let mut x = if token_id as usize == self.blank_idx {
            let width = extent(&self.embedding, 1)?;
            if width > isize::MAX as usize / 8 {
                return refuse(&self.embedding);
            }
            zero_vector(width, device_of(&self.embedding))?
        } else {
            let ids: Vec<u32> = vec![token_id];
            assert(ids@ =~= seq![token_id]);
            let rows = embed(&self.embedding, &ids)?;
            assert(is_embedding(array(self.embedding), seq![token_id], array(rows)));
            drop_batch(&rows)?
        };
        let ghost first = array(x);
        assert(token_input(*self, token_id, first));
        let mut new_h: Vec<Tensor> = Vec::new();
        let mut new_c: Vec<Tensor> = Vec::new();
        let mut i: usize = 0;
        while i < self.lstm_layers.len()
            invariant
                i <= self.lstm_layers@.len(),
                self.wf(),
                token_input(*self, token_id, first),
                state.h@.len() >= self.lstm_layers@.len(),
                state.c@.len() >= self.lstm_layers@.len(),
                new_h@.len() == i,
                new_c@.len() == i,
                array(x) == layer_input(first, arrays(new_h@), i as int),
                forall|j: int|
                    0 <= j < i ==> lstm_result(
                        #[trigger] self.lstm_layers@[j],
                        layer_input(first, arrays(new_h@), j),
                        arrays(state.h@)[j],
                        arrays(state.c@)[j],
                        arrays(new_h@)[j],
                        arrays(new_c@)[j],
                    ),
            decreases self.lstm_layers@.len() - i,
        {
            let (h_new, c_new) = match self.lstm_layers[i].step(&x, &state.h[i], &state.c[i]) {
                Ok(r) => r,
                Err(e) => {
                    assert(layer_stops(
                        *self,
                        first,
                        arrays(state.h@),
                        arrays(state.c@),
                        arrays(new_h@),
                        arrays(new_c@),
                        i as int,
                    ));
                    return Err(e);
                },
            };
            x = share(&h_new);
            let ghost before = arrays(new_h@);
            let ghost before_c = arrays(new_c@);
            new_h.push(h_new);
            new_c.push(c_new);
            proof {
                assert(arrays(new_h@) =~= before.push(array(h_new)));
                assert(arrays(new_c@) =~= before_c.push(array(c_new)));
                assert forall|j: int| 0 <= j < i + 1 implies lstm_result(
                    #[trigger] self.lstm_layers@[j],
                    layer_input(first, arrays(new_h@), j),
                    arrays(state.h@)[j],
                    arrays(state.c@)[j],
                    arrays(new_h@)[j],
                    arrays(new_c@)[j],
                ) by {
                    assert(layer_input(first, arrays(new_h@), j) == layer_input(first, before, j));
                }
            }
            i += 1;
        }
        assert(prediction_steps(
            *self,
            first,
            arrays(state.h@),
            arrays(state.c@),
            array(x),
            arrays(new_h@),
            arrays(new_c@),
        ));
        Ok((x, LstmState { h: new_h, c: new_c }))
    }
}

// ---------------------------------------------------------------------------
// What a step does
// ---------------------------------------------------------------------------

/// `part` is quarter `q` of the gates: entry `k` of each row is entry `q hs + k` of that row.
pub open spec fn is_quarter(gates: Array, hs: int, q: int, part: Array) -> bool {
    &&& part.kind == gates.kind
    &&& part.dims == gates.dims.drop_last().push(hs as usize)
    &&& forall|o: int, k: int|
        #![trigger part.elems[o * hs + k]]
        0 <= o < volume(gates.dims.drop_last()) && 0 <= k < hs ==> part.elems[o * hs + k]
            == gates.elems[o * gates.dims.last() + q * hs + k]
}

proof fn lemma_quarter(gates: Array, hs: int, q: int)
    requires
        gates.dims.len() >= 1,
        0 <= q < 4,
        0 <= hs,
        4 * hs <= gates.dims.last(),
    ensures
        is_quarter(gates, hs, q, last_part(gates, q * hs, hs)),
{
    let part = last_part(gates, q * hs, hs);
    assert(q * hs >= 0 && q * hs + hs <= gates.dims.last()) by (nonlinear_arith)
        requires
            0 <= q < 4,
            0 <= hs,
            4 * hs <= gates.dims.last(),
    ;
    assert(part.dims =~= gates.dims.drop_last().push(hs as usize));
    assert forall|o: int, k: int|
        #![trigger part.elems[o * hs + k]]
        0 <= o < volume(gates.dims.drop_last()) && 0 <= k < hs implies part.elems[o * hs + k]
        == gates.elems[o * gates.dims.last() + q * hs + k] by {
        lemma_last_axis(gates, q * hs, hs, o, k);
    }
}

/// The input gate, the forget gate, the new content and the output gate stand in the quarters of the gates
/// in this order. The forget gate weighs the old cell, the input gate the new content, the new cell is their
/// sum, and the output gate weighs what is let out of it.
pub proof fn law_gates_stand_in_quarters(
    layer: LstmLayer,
    x: Array,
    h: Array,
    c: Array,
    h_new: Array,
    c_new: Array,
)
    requires
        lstm_result(layer, x, h, c, h_new, c_new),
    ensures
        exists|gates: Array, parts: Seq<Array>, open: Seq<Array>, sums: Seq<Array>|
            {
                &&& parts.len() == 4 && open.len() == 4 && sums.len() == 3
                &&& forall|q: int|
                    0 <= q < 4 ==> is_quarter(
                        gates,
                        layer.hidden_size as int,
                        q,
                        #[trigger] parts[q],
                    )
                &&& #[trigger] gates_of(layer, x, h, gates)
                &&& #[trigger] opened(parts, open)
                &&& #[trigger] weighed(c, open, sums, c_new, h_new)
            },
{
    let t = choose|t: LstmTrace| #[trigger] lstm_steps(layer, x, h, c, t, h_new, c_new);
    let hs = layer.hidden_size as int;
    let gates = without_batch(t.gates);
    lemma_quarter(gates, hs, 0);
    lemma_quarter(gates, hs, 1);
    lemma_quarter(gates, hs, 2);
    lemma_quarter(gates, hs, 3);
    let parts = seq![
        last_part(gates, 0, hs),
        last_part(gates, hs, hs),
        last_part(gates, 2 * hs, hs),
        last_part(gates, 3 * hs, hs),
    ];
    let open = seq![t.i, t.f, t.g, t.o];
    let sums = seq![t.kept, t.written, t.squashed];
    assert(0 * hs == 0 && 1 * hs == hs);
    assert forall|q: int| 0 <= q < 4 implies is_quarter(gates, hs, q, #[trigger] parts[q]) by {
        if q == 0 {
        } else if q == 1 {
        } else if q == 2 {
        }
    }
    assert(gates_of(layer, x, h, gates));
    assert(opened(parts, open));
    assert(weighed(c, open, sums, c_new, h_new));
}

/// `gates` are what the input and the output before it give together, each through its own weights and with
/// its own bias.
pub open spec fn gates_of(layer: LstmLayer, x: Array, h: Array, gates: Array) -> bool {
    exists|from_x: Array, with_bias: Array, from_h: Array, both: Array, all: Array|
        {
            &&& #[trigger] matmul_result(batched(x), transposed(array(layer.weight_ih)), from_x)
            &&& #[trigger] matmul_result(batched(h), transposed(array(layer.weight_hh)), from_h)
            &&& #[trigger] broadcast_add_result(from_x, array(layer.bias_ih), with_bias)
            &&& #[trigger] broadcast_add_result(with_bias, from_h, both)
            &&& #[trigger] broadcast_add_result(both, array(layer.bias_hh), all)
            &&& gates == without_batch(all)
        }
}

/// The third quarter goes through the hyperbolic tangent, the others through the logistic function.
pub open spec fn opened(parts: Seq<Array>, open: Seq<Array>) -> bool {
    forall|q: int|
        #![trigger open[q]]
        0 <= q < 4 ==> if q == 2 {
            tanh_result(parts[q], open[q])
        } else {
            sigmoid_result(parts[q], open[q])
        }
}

/// The cell and the output that open gates give for the cell before.
pub open spec fn weighed(
    c: Array,
    open: Seq<Array>,
    sums: Seq<Array>,
    c_new: Array,
    h_new: Array,
) -> bool {
    &&& mul_result(open[1], c, sums[0])
    &&& mul_result(open[0], open[2], sums[1])
    &&& broadcast_add_result(sums[0], sums[1], c_new)
    &&& tanh_result(c_new, sums[2])
    &&& mul_result(open[3], sums[2], h_new)
}

/// `first` holds a token's row of the embedding, or as many zeros for blank.
pub open spec fn embedded_token(table: Array, token: u32, blank: usize, first: Array) -> bool {
    if token == blank {
        &&& first.dims == seq![table.dims[1]]
        &&& first.kind == single()
        &&& forall|k: int| 0 <= k < first.elems.len() ==> #[trigger] first.elems[k] == 0
    } else {
        exists|rows: Array| #[trigger]
            is_embedding(table, seq![token], rows) && first.elems == rows.elems
    }
}

/// The layers stand behind one another: the token's row of the embedding enters the first one, zeros for
/// blank; the new output of each enters the next, and that of the last one is what comes out. Each layer goes
/// on from its own output and cell.
pub proof fn law_layers_stand_behind_one_another(
    net: PredictionNet,
    token: u32,
    h: Seq<Array>,
    c: Seq<Array>,
    out: Array,
    h_new: Seq<Array>,
    c_new: Seq<Array>,
)
    requires
        prediction_result(net, token, h, c, out, h_new, c_new),
    ensures
        h_new.len() == net.lstm_layers@.len(),
        c_new.len() == net.lstm_layers@.len(),
        h_new.len() > 0 ==> out == h_new.last(),
        forall|i: int|
            1 <= i < h_new.len() ==> lstm_result(
                #[trigger] net.lstm_layers@[i],
                h_new[i - 1],
                h[i],
                c[i],
                h_new[i],
                c_new[i],
            ),
        exists|first: Array|
            {
                &&& h_new.len() == 0 ==> out == first
                &&& h_new.len() > 0 ==> lstm_result(
                    net.lstm_layers@[0],
                    first,
                    h[0],
                    c[0],
                    h_new[0],
                    c_new[0],
                )
                &&& #[trigger] embedded_token(
                    array(net.embedding),
                    token,
                    net.blank_idx,
                    first,
                )
            },
{
    let first = choose|first: Array|
        token_input(net, token, first) && #[trigger] prediction_steps(
            net,
            first,
            h,
            c,
            out,
            h_new,
            c_new,
        );
    let n = net.lstm_layers@.len() as int;
    assert forall|i: int| 1 <= i < h_new.len() implies lstm_result(
        #[trigger] net.lstm_layers@[i],
        h_new[i - 1],
        h[i],
        c[i],
        h_new[i],
        c_new[i],
    ) by {
        assert(layer_input(first, h_new, i) == h_new[i - 1]);
    }
    if n > 0 {
        assert(layer_input(first, h_new, 0) == first);
        assert(lstm_result(net.lstm_layers@[0], first, h[0], c[0], h_new[0], c_new[0]));
    }
    assert(embedded_token(
        array(net.embedding),
        token,
        net.blank_idx,
        first,
    ));
}

} // verus!
