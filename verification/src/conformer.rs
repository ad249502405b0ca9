//! The FastConformer encoder of Parakeet.
//!
//! Frames are reduced to an eighth by convolutions. Each layer then applies half a feed-forward
//! network, attention with relative positions, a convolution over time, and another half of a
//! feed-forward network, each one added to its input, and a normalization.
use crate::attention::{
    entries_by_head, entries_by_position, heads_first, lemma_entries_by_head,
    lemma_entries_by_position, lemma_rows_as_columns, rows_as_columns, under,
};
use crate::encoder::{
    conv_layer_from, conv_layer_missing, conv_layer_refused, conv_layer_result, downsampled, halved,
    mapped_heads, ConvLayer,
};
use crate::nn::{
    dense_named, dense_refused, dense_result, law_maps_have_full_names,
    law_normalizations_have_full_names, norm_named, plain_norm_refused, plain_norm_result,
    sub_dense_from, sub_dense_missing, sub_norm_from, sub_norm_missing, weighting_refused, Dense,
    LayerNorm,
};
use crate::tensor::{
    add_refused, add_result, all_ordinary, allocatable, array, broadcast_add, broadcast_add_refused,
    broadcast_add_result, broadcast_div, broadcast_div_refused, broadcast_div_result, broadcast_mul,
    broadcast_mul_result, broadcast_sub, broadcast_sub_refused, broadcast_sub_result, cat_pair,
    cat_two, contiguous, contiguous_refused, conv1d, conv1d_refused, conv1d_result, countless,
    device_of, dims, dtype_of, exchanged, extent, four, gives_zeros, has_room, in_turn, is_index,
    is_order, is_permuted, is_zero, lemma_division, lemma_offset_of_four, lemma_volume_matrix,
    lemma_volume_vector, matmul, matmul_refused, matmul_result, mul_refused, mul_result, narrow,
    narrow_array, offset, one, ordinary, over, over_refused, over_result, pair_refused, permute,
    plus, plus_refused, plus_result, product, quotient, quotient_of, refuse, relu, relu_refused,
    relu_result, reshape_refused, reshaped, root_of, same_number, same_numbers, share, sigmoid,
    sigmoid_refused, sigmoid_result, silu, silu_refused, silu_result, slid, softmax_last,
    softmax_refused, softmax_result, sqrt, sqrt_refused, sqrt_result, square_root, sum, swap_axes,
    tensor_dims, three, times, times_refused, times_result, two, unsqueeze, volume, with_axis,
    zeros, zeros_array, zeros_refused, Array, Sliding,
};
use crate::text::{decimal, decimal_digits};
use crate::weights::{narrowed, weight_loaded, weight_refused, WeightStore};
use candle_core::scalar::Scalar;
use candle_core::{Error, Tensor};
use vstd::prelude::*;

verus! {

/// Sizes of the encoder.
#[derive(Debug, Clone, Copy, PartialEq, Eq, Structural)]
pub struct EncoderConfig {
    /// Number of mel bins.
    pub feat_in: usize,
    pub d_model: usize,
    pub d_ff: usize,
    pub n_layers: usize,
    pub n_heads: usize,
    /// Width of a head.
    pub d_k: usize,
    pub conv_kernel_size: usize,
    pub subsampling_factor: usize,
    pub subsampling_conv_channels: usize,
}

impl EncoderConfig {
    /// Widths can be counted.
    pub open spec fn wf(self) -> bool {
        &&& self.subsampling_factor >= 1
        &&& self.subsampling_conv_channels * (self.feat_in / self.subsampling_factor) <= usize::MAX
        &&& self.n_heads * self.d_k <= usize::MAX
        &&& self.d_k <= i64::MAX
        &&& 2 * self.d_model <= usize::MAX
    }
}

// ---------------------------------------------------------------------------
// Subsampling
// ---------------------------------------------------------------------------

/// Reduction to an eighth: a convolution that widens, and twice one for each channel followed by one
/// across channels.
pub struct DwStridingSubsampling {
    pub conv0: ConvLayer,
    pub conv2: ConvLayer,
    pub conv3: ConvLayer,
    pub conv5: ConvLayer,
    pub conv6: ConvLayer,
    pub out: Dense,
    pub channels: usize,
}

/// The intermediate results of subsampling.
pub struct SubsampleTrace {
    pub a: Array,
    pub a_on: Array,
    pub b: Array,
    pub c: Array,
    pub c_on: Array,
    pub d: Array,
    pub e: Array,
    pub rows: Array,
}

/// Subsampling, with its intermediate results.
pub open spec fn subsample_steps(
    s: DwStridingSubsampling,
    x: Array,
    t: SubsampleTrace,
    r: Array,
) -> bool {
    &&& conv_layer_result(s.conv0, x, t.a)
    &&& relu_result(t.a, t.a_on)
    &&& conv_layer_result(s.conv2, t.a_on, t.b)
    &&& conv_layer_result(s.conv3, t.b, t.c)
    &&& relu_result(t.c, t.c_on)
    &&& conv_layer_result(s.conv5, t.c_on, t.d)
    &&& conv_layer_result(s.conv6, t.d, t.e)
    &&& t.e.dims[1] * t.e.dims[3] <= usize::MAX
    &&& rows_first(t.e, t.rows)
    &&& dense_result(
        s.out,
        under(
            t.rows,
            seq![t.e.dims[0], t.e.dims[2], (t.e.dims[1] * t.e.dims[3]) as usize],
        ),
        r,
    )
}

/// `r` is what subsampling gave for `x`.
pub open spec fn subsample_result(s: DwStridingSubsampling, x: Array, r: Array) -> bool {
    exists|t: SubsampleTrace| #[trigger] subsample_steps(s, x, t, r)
}

/// `r` is a picture with its rows before channels.
pub open spec fn rows_first(e: Array, r: Array) -> bool {
    is_permuted(e, seq![0usize, 2, 1, 3], r)
}

/// A step of subsampling can be refused for `x`.
pub open spec fn subsample_refused(s: DwStridingSubsampling, x: Array) -> bool {
    ||| conv_layer_refused(s.conv0, x)
    ||| exists|a: Array| #[trigger]
        conv_layer_result(s.conv0, x, a) && {
            ||| relu_refused(a)
            ||| exists|a_on: Array| #[trigger]
                relu_result(a, a_on) && {
                    ||| separable_refused(s.conv2, s.conv3, a_on)
                    ||| exists|c: Array| #[trigger]
                        separable_result(s.conv2, s.conv3, a_on, c) && {
                            ||| relu_refused(c)
                            ||| exists|c_on: Array| #[trigger]
                                relu_result(c, c_on) && {
                                    ||| separable_refused(s.conv5, s.conv6, c_on)
                                    ||| exists|e: Array| #[trigger]
                                        separable_result(s.conv5, s.conv6, c_on, e)
                                            && flattening_refused(s, e)
                                }
                        }
                }
        }
}

/// `r` is what a convolution for each channel and one across channels gave for `x`.
pub open spec fn separable_result(each: ConvLayer, across: ConvLayer, x: Array, r: Array) -> bool {
    exists|y: Array| #[trigger] conv_layer_result(each, x, y) && conv_layer_result(across, y, r)
}

/// A step of a convolution for each channel or of the one across channels can be refused for `x`.
pub open spec fn separable_refused(each: ConvLayer, across: ConvLayer, x: Array) -> bool {
    ||| conv_layer_refused(each, x)
    ||| exists|y: Array| #[trigger] conv_layer_result(each, x, y) && conv_layer_refused(across, y)
}

/// A step from the last picture to the entries can be refused, or a row of all channels and bins
/// cannot be counted.
pub open spec fn flattening_refused(s: DwStridingSubsampling, e: Array) -> bool {
    let wide = e.dims[1] * e.dims[3];
    let flat = seq![e.dims[0], e.dims[2], wide as usize];
    ||| wide > usize::MAX
    ||| exists|rows: Array| #[trigger]
        rows_first(e, rows) && {
            ||| contiguous_refused(rows)
            ||| reshape_refused(rows, flat)
            ||| dense_refused(s.out, under(rows, flat))
        }
}

/// A step of two that keeps to a padding of one.
pub open spec fn by_two(groups: usize) -> Sliding {
    Sliding { padding: 1, stride: 2, groups }
}

/// A step of one without padding.
pub open spec fn by_one() -> Sliding {
    Sliding { padding: 0, stride: 1, groups: 1 }
}

/// A kernel of one with a step of one leaves an extent as it is.
proof fn lemma_step_of_one(n: int)
    ensures
        slid(n, 1, by_one()) == n,
{
    let s = by_one();
    assert((n + 2 * s.padding - 1) / (s.stride as int) == n - 1) by (nonlinear_arith)
        requires
            s.padding == 0,
            s.stride == 1,
    ;
}

/// The weights of subsampling are those of their names.
pub open spec fn subsampling_from(
    c: EncoderConfig,
    w: WeightStore,
    s: DwStridingSubsampling,
) -> bool {
    let n = c.subsampling_conv_channels;
    &&& exists|v: WeightStore|
        {
            &&& #[trigger] narrowed(w, "conv"@, v)
            &&& conv_layer_from(v, seq![n, 1usize, 3, 3], "0.weight"@, "0.bias"@, s.conv0)
            &&& conv_layer_from(v, seq![n, 1usize, 3, 3], "2.weight"@, "2.bias"@, s.conv2)
            &&& conv_layer_from(v, seq![n, n, 1usize, 1], "3.weight"@, "3.bias"@, s.conv3)
            &&& conv_layer_from(v, seq![n, 1usize, 3, 3], "5.weight"@, "5.bias"@, s.conv5)
            &&& conv_layer_from(v, seq![n, n, 1usize, 1], "6.weight"@, "6.bias"@, s.conv6)
        }
    &&& s.conv0.sliding == by_two(1)
    &&& s.conv2.sliding == by_two(n)
    &&& s.conv3.sliding == by_one()
    &&& s.conv5.sliding == by_two(n)
    &&& s.conv6.sliding == by_one()
    &&& sub_dense_from(
        w,
        "out"@,
        (n * (c.feat_in / c.subsampling_factor)) as usize,
        c.d_model,
        true,
        s.out,
    )
    &&& s.channels == n
}

/// A weight of subsampling can be refused.
pub open spec fn subsampling_missing(c: EncoderConfig, w: WeightStore) -> bool {
    let n = c.subsampling_conv_channels;
    ||| exists|v: WeightStore| #[trigger]
        narrowed(w, "conv"@, v) && {
            ||| conv_layer_missing(v, seq![n, 1usize, 3, 3], "0.weight"@, "0.bias"@)
            ||| conv_layer_missing(v, seq![n, 1usize, 3, 3], "2.weight"@, "2.bias"@)
            ||| conv_layer_missing(v, seq![n, n, 1usize, 1], "3.weight"@, "3.bias"@)
            ||| conv_layer_missing(v, seq![n, 1usize, 3, 3], "5.weight"@, "5.bias"@)
            ||| conv_layer_missing(v, seq![n, n, 1usize, 1], "6.weight"@, "6.bias"@)
        }
    ||| sub_dense_missing(
        w,
        "out"@,
        (n * (c.feat_in / c.subsampling_factor)) as usize,
        c.d_model,
        true,
    )
}

impl DwStridingSubsampling {
    /// Kernels of three by three that halve both axes, each followed by one across channels but for
    /// the first.
    pub open spec fn wf(self) -> bool {
        let n = self.channels;
        &&& self.conv0.wf() && self.conv2.wf() && self.conv3.wf() && self.conv5.wf()
            && self.conv6.wf()
        &&& tensor_dims(self.conv0.weight) == seq![n, 1usize, 3, 3]
        &&& tensor_dims(self.conv2.weight) == seq![n, 1usize, 3, 3]
        &&& tensor_dims(self.conv3.weight) == seq![n, n, 1usize, 1]
        &&& tensor_dims(self.conv5.weight) == seq![n, 1usize, 3, 3]
        &&& tensor_dims(self.conv6.weight) == seq![n, n, 1usize, 1]
        &&& self.conv0.sliding == by_two(1)
        &&& self.conv2.sliding == by_two(n)
        &&& self.conv3.sliding == by_one()
        &&& self.conv5.sliding == by_two(n)
        &&& self.conv6.sliding == by_one()
        &&& self.out.wf()
    }

    /// The subsampling of a store.
    pub fn load(config: &EncoderConfig, vb: &WeightStore) -> (r: Result<
        DwStridingSubsampling,
        Error,
    >)
        requires
            config.wf(),
        ensures
            r matches Ok(s) ==> s.wf() && subsampling_from(*config, *vb, s),
            r matches Ok(s) ==> tensor_dims(s.out.weight)[0] == config.d_model,
            r is Err ==> subsampling_missing(*config, *vb),
    {
        let c: usize = config.subsampling_conv_channels;
        let conv_vb = vb.pp("conv");
        assert(narrowed(*vb, "conv"@, conv_vb));
        let one_step = Sliding { padding: 0, stride: 1, groups: 1 };
        let conv0 = ConvLayer::load(
            &conv_vb,
            four(c, 1, 3, 3),
            "0.weight",
            "0.bias",
            Sliding { padding: 1, stride: 2, groups: 1 },
        )?;
        let conv2 = ConvLayer::load(
            &conv_vb,
            four(c, 1, 3, 3),
            "2.weight",
            "2.bias",
            Sliding { padding: 1, stride: 2, groups: c },
        )?;
        let conv3 = ConvLayer::load(
            &conv_vb,
            four(c, c, 1, 1),
            "3.weight",
            "3.bias",
            Sliding { padding: 0, stride: 1, groups: 1 },
        )?;
        let conv5 = ConvLayer::load(
            &conv_vb,
            four(c, 1, 3, 3),
            "5.weight",
            "5.bias",
            Sliding { padding: 1, stride: 2, groups: c },
        )?;
        let conv6 = ConvLayer::load(
            &conv_vb,
            four(c, c, 1, 1),
            "6.weight",
            "6.bias",
            one_step,
        )?;
        let freq_out: usize = config.feat_in / config.subsampling_factor;
        assert(0 <= c * freq_out) by (nonlinear_arith);
        let out = Dense::load_at(vb, "out", c * freq_out, config.d_model, true)?;
        Ok(DwStridingSubsampling { conv0, conv2, conv3, conv5, conv6, out, channels: c })
    }

    /// From a spectrogram by recording, one channel, time and mel bins to entries by recording and an
    /// eighth of the time.
    pub fn forward(&self, x: &Tensor) -> (r: Result<Tensor, Error>)
        requires
            self.wf(),
        ensures
            r is Ok ==> tensor_dims(*x).len() == 4 && tensor_dims(*x)[2] >= 1,
            r matches Ok(y) ==> subsample_result(*self, array(*x), array(y)),
            r matches Ok(y) ==> tensor_dims(y) == seq![
                tensor_dims(*x)[0],
                downsampled(tensor_dims(*x)[2] as int) as usize,
                tensor_dims(self.out.weight)[0],
            ],
            r is Err ==> subsample_refused(*self, array(*x)),
    {
        let a = self.conv0.forward(x)?;
        let a_on = relu(&a)?;
        let b = self.conv2.forward(&a_on)?;
        let c = self.conv3.forward(&b)?;
        assert(separable_result(self.conv2, self.conv3, array(a_on), array(c)));
        let c_on = relu(&c)?;
        let d = self.conv5.forward(&c_on)?;
        let e = self.conv6.forward(&d)?;
        assert(separable_result(self.conv5, self.conv6, array(c_on), array(e)));
        let n = dims(&e);
        let order = four(0, 2, 1, 3);
        assert(is_order(order@, 4));
        let ordered = permute(&e, order)?;
        assert(rows_first(array(e), array(ordered)));
        let rows = contiguous(&ordered)?;
        let wide: usize = match n[1].checked_mul(n[3]) {
            Some(w) => w,
            None => {
                return refuse(&e);
            },
        };
        let flat = reshaped(&rows, three(n[0], n[2], wide))?;
        let r = self.out.forward(&flat)?;
        proof {
            let t = SubsampleTrace {
                a: array(a),
                a_on: array(a_on),
                b: array(b),
                c: array(c),
                c_on: array(c_on),
                d: array(d),
                e: array(e),
                rows: array(rows),
            };
            assert(subsample_steps(*self, array(*x), t, array(r)));
            let time = tensor_dims(*x)[2] as int;
            assert(slid(time, 3, by_two(1)) == halved(time));
            assert(tensor_dims(a)[1] == self.channels);
            assert(tensor_dims(a)[2] == halved(time));
            assert(tensor_dims(b)[2] == halved(halved(time)));
            lemma_step_of_one(halved(halved(time)));
            assert(tensor_dims(c)[2] == halved(halved(time)));
            assert(tensor_dims(d)[2] == downsampled(time));
            lemma_step_of_one(downsampled(time));
            assert(tensor_dims(e)[2] == downsampled(time));
            assert(tensor_dims(flat).drop_last() =~= seq![n@[0], n@[2]]);
            assert(tensor_dims(r) =~= seq![
                tensor_dims(*x)[0],
                downsampled(time) as usize,
                tensor_dims(self.out.weight)[0],
            ]);
        }
        Ok(r)
    }
}

// ---------------------------------------------------------------------------
// Relative positions
// ---------------------------------------------------------------------------

/// The layout of the embedding of relative positions: one row for each distance between two frames.
pub struct RelPositionalEncoding {
    pub d_model: usize,
}

impl RelPositionalEncoding {
    /// A layout of a width.
    pub fn new(d_model: usize) -> (r: RelPositionalEncoding)
        ensures
            r.d_model == d_model,
    {
        RelPositionalEncoding { d_model }
    }

    /// The number of rows for a number of frames.
    pub fn rows(&self, frames: usize) -> (r: usize)
        requires
            1 <= frames,
            2 * frames - 1 <= usize::MAX,
        ensures
            r == 2 * frames - 1,
    {
        frames + (frames - 1)
    }

    /// The distance that a row stands for: from the greatest negative one to the greatest positive
    /// one.
    pub fn distance(&self, frames: usize, row: usize) -> (r: isize)
        requires
            1 <= frames <= isize::MAX,
            row < 2 * frames - 1,
        ensures
            r == row - (frames - 1),
    {
        if row >= frames - 1 {
            (row - (frames - 1)) as isize
        } else {
            -((frames - 1 - row) as isize)
        }
    }
}

/// Scores by distance brought to scores by frame: a column of zeros in front, the rows cut anew, the
/// first one dropped, and the first columns kept.
pub open spec fn rel_shifted(x: Array) -> Array {
    let b = x.dims[0];
    let h = x.dims[1];
    let t = x.dims[2];
    let p = x.dims[3];
    let padded = cat_pair(zeros_array(seq![b, h, t, 1usize], x.kind), x, 3);
    let cut = under(padded, seq![b, h, (p + 1) as usize, t]);
    let dropped = narrow_array(cut, 2, 1, p as int);
    narrow_array(under(dropped, seq![b, h, t, p]), 3, 0, p / 2 + 1)
}

proof fn lemma_volume_three(a: usize, b: usize, c: usize)
    ensures
        volume(seq![a, b, c]) == a * b * c,
{
    let d = seq![a, b, c];
    assert(d.drop_last() =~= seq![a, b]);
    lemma_volume_matrix(a, b);
    assert(volume(d) == volume(d.drop_last()) * (d.last() as nat));
}

proof fn lemma_narrow_last(a: Array, start: int, len: int, row: int, j: int)
    requires
        a.dims.len() >= 1,
        0 <= row < volume(a.dims.drop_last()),
        0 <= j < len,
    ensures
        narrow_array(a, a.dims.len() - 1, start, len).elems[row * len + j] == a.elems[row
            * a.dims.last() + start + j],
{
    let axis = a.dims.len() - 1;
    let w = a.dims.last() as int;
    let inner = volume(a.dims.skip(axis + 1)) as int;
    assert(a.dims.skip(axis + 1) =~= Seq::<usize>::empty());
    assert(inner == 1);
    assert(a.dims.take(axis) =~= a.dims.drop_last());
    assert(len * inner == len && w * inner == w && start * inner == start) by (nonlinear_arith)
        requires
            inner == 1,
    ;
    lemma_division(row, len, j);
    let outer = volume(a.dims.drop_last()) as int;
    assert(0 <= row * len + j < outer * len) by (nonlinear_arith)
        requires
            0 <= row < outer,
            0 <= j < len,
    ;
}

proof fn lemma_cat_last(a: Array, b: Array, row: int, j: int)
    requires
        a.dims.len() >= 1,
        b.dims.len() == a.dims.len(),
        0 <= row < volume(a.dims.drop_last()),
        0 <= j < a.dims.last() + b.dims.last(),
    ensures
        cat_pair(a, b, a.dims.len() - 1).elems[row * (a.dims.last() + b.dims.last()) + j] == if j
            < a.dims.last() {
            a.elems[row * a.dims.last() + j]
        } else {
            b.elems[row * b.dims.last() + j - a.dims.last()]
        },
{
    let axis = a.dims.len() - 1;
    let x = a.dims.last() as int;
    let y = b.dims.last() as int;
    let inner = volume(a.dims.skip(axis + 1)) as int;
    assert(a.dims.skip(axis + 1) =~= Seq::<usize>::empty());
    assert(inner == 1);
    assert(a.dims.take(axis) =~= a.dims.drop_last());
    assert(x * inner == x && y * inner == y) by (nonlinear_arith)
        requires
            inner == 1,
    ;
    lemma_division(row, x + y, j);
    let outer = volume(a.dims.drop_last()) as int;
    assert(0 <= row * (x + y) + j < outer * (x + y)) by (nonlinear_arith)
        requires
            0 <= row < outer,
            0 <= j < x + y,
    ;
}

/// The score of frame `i` for frame `j` is the one of their distance: for every text and head `o`, it
/// is taken from the column of the distance between the two.
pub proof fn law_rel_shift_picks_the_distance(x: Array, o: int, i: int, j: int)
    requires
        x.dims.len() == 4,
        x.dims[2] >= 1,
        x.dims[3] == 2 * x.dims[2] - 1,
        x.dims[3] < usize::MAX,
        0 <= o < x.dims[0] * x.dims[1],
        0 <= i < x.dims[2],
        0 <= j < x.dims[2],
    ensures
        rel_shifted(x).dims == seq![x.dims[0], x.dims[1], x.dims[2], x.dims[2]],
        rel_shifted(x).elems[(o * x.dims[2] + i) * x.dims[2] + j] == x.elems[(o * x.dims[2] + i)
            * x.dims[3] + (x.dims[2] - 1 - i + j)],
{
    let b = x.dims[0];
    let h = x.dims[1];
    let t = x.dims[2] as int;
    let p = x.dims[3] as int;
    let outer = b * h;
    let z = zeros_array(seq![b, h, x.dims[2], 1usize], x.kind);
    let padded = cat_pair(z, x, 3);
    let cut = under(padded, seq![b, h, (p + 1) as usize, x.dims[2]]);
    let dropped = narrow_array(cut, 2, 1, p);
    let again = under(dropped, seq![b, h, x.dims[2], x.dims[3]]);
    let out = narrow_array(again, 3, 0, p / 2 + 1);
    assert(p / 2 + 1 == t);
    // The last step: the row of frame i.
    let row = o * t + i;
    assert(again.dims.drop_last() =~= seq![b, h, x.dims[2]]);
    lemma_volume_three(b, h, x.dims[2]);
    assert(0 <= row < outer * t) by (nonlinear_arith)
        requires
            0 <= o < outer,
            0 <= i < t,
            row == o * t + i,
    ;
    lemma_narrow_last(again, 0, t, row, j);
    assert(out.elems[row * t + j] == again.elems[row * p + j]);
    // The first row dropped.
    let m = i * p + j;
    assert(0 <= m < p * t) by (nonlinear_arith)
        requires
            0 <= i < t,
            0 <= j < t,
            t <= p,
            m == i * p + j,
    ;
    assert(row * p + j == o * (p * t) + m) by (nonlinear_arith)
        requires
            row == o * t + i,
            m == i * p + j,
    ;
    assert(cut.dims.skip(3) =~= seq![x.dims[2]]);
    lemma_volume_vector(x.dims[2]);
    assert(cut.dims.take(2) =~= seq![b, h]);
    lemma_volume_matrix(b, h);
    lemma_division(o, p * t, m);
    assert(0 <= o * (p * t) + m < outer * (p * t)) by (nonlinear_arith)
        requires
            0 <= o < outer,
            0 <= m < p * t,
    ;
    assert(1 * t == t);
    assert(dropped.elems[o * (p * t) + m] == cut.elems[o * ((p + 1) * t) + t + m]);
    // The column of zeros.
    let q = t - i + j;
    assert(o * ((p + 1) * t) + t + m == row * (p + 1) + q) by (nonlinear_arith)
        requires
            row == o * t + i,
            m == i * p + j,
            q == t - i + j,
    ;
    assert(z.dims.drop_last() =~= seq![b, h, x.dims[2]]);
    assert(1 + p == p + 1);
    lemma_cat_last(z, x, row, q);
    assert(padded.elems[row * (p + 1) + q] == x.elems[row * p + q - 1]);
    assert(out.dims =~= seq![b, h, x.dims[2], x.dims[2]]);
}

/// Attention with relative positions.
pub struct RelPositionMultiHeadAttention {
    pub linear_q: Dense,
    pub linear_k: Dense,
    pub linear_v: Dense,
    pub linear_out: Dense,
    pub linear_pos: Dense,
    pub pos_bias_u: Tensor,
    pub pos_bias_v: Tensor,
    pub n_heads: usize,
    pub d_k: usize,
}

/// The intermediate results of attention.
pub struct RelTrace {
    pub q: Array,
    pub k: Array,
    pub v: Array,
    pub p: Array,
    pub q_heads: Array,
    pub k_heads: Array,
    pub v_heads: Array,
    pub p_heads: Array,
    pub q_content: Array,
    pub k_turned: Array,
    pub content: Array,
    pub q_position: Array,
    pub p_turned: Array,
    pub by_distance: Array,
    pub both: Array,
    pub scores: Array,
    pub soft: Array,
    pub mixed: Array,
    pub ordered: Array,
}

/// Attention, with its intermediate results: the scores of contents and those of distances, over the
/// root of the width, a softmax, times values, brought into order and projected.
pub open spec fn rel_attention_steps(
    a: RelPositionMultiHeadAttention,
    x: Array,
    pos: Array,
    t: RelTrace,
    r: Array,
) -> bool {
    let cut = seq![x.dims[0], x.dims[1], a.n_heads, a.d_k];
    let bias = seq![1usize, a.n_heads, 1, a.d_k];
    &&& dense_result(a.linear_q, x, t.q)
    &&& dense_result(a.linear_k, x, t.k)
    &&& dense_result(a.linear_v, x, t.v)
    &&& dense_result(a.linear_pos, pos, t.p)
    &&& heads_first(under(t.q, cut), t.q_heads)
    &&& heads_first(under(t.k, cut), t.k_heads)
    &&& heads_first(under(t.v, cut), t.v_heads)
    &&& heads_first(under(t.p, seq![1usize, pos.dims[1], a.n_heads, a.d_k]), t.p_heads)
    &&& broadcast_add_result(t.q_heads, under(array(a.pos_bias_u), bias), t.q_content)
    &&& is_permuted(t.k_heads, exchanged(t.k_heads.dims.len(), 2, 3), t.k_turned)
    &&& matmul_result(t.q_content, t.k_turned, t.content)
    &&& broadcast_add_result(t.q_heads, under(array(a.pos_bias_v), bias), t.q_position)
    &&& is_permuted(t.p_heads, exchanged(t.p_heads.dims.len(), 2, 3), t.p_turned)
    &&& matmul_result(t.q_position, t.p_turned, t.by_distance)
    &&& add_result(t.content, rel_shifted(t.by_distance), t.both)
    &&& over_result(t.both, root_of(a.d_k as i64), t.scores)
    &&& softmax_result(t.scores, t.soft)
    &&& matmul_result(t.soft, t.v_heads, t.mixed)
    &&& heads_first(t.mixed, t.ordered)
    &&& dense_result(
        a.linear_out,
        under(t.ordered, seq![x.dims[0], x.dims[1], (a.n_heads * a.d_k) as usize]),
        r,
    )
}

/// `r` is what attention gave for `x` with an embedding of relative positions.
pub open spec fn rel_attention_result(
    a: RelPositionMultiHeadAttention,
    x: Array,
    pos: Array,
    r: Array,
) -> bool {
    exists|t: RelTrace| #[trigger] rel_attention_steps(a, x, pos, t, r)
}

/// The weights of attention are those of their names.
pub open spec fn rel_attention_from(
    d_model: usize,
    n_heads: usize,
    d_k: usize,
    w: WeightStore,
    a: RelPositionMultiHeadAttention,
) -> bool {
    &&& sub_dense_from(w, "linear_q"@, d_model, d_model, false, a.linear_q)
    &&& sub_dense_from(w, "linear_k"@, d_model, d_model, false, a.linear_k)
    &&& sub_dense_from(w, "linear_v"@, d_model, d_model, false, a.linear_v)
    &&& sub_dense_from(w, "linear_out"@, d_model, d_model, false, a.linear_out)
    &&& sub_dense_from(w, "linear_pos"@, d_model, d_model, false, a.linear_pos)
    &&& weight_loaded(w, "pos_bias_u"@, seq![n_heads, d_k], a.pos_bias_u)
    &&& weight_loaded(w, "pos_bias_v"@, seq![n_heads, d_k], a.pos_bias_v)
    &&& a.n_heads == n_heads
    &&& a.d_k == d_k
}

/// Bringing scores by distance to scores by frame is refused where there are not four axes, no
/// distances, or no room for a column of zeros; a step of it can be refused too.
pub open spec fn rel_shift_refused(x: Array) -> bool {
    let b = x.dims[0];
    let h = x.dims[1];
    let t = x.dims[2];
    let p = x.dims[3];
    let column = seq![b, h, t, 1usize];
    let padded = cat_pair(zeros_array(column, x.kind), x, 3);
    let cut = seq![b, h, (p + 1) as usize, t];
    let dropped = narrow_array(under(padded, cut), 2, 1, p as int);
    ||| x.dims.len() != 4
    ||| p == 0
    ||| !allocatable(column)
    ||| countless(column)
    ||| zeros_refused(column, x.kind)
    ||| pair_refused(zeros_array(column, x.kind), x, 3)
    ||| contiguous_refused(padded)
    ||| reshape_refused(padded, cut)
    ||| contiguous_refused(dropped)
    ||| reshape_refused(dropped, seq![b, h, t, p])
}

/// `heads` are what a linear map gave for `x`, cut into heads.
pub open spec fn projected_heads(l: Dense, x: Array, cut: Seq<usize>, heads: Array) -> bool {
    exists|y: Array| #[trigger] dense_result(l, x, y) && heads_first(under(y, cut), heads)
}

/// A linear map or cutting its result into heads can be refused for `x`.
pub open spec fn projection_refused(l: Dense, x: Array, cut: Seq<usize>) -> bool {
    ||| dense_refused(l, x)
    ||| exists|y: Array| #[trigger] dense_result(l, x, y) && reshape_refused(y, cut)
}

/// `r` are the products of keys and queries, a bias added to the latter.
pub open spec fn biased_products(b: Array, q: Array, k: Array, r: Array) -> bool {
    exists|biased: Array, turned: Array|
        {
            &&& #[trigger] broadcast_add_result(q, b, biased)
            &&& #[trigger] is_permuted(k, exchanged(k.dims.len(), 2, 3), turned)
            &&& matmul_result(biased, turned, r)
        }
}

/// A step of multiplying queries with a bias by keys can be refused; `v` is the bias, to be put
/// under the extents of `b`.
pub open spec fn biasing_refused(v: Array, b: Array, q: Array, k: Array) -> bool {
    ||| reshape_refused(v, b.dims)
    ||| broadcast_add_refused(q, b)
    ||| contiguous_refused(k)
    ||| k.dims.len() < 4
    ||| exists|biased: Array| #[trigger]
        broadcast_add_result(q, b, biased) && {
            ||| contiguous_refused(biased)
            ||| exists|turned: Array| #[trigger]
                is_permuted(k, exchanged(k.dims.len(), 2, 3), turned) && matmul_refused(
                    biased,
                    turned,
                )
        }
}

/// A step from both products to the result can be refused.
pub open spec fn combining_refused(
    a: RelPositionMultiHeadAttention,
    wide: Seq<usize>,
    content: Array,
    by_distance: Array,
    v: Array,
) -> bool {
    let root = root_of(a.d_k as i64);
    ||| rel_shift_refused(by_distance)
    ||| add_refused(content, rel_shifted(by_distance))
    ||| exists|both: Array| #[trigger]
        add_result(content, rel_shifted(by_distance), both) && {
            ||| over_refused(both, root)
            ||| exists|scores: Array| #[trigger]
                over_result(both, root, scores) && {
                    ||| softmax_refused(scores)
                    ||| contiguous_refused(v)
                    ||| exists|soft: Array| #[trigger]
                        softmax_result(scores, soft) && {
                            ||| matmul_refused(soft, v)
                            ||| exists|mixed: Array| #[trigger]
                                matmul_result(soft, v, mixed) && leaving_refused(a, wide, mixed)
                        }
                }
        }
}

/// A step from weighed values to the result can be refused.
pub open spec fn leaving_refused(
    a: RelPositionMultiHeadAttention,
    wide: Seq<usize>,
    mixed: Array,
) -> bool {
    ||| mixed.dims.len() < 3
    ||| exists|ordered: Array| #[trigger]
        heads_first(mixed, ordered) && (reshape_refused(ordered, wide) || dense_refused(
            a.linear_out,
            under(ordered, wide),
        ))
}

/// Attention is refused where there are not three axes or no axis of distances; a step of it can be
/// refused too.
pub open spec fn rel_attention_refused(
    a: RelPositionMultiHeadAttention,
    x: Array,
    pos: Array,
) -> bool {
    let cut = seq![x.dims[0], x.dims[1], a.n_heads, a.d_k];
    let pos_cut = seq![1usize, pos.dims[1], a.n_heads, a.d_k];
    let bias = seq![1usize, a.n_heads, 1, a.d_k];
    let wide = seq![x.dims[0], x.dims[1], (a.n_heads * a.d_k) as usize];
    let u = array(a.pos_bias_u);
    let v = array(a.pos_bias_v);
    ||| x.dims.len() != 3
    ||| pos.dims.len() < 2
    ||| projection_refused(a.linear_q, x, cut)
    ||| projection_refused(a.linear_k, x, cut)
    ||| projection_refused(a.linear_v, x, cut)
    ||| projection_refused(a.linear_pos, pos, pos_cut)
    ||| exists|q: Array, k: Array, p: Array, values: Array|
        {
            &&& #[trigger] projected_heads(a.linear_q, x, cut, q)
            &&& #[trigger] projected_heads(a.linear_k, x, cut, k)
            &&& #[trigger] projected_heads(a.linear_pos, pos, pos_cut, p)
            &&& #[trigger] projected_heads(a.linear_v, x, cut, values)
            &&& {
                ||| biasing_refused(u, under(u, bias), q, k)
                ||| biasing_refused(v, under(v, bias), q, p)
                ||| exists|content: Array, by_distance: Array| #[trigger]
                    biased_products(under(u, bias), q, k, content) && #[trigger] biased_products(
                        under(v, bias),
                        q,
                        p,
                        by_distance,
                    ) && combining_refused(a, wide, content, by_distance, values)
            }
        }
}

/// A weight of attention can be refused.
pub open spec fn rel_attention_missing(
    d_model: usize,
    n_heads: usize,
    d_k: usize,
    w: WeightStore,
) -> bool {
    ||| sub_dense_missing(w, "linear_q"@, d_model, d_model, false)
    ||| sub_dense_missing(w, "linear_k"@, d_model, d_model, false)
    ||| sub_dense_missing(w, "linear_v"@, d_model, d_model, false)
    ||| sub_dense_missing(w, "linear_out"@, d_model, d_model, false)
    ||| sub_dense_missing(w, "linear_pos"@, d_model, d_model, false)
    ||| weight_refused(w, "pos_bias_u"@, seq![n_heads, d_k])
    ||| weight_refused(w, "pos_bias_v"@, seq![n_heads, d_k])
}

/// Scores by distance brought to scores by frame.
pub fn rel_shift(x: &Tensor) -> (r: Result<Tensor, Error>)
    ensures
        r is Ok ==> tensor_dims(*x).len() == 4 && tensor_dims(*x)[3] > 0,
        r matches Ok(y) ==> array(y) == rel_shifted(array(*x)),
        r is Err ==> rel_shift_refused(array(*x)),
{
    let d = dims(x);
    if d.len() != 4 {
        return refuse(x);
    }
    let zero_dims = four(d[0], d[1], d[2], 1);
    if !has_room(&zero_dims) {
        return refuse(x);
    }
    let pad = zeros(zero_dims, dtype_of(x), device_of(x))?;
    let padded = cat_two(&pad, x, 3)?;
    let wide: usize = d[3] + 1;
    let cut = reshaped(&contiguous(&padded)?, four(d[0], d[1], wide, d[2]))?;
    let dropped = narrow(&cut, 2, 1, d[3])?;
    let again = reshaped(&contiguous(&dropped)?, four(d[0], d[1], d[2], d[3]))?;
    narrow(&again, 3, 0, d[3] / 2 + 1)
}

fn cut_heads(x: &Tensor, b: usize, s: usize, heads: usize, width: usize) -> (r: Result<
    Tensor,
    Error,
>)
    ensures
        r matches Ok(y) ==> heads_first(under(array(*x), seq![b, s, heads, width]), array(y)),
        r is Err ==> reshape_refused(array(*x), seq![b, s, heads, width]),
{
    let cut = reshaped(x, four(b, s, heads, width))?;
    swap_axes(&cut, 1, 2)
}

impl RelPositionMultiHeadAttention {
    /// The width of all heads can be counted.
    pub open spec fn wf(self) -> bool {
        self.n_heads * self.d_k <= usize::MAX && self.d_k <= i64::MAX
    }

    /// The attention of a store.
    pub fn load(d_model: usize, n_heads: usize, d_k: usize, vb: &WeightStore) -> (r: Result<
        RelPositionMultiHeadAttention,
        Error,
    >)
        requires
            n_heads * d_k <= usize::MAX,
            d_k <= i64::MAX,
        ensures
            r matches Ok(a) ==> a.wf() && rel_attention_from(d_model, n_heads, d_k, *vb, a),
            r is Err ==> rel_attention_missing(d_model, n_heads, d_k, *vb),
    {
        let linear_q = Dense::load_at(vb, "linear_q", d_model, d_model, false)?;
        let linear_k = Dense::load_at(vb, "linear_k", d_model, d_model, false)?;
        let linear_v = Dense::load_at(vb, "linear_v", d_model, d_model, false)?;
        let linear_out = Dense::load_at(vb, "linear_out", d_model, d_model, false)?;
        let linear_pos = Dense::load_at(vb, "linear_pos", d_model, d_model, false)?;
        let pos_bias_u = vb.get(two(n_heads, d_k), "pos_bias_u")?;
        let pos_bias_v = vb.get(two(n_heads, d_k), "pos_bias_v")?;
        Ok(
            RelPositionMultiHeadAttention {
                linear_q,
                linear_k,
                linear_v,
                linear_out,
                linear_pos,
                pos_bias_u,
                pos_bias_v,
                n_heads,
                d_k,
            },
        )
    }

    /// Attention over frames. The axes of `x` are recordings, frames and entries; those of `pos_emb`
    /// are one, distances and entries.
    pub fn forward(&self, x: &Tensor, pos_emb: &Tensor) -> (r: Result<Tensor, Error>)
        requires
            self.wf(),
        ensures
            r is Ok ==> tensor_dims(*x).len() == 3 && tensor_dims(*pos_emb).len() >= 2,
            r matches Ok(y) ==> rel_attention_result(
                *self,
                array(*x),
                array(*pos_emb),
                array(y),
            ),
            r is Err ==> rel_attention_refused(*self, array(*x), array(*pos_emb)),
    {
        let d = dims(x);
        if d.len() != 3 {
            return refuse(x);
        }
        let h: usize = self.n_heads;
        let dk: usize = self.d_k;
        let q = self.linear_q.forward(x)?;
        let k = self.linear_k.forward(x)?;
        let v = self.linear_v.forward(x)?;
        let q_heads = cut_heads(&q, d[0], d[1], h, dk)?;
        let k_heads = cut_heads(&k, d[0], d[1], h, dk)?;
        let v_heads = cut_heads(&v, d[0], d[1], h, dk)?;
        proof {
            let cut = seq![d@[0], d@[1], h, dk];
            assert(projected_heads(self.linear_q, array(*x), cut, array(q_heads)));
            assert(projected_heads(self.linear_k, array(*x), cut, array(k_heads)));
            assert(projected_heads(self.linear_v, array(*x), cut, array(v_heads)));
        }
        let distances = extent(pos_emb, 1)?;
        let p = self.linear_pos.forward(pos_emb)?;
        let p_heads = cut_heads(&p, 1, distances, h, dk)?;
        assert(projected_heads(
            self.linear_pos,
            array(*pos_emb),
            seq![1usize, distances, h, dk],
            array(p_heads),
        ));
        let bias_u = reshaped(&self.pos_bias_u, four(1, h, 1, dk))?;
        let q_content = broadcast_add(&q_heads, &bias_u)?;
        let k_turned = swap_axes(&contiguous(&k_heads)?, 2, 3)?;
        let content = matmul(&contiguous(&q_content)?, &k_turned)?;
        assert(biased_products(array(bias_u), array(q_heads), array(k_heads), array(content)));
        let bias_v = reshaped(&self.pos_bias_v, four(1, h, 1, dk))?;
        let q_position = broadcast_add(&q_heads, &bias_v)?;
        let p_turned = swap_axes(&contiguous(&p_heads)?, 2, 3)?;
        let by_distance = matmul(&contiguous(&q_position)?, &p_turned)?;
        assert(biased_products(array(bias_v), array(q_heads), array(p_heads), array(by_distance)));
        let position = rel_shift(&by_distance)?;
        let both = sum(&content, &position)?;
        let root = square_root(dk as i64)?;
        let scores = over(&both, &root)?;
        let soft = softmax_last(&scores)?;
        let mixed = matmul(&soft, &contiguous(&v_heads)?)?;
        let ordered = swap_axes(&mixed, 1, 2)?;
        assert(heads_first(array(mixed), array(ordered)));
        assert(0 <= self.n_heads * self.d_k) by (nonlinear_arith);
        let flat = reshaped(&ordered, three(d[0], d[1], h * dk))?;
        let r = self.linear_out.forward(&flat)?;
        proof {
            let t = RelTrace {
                q: array(q),
                k: array(k),
                v: array(v),
                p: array(p),
                q_heads: array(q_heads),
                k_heads: array(k_heads),
                v_heads: array(v_heads),
                p_heads: array(p_heads),
                q_content: array(q_content),
                k_turned: array(k_turned),
                content: array(content),
                q_position: array(q_position),
                p_turned: array(p_turned),
                by_distance: array(by_distance),
                both: array(both),
                scores: array(scores),
                soft: array(soft),
                mixed: array(mixed),
                ordered: array(ordered),
            };
            assert(rel_attention_steps(*self, array(*x), array(*pos_emb), t, array(r)));
        }
        Ok(r)
    }
}

// ---------------------------------------------------------------------------
// Feed-forward and convolution
// ---------------------------------------------------------------------------

/// Two linear maps with a sigmoid linear unit between them.
pub struct ConformerFeedForward {
    pub linear1: Dense,
    pub linear2: Dense,
}

/// `r` is what a feed-forward network gave for `x`.
pub open spec fn feed_result(f: ConformerFeedForward, x: Array, r: Array) -> bool {
    exists|a: Array, b: Array|
        dense_result(f.linear1, x, a) && #[trigger] silu_result(a, b) && dense_result(
            f.linear2,
            b,
            r,
        )
}

/// The weights of a feed-forward network are those of their names.
pub open spec fn feed_from(
    d_model: usize,
    d_ff: usize,
    w: WeightStore,
    f: ConformerFeedForward,
) -> bool {
    &&& sub_dense_from(w, "linear1"@, d_model, d_ff, false, f.linear1)
    &&& sub_dense_from(w, "linear2"@, d_ff, d_model, false, f.linear2)
}

/// A step of a feed-forward network can be refused for `x`.
pub open spec fn feed_refused(f: ConformerFeedForward, x: Array) -> bool {
    ||| dense_refused(f.linear1, x)
    ||| exists|a: Array| #[trigger]
        dense_result(f.linear1, x, a) && {
            ||| silu_refused(a)
            ||| exists|b: Array| #[trigger] silu_result(a, b) && dense_refused(f.linear2, b)
        }
}

/// A weight of a feed-forward network can be refused.
pub open spec fn feed_missing(d_model: usize, d_ff: usize, w: WeightStore) -> bool {
    ||| sub_dense_missing(w, "linear1"@, d_model, d_ff, false)
    ||| sub_dense_missing(w, "linear2"@, d_ff, d_model, false)
}

impl ConformerFeedForward {
    /// The network of a store.
    pub fn load(d_model: usize, d_ff: usize, vb: &WeightStore) -> (r: Result<
        ConformerFeedForward,
        Error,
    >)
        ensures
            r matches Ok(f) ==> feed_from(d_model, d_ff, *vb, f),
            r is Err ==> feed_missing(d_model, d_ff, *vb),
    {
        let linear1 = Dense::load_at(vb, "linear1", d_model, d_ff, false)?;
        let linear2 = Dense::load_at(vb, "linear2", d_ff, d_model, false)?;
        Ok(ConformerFeedForward { linear1, linear2 })
    }

    /// Applies the network to the last axis.
    pub fn forward(&self, x: &Tensor) -> (r: Result<Tensor, Error>)
        ensures
            r matches Ok(y) ==> feed_result(*self, array(*x), array(y)),
            r is Err ==> feed_refused(*self, array(*x)),
    {
        let a = self.linear1.forward(x)?;
        let b = silu(&a)?;
        let r = self.linear2.forward(&b)?;
        assert(silu_result(array(a), array(b)));
        Ok(r)
    }
}

/// Normalization of channels by a fixed mean and variance.
pub struct BatchNorm1d {
    pub weight: Tensor,
    pub bias: Tensor,
    pub running_mean: Tensor,
    pub running_var: Tensor,
    /// What is added to the variance.
    pub eps: Scalar,
}

/// One number for each channel, as a tensor that stretches over recordings and time.
pub open spec fn per_channel(a: Array) -> Array {
    under(a, seq![1usize, a.dims[0], 1])
}

/// The intermediate results of normalization.
pub struct BatchTrace {
    pub shifted: Array,
    pub deviation: Array,
    pub centered: Array,
    pub normed: Array,
    pub scaled: Array,
}

/// Normalization, with its intermediate results.
pub open spec fn batch_steps(n: BatchNorm1d, x: Array, t: BatchTrace, r: Array) -> bool {
    &&& plus_result(per_channel(array(n.running_var)), n.eps, t.shifted)
    &&& sqrt_result(t.shifted, t.deviation)
    &&& broadcast_sub_result(x, per_channel(array(n.running_mean)), t.centered)
    &&& broadcast_div_result(t.centered, t.deviation, t.normed)
    &&& broadcast_mul_result(t.normed, per_channel(array(n.weight)), t.scaled)
    &&& broadcast_add_result(t.scaled, per_channel(array(n.bias)), r)
}

/// `r` is what normalization gave for `x`.
pub open spec fn batch_result(n: BatchNorm1d, x: Array, r: Array) -> bool {
    exists|t: BatchTrace| #[trigger] batch_steps(n, x, t, r)
}

/// The tensors of a normalization are those of their names; 1e-5 is added to the variance.
pub open spec fn batch_from(dim: usize, w: WeightStore, n: BatchNorm1d) -> bool {
    &&& weight_loaded(w, "weight"@, seq![dim], n.weight)
    &&& weight_loaded(w, "bias"@, seq![dim], n.bias)
    &&& weight_loaded(w, "running_mean"@, seq![dim], n.running_mean)
    &&& weight_loaded(w, "running_var"@, seq![dim], n.running_var)
    &&& n.eps == quotient_of(1, 100_000)
}

/// There is no axis of channels, or spreading their numbers can be refused.
pub open spec fn spread_refused(a: Array) -> bool {
    a.dims.len() == 0 || reshape_refused(a, per_channel(a).dims)
}

/// A step of normalization can be refused for `x`.
pub open spec fn batch_refused(n: BatchNorm1d, x: Array) -> bool {
    let mean = per_channel(array(n.running_mean));
    let var = per_channel(array(n.running_var));
    ||| spread_refused(array(n.running_mean))
    ||| spread_refused(array(n.running_var))
    ||| spread_refused(array(n.weight))
    ||| spread_refused(array(n.bias))
    ||| plus_refused(var, n.eps)
    ||| broadcast_sub_refused(x, mean)
    ||| exists|shifted: Array| #[trigger]
        plus_result(var, n.eps, shifted) && {
            ||| sqrt_refused(shifted)
            ||| exists|deviation: Array, centered: Array| #[trigger]
                sqrt_result(shifted, deviation) && #[trigger] broadcast_sub_result(
                    x,
                    mean,
                    centered,
                ) && {
                    ||| broadcast_div_refused(centered, deviation)
                    ||| exists|normed: Array| #[trigger]
                        broadcast_div_result(centered, deviation, normed) && weighting_refused(
                            normed,
                            per_channel(array(n.weight)),
                            per_channel(array(n.bias)),
                        )
                }
        }
}

/// A tensor of a normalization can be refused.
pub open spec fn batch_missing(dim: usize, w: WeightStore) -> bool {
    ||| weight_refused(w, "weight"@, seq![dim])
    ||| weight_refused(w, "bias"@, seq![dim])
    ||| weight_refused(w, "running_mean"@, seq![dim])
    ||| weight_refused(w, "running_var"@, seq![dim])
}

fn spread(t: &Tensor) -> (r: Result<Tensor, Error>)
    ensures
        r matches Ok(y) ==> array(y) == per_channel(array(*t)),
        r is Err ==> spread_refused(array(*t)),
{
    let n = extent(t, 0)?;
    reshaped(t, three(1, n, 1))
}

impl BatchNorm1d {
    /// The normalization of a store.
    pub fn load(dim: usize, vb: &WeightStore) -> (r: Result<BatchNorm1d, Error>)
        ensures
            r matches Ok(n) ==> batch_from(dim, *vb, n),
            r is Err ==> batch_missing(dim, *vb),
    {
        let weight = vb.get(one(dim), "weight")?;
        let bias = vb.get(one(dim), "bias")?;
        let running_mean = vb.get(one(dim), "running_mean")?;
        let running_var = vb.get(one(dim), "running_var")?;
        let eps = quotient(1, 100_000)?;
        Ok(BatchNorm1d { weight, bias, running_mean, running_var, eps })
    }

    /// Normalizes channels. The axes are recordings, channels and time.
    pub fn forward(&self, x: &Tensor) -> (r: Result<Tensor, Error>)
        ensures
            r matches Ok(y) ==> batch_result(*self, array(*x), array(y)),
            r is Err ==> batch_refused(*self, array(*x)),
    {
        let mean = spread(&self.running_mean)?;
        let var = spread(&self.running_var)?;
        let w = spread(&self.weight)?;
        let b = spread(&self.bias)?;
        let shifted = plus(&var, &self.eps)?;
        let deviation = sqrt(&shifted)?;
        let centered = broadcast_sub(x, &mean)?;
        let normed = broadcast_div(&centered, &deviation)?;
        let scaled = broadcast_mul(&normed, &w)?;
        let r = broadcast_add(&scaled, &b)?;
        proof {
            let t = BatchTrace {
                shifted: array(shifted),
                deviation: array(deviation),
                centered: array(centered),
                normed: array(normed),
                scaled: array(scaled),
            };
            assert(batch_steps(*self, array(*x), t, array(r)));
        }
        Ok(r)
    }
}

/// A convolution over time: across channels, gated; for each channel; and across channels again.
pub struct ConformerConvolution {
    pub pointwise_conv1_w: Tensor,
    pub depthwise_conv_w: Tensor,
    pub batch_norm: BatchNorm1d,
    pub pointwise_conv2_w: Tensor,
    pub d_model: usize,
    pub kernel_size: usize,
}

/// The intermediate results of a convolution.
pub struct ConvTrace {
    pub turned: Array,
    pub wide: Array,
    pub gate: Array,
    pub gated: Array,
    pub deep: Array,
    pub normed: Array,
    pub on: Array,
    pub mixed: Array,
}

/// A convolution, with its intermediate results.
pub open spec fn conv_steps(c: ConformerConvolution, x: Array, t: ConvTrace, r: Array) -> bool {
    let half = c.d_model as int;
    let across = Sliding { padding: 0, stride: 1, groups: 1 };
    let each = Sliding { padding: c.kernel_size / 2, stride: 1, groups: c.d_model };
    &&& is_permuted(x, exchanged(x.dims.len(), 1, 2), t.turned)
    &&& conv1d_result(t.turned, array(c.pointwise_conv1_w), across, t.wide)
    &&& t.wide.dims.len() >= 2 && 2 * half <= t.wide.dims[1]
    &&& sigmoid_result(narrow_array(t.wide, 1, half, half), t.gate)
    &&& mul_result(narrow_array(t.wide, 1, 0, half), t.gate, t.gated)
    &&& conv1d_result(t.gated, array(c.depthwise_conv_w), each, t.deep)
    &&& batch_result(c.batch_norm, t.deep, t.normed)
    &&& silu_result(t.normed, t.on)
    &&& conv1d_result(t.on, array(c.pointwise_conv2_w), across, t.mixed)
    &&& is_permuted(t.mixed, exchanged(t.mixed.dims.len(), 1, 2), r)
}

/// `r` is what a convolution gave for `x`.
pub open spec fn conv_result(c: ConformerConvolution, x: Array, r: Array) -> bool {
    exists|t: ConvTrace| #[trigger] conv_steps(c, x, t, r)
}

/// A convolution is refused where there are not as many axes or channels; a step of it can be
/// refused too.
pub open spec fn conv_refused(c: ConformerConvolution, x: Array) -> bool {
    let across = Sliding { padding: 0, stride: 1, groups: 1 };
    ||| x.dims.len() < 3
    ||| exists|turned: Array| #[trigger]
        is_permuted(x, exchanged(x.dims.len(), 1, 2), turned) && {
            ||| conv1d_refused(turned, array(c.pointwise_conv1_w), across)
            ||| exists|wide: Array| #[trigger]
                conv1d_result(turned, array(c.pointwise_conv1_w), across, wide) && {
                    ||| gating_refused(c, wide)
                    ||| exists|gated: Array| #[trigger]
                        gated_by(c, wide, gated) && deepening_refused(c, gated)
                }
        }
}

/// There are not as many channels for both halves, or a step of gating can be refused.
pub open spec fn gating_refused(c: ConformerConvolution, wide: Array) -> bool {
    let half = c.d_model as int;
    let b = narrow_array(wide, 1, half, half);
    ||| wide.dims.len() < 2
    ||| 2 * half > wide.dims[1]
    ||| sigmoid_refused(b)
    ||| exists|gate: Array| #[trigger]
        sigmoid_result(b, gate) && mul_refused(narrow_array(wide, 1, 0, half), gate)
}

/// `gated` is the first half of the channels times the logistic function of the second.
pub open spec fn gated_by(c: ConformerConvolution, wide: Array, gated: Array) -> bool {
    let half = c.d_model as int;
    exists|gate: Array| #[trigger]
        sigmoid_result(narrow_array(wide, 1, half, half), gate) && mul_result(
            narrow_array(wide, 1, 0, half),
            gate,
            gated,
        )
}

/// A step from gated channels to the result can be refused.
pub open spec fn deepening_refused(c: ConformerConvolution, gated: Array) -> bool {
    let across = Sliding { padding: 0, stride: 1, groups: 1 };
    let each = Sliding { padding: c.kernel_size / 2, stride: 1, groups: c.d_model };
    ||| conv1d_refused(gated, array(c.depthwise_conv_w), each)
    ||| exists|deep: Array| #[trigger]
        conv1d_result(gated, array(c.depthwise_conv_w), each, deep) && {
            ||| batch_refused(c.batch_norm, deep)
            ||| exists|normed: Array| #[trigger]
                batch_result(c.batch_norm, deep, normed) && {
                    ||| silu_refused(normed)
                    ||| exists|on: Array| #[trigger]
                        silu_result(normed, on) && {
                            ||| conv1d_refused(on, array(c.pointwise_conv2_w), across)
                            ||| exists|mixed: Array| #[trigger]
                                conv1d_result(on, array(c.pointwise_conv2_w), across, mixed)
                                    && mixed.dims.len() < 3
                        }
                }
        }
}

/// A weight of a convolution can be refused.
pub open spec fn conv_missing(d_model: usize, kernel_size: usize, w: WeightStore) -> bool {
    ||| weight_refused(
        w,
        "pointwise_conv1.weight"@,
        seq![(2 * d_model) as usize, d_model, 1usize],
    )
    ||| weight_refused(w, "depthwise_conv.weight"@, seq![d_model, 1usize, kernel_size])
    ||| exists|s: WeightStore| #[trigger] narrowed(w, "batch_norm"@, s) && batch_missing(d_model, s)
    ||| weight_refused(w, "pointwise_conv2.weight"@, seq![d_model, d_model, 1usize])
}

/// The weights of a convolution are those of their names.
pub open spec fn conv_from(
    d_model: usize,
    kernel_size: usize,
    w: WeightStore,
    c: ConformerConvolution,
) -> bool {
    &&& weight_loaded(
        w,
        "pointwise_conv1.weight"@,
        seq![(2 * d_model) as usize, d_model, 1usize],
        c.pointwise_conv1_w,
    )
    &&& weight_loaded(
        w,
        "depthwise_conv.weight"@,
        seq![d_model, 1usize, kernel_size],
        c.depthwise_conv_w,
    )
    &&& exists|s: WeightStore| #[trigger]
        narrowed(w, "batch_norm"@, s) && batch_from(d_model, s, c.batch_norm)
    &&& weight_loaded(
        w,
        "pointwise_conv2.weight"@,
        seq![d_model, d_model, 1usize],
        c.pointwise_conv2_w,
    )
    &&& c.d_model == d_model
    &&& c.kernel_size == kernel_size
}

impl ConformerConvolution {
    /// The convolution of a store.
    pub fn load(d_model: usize, kernel_size: usize, vb: &WeightStore) -> (r: Result<
        ConformerConvolution,
        Error,
    >)
        requires
            2 * d_model <= usize::MAX,
        ensures
            r matches Ok(c) ==> conv_from(d_model, kernel_size, *vb, c),
            r is Err ==> conv_missing(d_model, kernel_size, *vb),
    {
        let pointwise_conv1_w = vb.get(
            three(2 * d_model, d_model, 1),
            "pointwise_conv1.weight",
        )?;
        let depthwise_conv_w = vb.get(
            three(d_model, 1, kernel_size),
            "depthwise_conv.weight",
        )?;
        let norm_vb = vb.pp("batch_norm");
        assert(narrowed(*vb, "batch_norm"@, norm_vb));
        let batch_norm = BatchNorm1d::load(d_model, &norm_vb)?;
        let pointwise_conv2_w = vb.get(three(d_model, d_model, 1), "pointwise_conv2.weight")?;
        Ok(
            ConformerConvolution {
                pointwise_conv1_w,
                depthwise_conv_w,
                batch_norm,
                pointwise_conv2_w,
                d_model,
                kernel_size,
            },
        )
    }

    /// Applies the convolution. The axes are recordings, frames and entries.
    pub fn forward(&self, x: &Tensor) -> (r: Result<Tensor, Error>)
        ensures
            r matches Ok(y) ==> conv_result(*self, array(*x), array(y)),
            r is Err ==> conv_refused(*self, array(*x)),
    {
        let half: usize = self.d_model;
        let turned = swap_axes(x, 1, 2)?;
        let across = Sliding { padding: 0, stride: 1, groups: 1 };
        let wide = conv1d(&turned, &self.pointwise_conv1_w, &across)?;
        let a = narrow(&wide, 1, 0, half)?;
        let b = narrow(&wide, 1, half, half)?;
        let gate = sigmoid(&b)?;
        let gated = product(&a, &gate)?;
        assert(gated_by(*self, array(wide), array(gated)));
        let each = Sliding { padding: self.kernel_size / 2, stride: 1, groups: self.d_model };
        let deep = conv1d(&gated, &self.depthwise_conv_w, &each)?;
        let normed = self.batch_norm.forward(&deep)?;
        let on = silu(&normed)?;
        let mixed = conv1d(&on, &self.pointwise_conv2_w, &across)?;
        let r = swap_axes(&mixed, 1, 2)?;
        proof {
            let t = ConvTrace {
                turned: array(turned),
                wide: array(wide),
                gate: array(gate),
                gated: array(gated),
                deep: array(deep),
                normed: array(normed),
                on: array(on),
                mixed: array(mixed),
            };
            assert(conv_steps(*self, array(*x), t, array(r)));
        }
        Ok(r)
    }
}

// ---------------------------------------------------------------------------
// The layer and the encoder as a whole
// ---------------------------------------------------------------------------

/// A layer of the encoder.
pub struct ConformerLayer {
    pub norm_ff1: LayerNorm,
    pub ff1: ConformerFeedForward,
    pub norm_attn: LayerNorm,
    pub self_attn: RelPositionMultiHeadAttention,
    pub norm_conv: LayerNorm,
    pub conv: ConformerConvolution,
    pub norm_ff2: LayerNorm,
    pub ff2: ConformerFeedForward,
    pub norm_out: LayerNorm,
}

/// `r` is `x` and half of what a feed-forward network gave for `x`, normalized.
pub open spec fn half_feed(n: LayerNorm, f: ConformerFeedForward, x: Array, r: Array) -> bool {
    exists|a: Array, b: Array, c: Array|
        plain_norm_result(n, x, a) && #[trigger] feed_result(f, a, b) && #[trigger] half_of(b, c)
            && add_result(x, c, r)
}

/// `c` is half of `b`.
pub open spec fn half_of(b: Array, c: Array) -> bool {
    times_result(b, quotient_of(1, 2), c)
}

/// A step of adding half of what a feed-forward network gives can be refused for `x`.
pub open spec fn half_feed_refused(n: LayerNorm, f: ConformerFeedForward, x: Array) -> bool {
    let half = quotient_of(1, 2);
    ||| plain_norm_refused(n, x)
    ||| exists|a: Array| #[trigger]
        plain_norm_result(n, x, a) && {
            ||| feed_refused(f, a)
            ||| exists|b: Array| #[trigger]
                feed_result(f, a, b) && {
                    ||| times_refused(b, half)
                    ||| exists|c: Array| #[trigger] times_result(b, half, c) && add_refused(x, c)
                }
        }
}

fn add_half_feed(n: &LayerNorm, f: &ConformerFeedForward, x: &Tensor) -> (r: Result<Tensor, Error>)
    ensures
        r matches Ok(y) ==> half_feed(*n, *f, array(*x), array(y)),
        r is Err ==> half_feed_refused(*n, *f, array(*x)),
{
    let a = n.forward_plain(x)?;
    let b = f.forward(&a)?;
    let half = quotient(1, 2)?;
    let c = times(&b, &half)?;
    let r = sum(x, &c)?;
    assert(half_of(array(b), array(c)));
    Ok(r)
}

/// The intermediate results of a layer.
pub struct ConformerTrace {
    pub fed: Array,
    pub normed: Array,
    pub attended: Array,
    pub middle: Array,
    pub normed_again: Array,
    pub convolved: Array,
    pub joined: Array,
    pub fed_again: Array,
}

/// A layer, with its intermediate results.
pub open spec fn conformer_steps(
    l: ConformerLayer,
    x: Array,
    pos: Array,
    t: ConformerTrace,
    r: Array,
) -> bool {
    &&& half_feed(l.norm_ff1, l.ff1, x, t.fed)
    &&& plain_norm_result(l.norm_attn, t.fed, t.normed)
    &&& rel_attention_result(l.self_attn, t.normed, pos, t.attended)
    &&& add_result(t.fed, t.attended, t.middle)
    &&& plain_norm_result(l.norm_conv, t.middle, t.normed_again)
    &&& conv_result(l.conv, t.normed_again, t.convolved)
    &&& add_result(t.middle, t.convolved, t.joined)
    &&& half_feed(l.norm_ff2, l.ff2, t.joined, t.fed_again)
    &&& plain_norm_result(l.norm_out, t.fed_again, r)
}

/// `r` is what a layer gave for `x`.
pub open spec fn conformer_result(l: ConformerLayer, x: Array, pos: Array, r: Array) -> bool {
    exists|t: ConformerTrace| #[trigger] conformer_steps(l, x, pos, t, r)
}

/// A step of a layer can be refused for `x`.
pub open spec fn conformer_refused(l: ConformerLayer, x: Array, pos: Array) -> bool {
    ||| half_feed_refused(l.norm_ff1, l.ff1, x)
    ||| exists|fed: Array| #[trigger]
        half_feed(l.norm_ff1, l.ff1, x, fed) && {
            ||| plain_norm_refused(l.norm_attn, fed)
            ||| exists|normed: Array| #[trigger]
                plain_norm_result(l.norm_attn, fed, normed) && {
                    ||| rel_attention_refused(l.self_attn, normed, pos)
                    ||| exists|attended: Array| #[trigger]
                        rel_attention_result(l.self_attn, normed, pos, attended) && {
                            ||| add_refused(fed, attended)
                            ||| exists|middle: Array| #[trigger]
                                add_result(fed, attended, middle) && second_half_refused(l, middle)
                        }
                }
        }
}

/// A step of the second half of a layer, from its convolution on, can be refused.
pub open spec fn second_half_refused(l: ConformerLayer, middle: Array) -> bool {
    ||| plain_norm_refused(l.norm_conv, middle)
    ||| exists|normed: Array| #[trigger]
        plain_norm_result(l.norm_conv, middle, normed) && {
            ||| conv_refused(l.conv, normed)
            ||| exists|convolved: Array| #[trigger]
                conv_result(l.conv, normed, convolved) && {
                    ||| add_refused(middle, convolved)
                    ||| exists|joined: Array| #[trigger]
                        add_result(middle, convolved, joined) && {
                            ||| half_feed_refused(l.norm_ff2, l.ff2, joined)
                            ||| exists|fed: Array| #[trigger]
                                half_feed(l.norm_ff2, l.ff2, joined, fed) && plain_norm_refused(
                                    l.norm_out,
                                    fed,
                                )
                        }
                }
        }
}

/// A weight of a layer can be refused.
pub open spec fn conformer_missing(c: EncoderConfig, w: WeightStore) -> bool {
    let d = c.d_model;
    ||| sub_norm_missing(w, "norm_feed_forward1"@, d)
    ||| exists|s: WeightStore| #[trigger]
        narrowed(w, "feed_forward1"@, s) && feed_missing(d, c.d_ff, s)
    ||| sub_norm_missing(w, "norm_self_att"@, d)
    ||| exists|s: WeightStore| #[trigger]
        narrowed(w, "self_attn"@, s) && rel_attention_missing(d, c.n_heads, c.d_k, s)
    ||| sub_norm_missing(w, "norm_conv"@, d)
    ||| exists|s: WeightStore| #[trigger]
        narrowed(w, "conv"@, s) && conv_missing(d, c.conv_kernel_size, s)
    ||| sub_norm_missing(w, "norm_feed_forward2"@, d)
    ||| exists|s: WeightStore| #[trigger]
        narrowed(w, "feed_forward2"@, s) && feed_missing(d, c.d_ff, s)
    ||| sub_norm_missing(w, "norm_out"@, d)
}

/// The weights of a layer are those of their names.
pub open spec fn conformer_from(c: EncoderConfig, w: WeightStore, l: ConformerLayer) -> bool {
    let d = c.d_model;
    let eps = quotient_of(1, 100_000);
    &&& sub_norm_from(w, "norm_feed_forward1"@, d, eps, l.norm_ff1)
    &&& exists|s: WeightStore| #[trigger]
        narrowed(w, "feed_forward1"@, s) && feed_from(d, c.d_ff, s, l.ff1)
    &&& sub_norm_from(w, "norm_self_att"@, d, eps, l.norm_attn)
    &&& exists|s: WeightStore| #[trigger]
        narrowed(w, "self_attn"@, s) && rel_attention_from(d, c.n_heads, c.d_k, s, l.self_attn)
    &&& sub_norm_from(w, "norm_conv"@, d, eps, l.norm_conv)
    &&& exists|s: WeightStore| #[trigger]
        narrowed(w, "conv"@, s) && conv_from(d, c.conv_kernel_size, s, l.conv)
    &&& sub_norm_from(w, "norm_feed_forward2"@, d, eps, l.norm_ff2)
    &&& exists|s: WeightStore| #[trigger]
        narrowed(w, "feed_forward2"@, s) && feed_from(d, c.d_ff, s, l.ff2)
    &&& sub_norm_from(w, "norm_out"@, d, eps, l.norm_out)
}

impl ConformerLayer {
    /// The layer of a store.
    pub fn load(config: &EncoderConfig, vb: &WeightStore) -> (r: Result<ConformerLayer, Error>)
        requires
            config.wf(),
        ensures
            r matches Ok(l) ==> l.self_attn.wf() && conformer_from(*config, *vb, l),
            r is Err ==> conformer_missing(*config, *vb),
    {
        let d: usize = config.d_model;
        let eps = quotient(1, 100_000)?;
        let norm_ff1 = LayerNorm::load_at(vb, "norm_feed_forward1", d, eps)?;
        let ff1_vb = vb.pp("feed_forward1");
        assert(narrowed(*vb, "feed_forward1"@, ff1_vb));
        let ff1 = ConformerFeedForward::load(d, config.d_ff, &ff1_vb)?;
        let norm_attn = LayerNorm::load_at(vb, "norm_self_att", d, eps)?;
        let attn_vb = vb.pp("self_attn");
        assert(narrowed(*vb, "self_attn"@, attn_vb));
        let self_attn = RelPositionMultiHeadAttention::load(
            d,
            config.n_heads,
            config.d_k,
            &attn_vb,
        )?;
        let norm_conv = LayerNorm::load_at(vb, "norm_conv", d, eps)?;
        let conv_vb = vb.pp("conv");
        assert(narrowed(*vb, "conv"@, conv_vb));
        let conv = ConformerConvolution::load(d, config.conv_kernel_size, &conv_vb)?;
        let norm_ff2 = LayerNorm::load_at(vb, "norm_feed_forward2", d, eps)?;
        let ff2_vb = vb.pp("feed_forward2");
        assert(narrowed(*vb, "feed_forward2"@, ff2_vb));
        let ff2 = ConformerFeedForward::load(d, config.d_ff, &ff2_vb)?;
        let norm_out = LayerNorm::load_at(vb, "norm_out", d, eps)?;
        Ok(
            ConformerLayer {
                norm_ff1,
                ff1,
                norm_attn,
                self_attn,
                norm_conv,
                conv,
                norm_ff2,
                ff2,
                norm_out,
            },
        )
    }

    /// The layer over frames, with an embedding of relative positions.
    pub fn forward(&self, x: &Tensor, pos_emb: &Tensor) -> (r: Result<Tensor, Error>)
        requires
            self.self_attn.wf(),
        ensures
            r matches Ok(y) ==> conformer_result(*self, array(*x), array(*pos_emb), array(y)),
            r is Err ==> conformer_refused(*self, array(*x), array(*pos_emb)),
    {
        let fed = add_half_feed(&self.norm_ff1, &self.ff1, x)?;
        let normed = self.norm_attn.forward_plain(&fed)?;
        let attended = self.self_attn.forward(&normed, pos_emb)?;
        let middle = sum(&fed, &attended)?;
        let normed_again = self.norm_conv.forward_plain(&middle)?;
        let convolved = self.conv.forward(&normed_again)?;
        let joined = sum(&middle, &convolved)?;
        let fed_again = add_half_feed(&self.norm_ff2, &self.ff2, &joined)?;
        let r = self.norm_out.forward_plain(&fed_again)?;
        proof {
            let t = ConformerTrace {
                fed: array(fed),
                normed: array(normed),
                attended: array(attended),
                middle: array(middle),
                normed_again: array(normed_again),
                convolved: array(convolved),
                joined: array(joined),
                fed_again: array(fed_again),
            };
            assert(conformer_steps(*self, array(*x), array(*pos_emb), t, array(r)));
        }
        Ok(r)
    }
}

/// `y` is `x` and what a block gave for `x`, normalized: the block is added to its own input.
pub open spec fn added_to_its_input(
    n: LayerNorm,
    block: spec_fn(Array, Array) -> bool,
    x: Array,
    y: Array,
) -> bool {
    exists|a: Array, b: Array|
        #![trigger plain_norm_result(n, x, a), add_result(x, b, y)]
        plain_norm_result(n, x, a) && block(a, b) && add_result(x, b, y)
}

/// Half of what a feed-forward network gives.
pub open spec fn half_block(f: ConformerFeedForward) -> spec_fn(Array, Array) -> bool {
    |a: Array, c: Array|
        exists|b: Array| #[trigger] feed_result(f, a, b) && times_result(b, quotient_of(1, 2), c)
}

/// What attention gives.
pub open spec fn attention_block(a: RelPositionMultiHeadAttention, pos: Array) -> spec_fn(
    Array,
    Array,
) -> bool {
    |x: Array, y: Array| rel_attention_result(a, x, pos, y)
}

/// What a convolution gives.
pub open spec fn convolution_block(c: ConformerConvolution) -> spec_fn(Array, Array) -> bool {
    |x: Array, y: Array| conv_result(c, x, y)
}

/// A layer adds four blocks to its input, one after another: half a feed-forward network, attention, a
/// convolution and half of another feed-forward network. Each one gets the normalized form of what it is
/// added to, each has a normalization of its own, and a last one stands at the end.
pub proof fn law_blocks_are_added_to_their_inputs(
    l: ConformerLayer,
    x: Array,
    pos: Array,
    r: Array,
)
    requires
        conformer_result(l, x, pos, r),
    ensures
        exists|a: Array, b: Array, c: Array, d: Array|
            {
                &&& #[trigger] added_to_its_input(l.norm_ff1, half_block(l.ff1), x, a)
                &&& #[trigger] added_to_its_input(
                    l.norm_attn,
                    attention_block(l.self_attn, pos),
                    a,
                    b,
                )
                &&& #[trigger] added_to_its_input(l.norm_conv, convolution_block(l.conv), b, c)
                &&& #[trigger] added_to_its_input(l.norm_ff2, half_block(l.ff2), c, d)
                &&& plain_norm_result(l.norm_out, d, r)
            },
{
    let t = choose|t: ConformerTrace| #[trigger] conformer_steps(l, x, pos, t, r);
    lemma_half_block(l.norm_ff1, l.ff1, x, t.fed);
    lemma_half_block(l.norm_ff2, l.ff2, t.joined, t.fed_again);
    assert((attention_block(l.self_attn, pos))(t.normed, t.attended));
    assert((convolution_block(l.conv))(t.normed_again, t.convolved));
    assert(added_to_its_input(l.norm_attn, attention_block(l.self_attn, pos), t.fed, t.middle));
    assert(added_to_its_input(l.norm_conv, convolution_block(l.conv), t.middle, t.joined));
}

proof fn lemma_half_block(n: LayerNorm, f: ConformerFeedForward, x: Array, y: Array)
    requires
        half_feed(n, f, x, y),
    ensures
        added_to_its_input(n, half_block(f), x, y),
{
    let (a, b, c) = choose|a: Array, b: Array, c: Array|
        plain_norm_result(n, x, a) && #[trigger] feed_result(f, a, b) && #[trigger] half_of(b, c)
            && add_result(x, c, y);
    assert((half_block(f))(a, c));
}

proof fn lemma_zeros_added(
    n: LayerNorm,
    block: spec_fn(Array, Array) -> bool,
    x: Array,
    y: Array,
)
    requires
        added_to_its_input(n, block, x, y),
        gives_zeros(block),
        all_ordinary(x),
        x.elems.len() == volume(x.dims),
    ensures
        same_numbers(x, y),
        all_ordinary(y),
        y.elems.len() == volume(y.dims),
{
    let (a, b) = choose|a: Array, b: Array|
        #![trigger plain_norm_result(n, x, a), add_result(x, b, y)]
        plain_norm_result(n, x, a) && block(a, b) && add_result(x, b, y);
    assert forall|i: int| 0 <= i < x.elems.len() implies same_number(
        x.kind,
        #[trigger] y.elems[i],
        x.elems[i],
    ) by {
        assert(is_zero(b.kind, b.elems[i]));
        assert(ordinary(x.kind, x.elems[i]));
    }
}

/// A layer whose four blocks give zeros is its last normalization: what entered it goes on unchanged, number
/// by number, past every block.
pub proof fn law_silent_blocks_leave_the_frames(
    l: ConformerLayer,
    x: Array,
    pos: Array,
    r: Array,
)
    requires
        conformer_result(l, x, pos, r),
        all_ordinary(x),
        x.elems.len() == volume(x.dims),
        gives_zeros(half_block(l.ff1)),
        gives_zeros(attention_block(l.self_attn, pos)),
        gives_zeros(convolution_block(l.conv)),
        gives_zeros(half_block(l.ff2)),
    ensures
        exists|y: Array| same_numbers(x, y) && #[trigger] plain_norm_result(l.norm_out, y, r),
{
    law_blocks_are_added_to_their_inputs(l, x, pos, r);
    let (a, b, c, d) = choose|a: Array, b: Array, c: Array, d: Array|
        {
            &&& #[trigger] added_to_its_input(l.norm_ff1, half_block(l.ff1), x, a)
            &&& #[trigger] added_to_its_input(
                l.norm_attn,
                attention_block(l.self_attn, pos),
                a,
                b,
            )
            &&& #[trigger] added_to_its_input(l.norm_conv, convolution_block(l.conv), b, c)
            &&& #[trigger] added_to_its_input(l.norm_ff2, half_block(l.ff2), c, d)
            &&& plain_norm_result(l.norm_out, d, r)
        };
    lemma_zeros_added(l.norm_ff1, half_block(l.ff1), x, a);
    lemma_zeros_added(l.norm_attn, attention_block(l.self_attn, pos), a, b);
    lemma_zeros_added(l.norm_conv, convolution_block(l.conv), b, c);
    lemma_zeros_added(l.norm_ff2, half_block(l.ff2), c, d);
    assert forall|i: int| 0 <= i < x.elems.len() implies same_number(
        x.kind,
        #[trigger] d.elems[i],
        x.elems[i],
    ) by {
        assert(same_number(x.kind, a.elems[i], x.elems[i]));
        assert(same_number(x.kind, b.elems[i], a.elems[i]));
        assert(same_number(x.kind, c.elems[i], b.elems[i]));
        assert(same_number(x.kind, d.elems[i], c.elems[i]));
    }
}

/// The encoder.
pub struct FastConformerEncoder {
    pub subsampling: DwStridingSubsampling,
    pub pos_enc: RelPositionalEncoding,
    pub layers: Vec<ConformerLayer>,
}

/// The prefix of a layer.
pub open spec fn layer_part(i: nat) -> Seq<char> {
    "layers."@ + decimal_digits(i)
}

/// The weights of the encoder are those of their names.
pub open spec fn encoder_from(c: EncoderConfig, w: WeightStore, e: FastConformerEncoder) -> bool {
    &&& exists|s: WeightStore| #[trigger]
        narrowed(w, "pre_encode"@, s) && subsampling_from(c, s, e.subsampling)
    &&& e.pos_enc.d_model == c.d_model
    &&& e.layers@.len() == c.n_layers
    &&& forall|i: int|
        0 <= i < e.layers@.len() ==> sub_conformer_from(
            c,
            w,
            i as nat,
            #[trigger] e.layers@[i],
        )
}

/// A layer under its own prefix.
pub open spec fn sub_conformer_from(
    c: EncoderConfig,
    w: WeightStore,
    i: nat,
    l: ConformerLayer,
) -> bool {
    exists|s: WeightStore| #[trigger] narrowed(w, layer_part(i), s) && conformer_from(c, s, l)
}

/// A weight of a layer under its own prefix can be refused.
pub open spec fn sub_conformer_missing(c: EncoderConfig, w: WeightStore, i: nat) -> bool {
    exists|s: WeightStore| #[trigger] narrowed(w, layer_part(i), s) && conformer_missing(c, s)
}

/// A weight of the encoder can be refused.
pub open spec fn encoder_missing(c: EncoderConfig, w: WeightStore) -> bool {
    ||| exists|s: WeightStore| #[trigger]
        narrowed(w, "pre_encode"@, s) && subsampling_missing(c, s)
    ||| exists|i: nat| i < c.n_layers && #[trigger] sub_conformer_missing(c, w, i)
}

/// Subsampling a spectrogram is refused where there are not three axes; a step of it can be refused
/// too.
pub open spec fn picture_refused(s: DwStridingSubsampling, mel: Array) -> bool {
    ||| mel.dims.len() < 3
    ||| exists|turned: Array| #[trigger]
        is_permuted(mel, exchanged(mel.dims.len(), 1, 2), turned) && subsample_refused(
            s,
            with_axis(turned, 1),
        )
}

/// The layers before the last entry of `chain` gave its entries, and the next one can refuse a
/// step.
pub open spec fn chain_stops(e: FastConformerEncoder, pos: Array, chain: Seq<Array>) -> bool {
    &&& 1 <= chain.len() <= e.layers@.len()
    &&& forall|i: int|
        0 <= i < chain.len() - 1 ==> conformer_result(
            #[trigger] e.layers@[i],
            chain[i],
            pos,
            chain[i + 1],
        )
    &&& conformer_refused(e.layers@[chain.len() - 1], chain.last(), pos)
}

/// A layer can refuse a step on the way from `x`.
pub open spec fn encode_refused(e: FastConformerEncoder, x: Array, pos: Array) -> bool {
    exists|chain: Seq<Array>| #[trigger] chain_stops(e, pos, chain) && chain[0] == x
}

/// The results of the layers one after another, from what entered the first one.
pub open spec fn layer_chain(e: FastConformerEncoder, pos: Array, chain: Seq<Array>) -> bool {
    &&& chain.len() == e.layers@.len() + 1
    &&& forall|i: int|
        0 <= i < e.layers@.len() ==> conformer_result(
            #[trigger] e.layers@[i],
            chain[i],
            pos,
            chain[i + 1],
        )
}

impl FastConformerEncoder {
    /// All parts are well formed.
    pub open spec fn wf(self) -> bool {
        &&& self.subsampling.wf()
        &&& forall|i: int|
            0 <= i < self.layers@.len() ==> (#[trigger] self.layers@[i]).self_attn.wf()
    }

    /// The encoder of a store.
    pub fn load(config: &EncoderConfig, vb: &WeightStore) -> (r: Result<
        FastConformerEncoder,
        Error,
    >)
        requires
            config.wf(),
        ensures
            r matches Ok(e) ==> e.wf() && encoder_from(*config, *vb, e),
            r matches Ok(e) ==> tensor_dims(e.subsampling.out.weight)[0] == config.d_model,
            r is Err ==> encoder_missing(*config, *vb),
    {
        let sub_vb = vb.pp("pre_encode");
        assert(narrowed(*vb, "pre_encode"@, sub_vb));
        let subsampling = DwStridingSubsampling::load(config, &sub_vb)?;
        let pos_enc = RelPositionalEncoding::new(config.d_model);
        let mut layers: Vec<ConformerLayer> = Vec::new();
        let mut i: usize = 0;
        while i < config.n_layers
            invariant
                i <= config.n_layers,
                config.wf(),
                layers@.len() == i,
                forall|j: int|
                    0 <= j < i ==> (#[trigger] layers@[j]).self_attn.wf() && sub_conformer_from(
                        *config,
                        *vb,
                        j as nat,
                        layers@[j],
                    ),
            decreases config.n_layers - i,
        {
            let mut part: String = String::new();
            part.push_str("layers.");
            part.push_str(decimal(i as u64).as_str());
            assert(part@ =~= layer_part(i as nat));
            let layer_vb = vb.pp(part.as_str());
            assert(narrowed(*vb, layer_part(i as nat), layer_vb));
            let layer = match ConformerLayer::load(config, &layer_vb) {
                Ok(l) => l,
                Err(e) => {
                    assert(sub_conformer_missing(*config, *vb, i as nat));
                    return Err(e);
                },
            };
            assert(sub_conformer_from(*config, *vb, i as nat, layer));
            layers.push(layer);
            i += 1;
        }
        Ok(FastConformerEncoder { subsampling, pos_enc, layers })
    }

    /// From a spectrogram by recording, mel bins and time to entries by recording and an eighth of the
    /// time.
    pub fn subsample(&self, mel: &Tensor) -> (r: Result<Tensor, Error>)
        requires
            self.wf(),
        ensures
            r matches Ok(y) ==> exists|turned: Array| #[trigger]
                is_permuted(array(*mel), exchanged(tensor_dims(*mel).len(), 1, 2), turned)
                    && subsample_result(self.subsampling, with_axis(turned, 1), array(y)),
            r is Ok ==> tensor_dims(*mel).len() == 3 && tensor_dims(*mel)[2] >= 1,
            r matches Ok(y) ==> tensor_dims(y) == seq![
                tensor_dims(*mel)[0],
                downsampled(tensor_dims(*mel)[2] as int) as usize,
                tensor_dims(self.subsampling.out.weight)[0],
            ],
            r is Err ==> picture_refused(self.subsampling, array(*mel)),
    {
        let turned = swap_axes(mel, 1, 2)?;
        assert(is_permuted(
            array(*mel),
            exchanged(tensor_dims(*mel).len(), 1, 2),
            array(turned),
        ));
        let picture = unsqueeze(&turned, 1)?;
        let r = self.subsampling.forward(&picture)?;
        Ok(r)
    }

    /// The number of frames that are left of a number of spectrogram frames.
    pub fn frames_left(time: usize) -> (r: usize)
        requires
            time >= 1,
        ensures
            r == downsampled(time as int),
            r >= 1,
    {
        let a: usize = (time - 1) / 2 + 1;
        let b: usize = (a - 1) / 2 + 1;
        (b - 1) / 2 + 1
    }

    /// From a spectrogram by recording, mel bins and time to encoded frames, with an embedding of the
    /// distances between the frames that are left.
    pub fn forward(&self, mel: &Tensor, pos_emb: &Tensor) -> (r: Result<Tensor, Error>)
        requires
            self.wf(),
        ensures
            r is Ok ==> tensor_dims(*mel).len() == 3 && tensor_dims(*mel)[2] >= 1,
            r matches Ok(y) ==> exists|turned: Array, chain: Seq<Array>|
                {
                    &&& #[trigger] is_permuted(
                        array(*mel),
                        exchanged(tensor_dims(*mel).len(), 1, 2),
                        turned,
                    )
                    &&& #[trigger] layer_chain(*self, array(*pos_emb), chain)
                    &&& subsample_result(self.subsampling, with_axis(turned, 1), chain[0])
                    &&& chain.last() == array(y)
                },
            r is Err ==> {
                ||| picture_refused(self.subsampling, array(*mel))
                ||| exists|turned: Array, x: Array|
                    {
                        &&& #[trigger] is_permuted(
                            array(*mel),
                            exchanged(tensor_dims(*mel).len(), 1, 2),
                            turned,
                        )
                        &&& #[trigger] subsample_result(
                            self.subsampling,
                            with_axis(turned, 1),
                            x,
                        )
                        &&& encode_refused(*self, x, array(*pos_emb))
                    }
            },
    {
        let x = self.subsample(mel)?;
        self.encode(&x, pos_emb)
    }

    /// The layers one after another, with an embedding of relative positions.
    pub fn encode(&self, x: &Tensor, pos_emb: &Tensor) -> (r: Result<Tensor, Error>)
        requires
            self.wf(),
        ensures
            r matches Ok(y) ==> exists|chain: Seq<Array>| #[trigger]
                layer_chain(*self, array(*pos_emb), chain) && chain[0] == array(*x) && chain.last()
                    == array(y),
            r is Err ==> encode_refused(*self, array(*x), array(*pos_emb)),
    {
        let mut y = share(x);
        let ghost mut chain: Seq<Array> = seq![array(*x)];
        let mut i: usize = 0;
        while i < self.layers.len()
            invariant
                i <= self.layers@.len(),
                self.wf(),
                chain.len() == i + 1,
                chain[0] == array(*x),
                chain.last() == array(y),
                forall|j: int|
                    0 <= j < i ==> conformer_result(
                        #[trigger] self.layers@[j],
                        chain[j],
                        array(*pos_emb),
                        chain[j + 1],
                    ),
            decreases self.layers@.len() - i,
        {
            let next = match self.layers[i].forward(&y, pos_emb) {
                Ok(n) => n,
                Err(e) => {
                    assert(chain_stops(*self, array(*pos_emb), chain));
                    return Err(e);
                },
            };
            proof {
                let longer = chain.push(array(next));
                assert forall|j: int| 0 <= j < i + 1 implies conformer_result(
                    #[trigger] self.layers@[j],
                    longer[j],
                    array(*pos_emb),
                    longer[j + 1],
                ) by {
                    if j < i {
                        assert(longer[j] == chain[j] && longer[j + 1] == chain[j + 1]);
                    }
                }
                chain = longer;
            }
            y = next;
            i += 1;
        }
        assert(layer_chain(*self, array(*pos_emb), chain));
        Ok(y)
    }
}

// ---------------------------------------------------------------------------
// What the blocks do
// ---------------------------------------------------------------------------

/// `part` holds channels `first..first + n` of `wide`: for every recording and time, channel `ch` of it is
/// channel `first + ch`.
pub open spec fn channels_from(wide: Array, first: int, n: int, part: Array) -> bool {
    wide.dims.len() == 3 ==> forall|i: int, ch: int, time: int|
        #![trigger part.elems[(i * n + ch) * wide.dims[2] + time]]
        0 <= i < wide.dims[0] && 0 <= ch < n && 0 <= time < wide.dims[2] ==> part.elems[(i * n + ch)
            * wide.dims[2] + time] == wide.elems[(i * wide.dims[1] + first + ch) * wide.dims[2]
            + time]
}

proof fn lemma_channels_from(wide: Array, first: int, n: int)
    requires
        wide.dims.len() >= 2,
        0 <= first,
        0 <= n,
        first + n <= wide.dims[1],
    ensures
        channels_from(wide, first, n, narrow_array(wide, 1, first, n)),
{
    let part = narrow_array(wide, 1, first, n);
    if wide.dims.len() == 3 {
        let t = wide.dims[2] as int;
        let all = wide.dims[1] as int;
        assert(wide.dims.skip(2) =~= seq![wide.dims[2]]);
        lemma_volume_vector(wide.dims[2]);
        assert(wide.dims.take(1) =~= seq![wide.dims[0]]);
        lemma_volume_vector(wide.dims[0]);
        assert forall|i: int, ch: int, time: int|
            #![trigger part.elems[(i * n + ch) * wide.dims[2] + time]]
            0 <= i < wide.dims[0] && 0 <= ch < n && 0 <= time
                < wide.dims[2] implies part.elems[(i * n + ch) * wide.dims[2] + time]
            == wide.elems[(i * wide.dims[1] + first + ch) * wide.dims[2] + time] by {
            let m = ch * t + time;
            assert(0 <= m < n * t) by (nonlinear_arith)
                requires
                    0 <= ch < n,
                    0 <= time < t,
                    m == ch * t + time,
            ;
            lemma_division(i, n * t, m);
            let k = i * (n * t) + m;
            assert(k == (i * n + ch) * t + time) by (nonlinear_arith)
                requires
                    k == i * (n * t) + m,
                    m == ch * t + time,
            ;
            assert(0 <= k < wide.dims[0] * (n * t)) by (nonlinear_arith)
                requires
                    0 <= i < wide.dims[0],
                    0 <= m < n * t,
                    k == i * (n * t) + m,
            ;
            assert(i * (all * t) + first * t + m == (i * all + first + ch) * t + time)
                by (nonlinear_arith)
                requires
                    m == ch * t + time,
            ;
        }
    }
}

/// A convolution is gated: the second half of the channels decides, through the logistic function, how much
/// of the first half goes on, channel by channel. Behind it stand a convolution along time for each channel,
/// its normalization, an activation, and a convolution across channels; time is the last axis from end to end.
pub proof fn law_second_half_gates_the_first(c: ConformerConvolution, x: Array, r: Array)
    requires
        conv_result(c, x, r),
        x.dims.len() == 3,
    ensures
        exists|turned: Array, wide: Array, front: Array, back: Array, gate: Array, gated: Array|
            {
                &&& #[trigger] time_last(x, turned)
                &&& #[trigger] conv1d_result(
                    turned,
                    array(c.pointwise_conv1_w),
                    by_one(),
                    wide,
                )
                &&& #[trigger] channels_from(wide, 0, c.d_model as int, front)
                &&& #[trigger] channels_from(wide, c.d_model as int, c.d_model as int, back)
                &&& #[trigger] sigmoid_result(back, gate)
                &&& #[trigger] mul_result(front, gate, gated)
                &&& smoothed(c, gated, r)
            },
{
    let t = choose|t: ConvTrace| #[trigger] conv_steps(c, x, t, r);
    let half = c.d_model as int;
    lemma_channels_from(t.wide, 0, half);
    lemma_channels_from(t.wide, half, half);
    assert(exchanged(3, 1, 2) =~= seq![0usize, 2, 1]);
    assert(time_last(x, t.turned));
    assert(conv1d_result(t.turned, array(c.pointwise_conv1_w), by_one(), t.wide));
    let each = Sliding { padding: c.kernel_size / 2, stride: 1, groups: c.d_model };
    assert(conv1d_result(t.gated, array(c.depthwise_conv_w), each, t.deep));
    assert(smoothed(c, t.gated, r));
    assert(mul_result(narrow_array(t.wide, 1, 0, half), t.gate, t.gated));
}

/// `turned` is `x` with its second axis behind its third.
pub open spec fn time_last(x: Array, turned: Array) -> bool {
    is_permuted(x, seq![0usize, 2, 1], turned)
}

/// `r` is what comes of gated channels: a convolution for each, as wide to both sides as its kernel reaches,
/// normalization, an activation, a convolution across channels, and time before channels again.
pub open spec fn smoothed(c: ConformerConvolution, gated: Array, r: Array) -> bool {
    exists|deep: Array, normed: Array, on: Array, mixed: Array|
        {
            &&& #[trigger] conv1d_result(
                gated,
                array(c.depthwise_conv_w),
                (Sliding { padding: c.kernel_size / 2, stride: 1, groups: c.d_model }),
                deep,
            )
            &&& #[trigger] batch_result(c.batch_norm, deep, normed)
            &&& #[trigger] silu_result(normed, on)
            &&& #[trigger] conv1d_result(on, array(c.pointwise_conv2_w), by_one(), mixed)
            &&& is_permuted(mixed, exchanged(mixed.dims.len(), 1, 2), r)
        }
}

/// Normalization of channels takes the stored mean away, divides by the root of the stored variance and a
/// little more, and then applies the weight and the bias, each of them channel by channel.
pub proof fn law_stored_mean_goes_before_the_weights(n: BatchNorm1d, x: Array, r: Array)
    requires
        batch_result(n, x, r),
    ensures
        exists|rest: Array, sum: Array, root: Array, even: Array, scaled: Array|
            {
                &&& #[trigger] broadcast_sub_result(x, each_channel(n.running_mean), rest)
                &&& #[trigger] plus_result(each_channel(n.running_var), n.eps, sum)
                &&& #[trigger] sqrt_result(sum, root)
                &&& #[trigger] broadcast_div_result(rest, root, even)
                &&& #[trigger] broadcast_mul_result(even, each_channel(n.weight), scaled)
                &&& broadcast_add_result(scaled, each_channel(n.bias), r)
            },
{
    let t = choose|t: BatchTrace| #[trigger] batch_steps(n, x, t, r);
    assert(broadcast_sub_result(x, each_channel(n.running_mean), t.centered));
    assert(plus_result(each_channel(n.running_var), n.eps, t.shifted));
    assert(sqrt_result(t.shifted, t.deviation));
    assert(broadcast_div_result(t.centered, t.deviation, t.normed));
    assert(broadcast_mul_result(t.normed, each_channel(n.weight), t.scaled));
}

/// A number for each channel, between an axis of recordings and one of time.
pub open spec fn each_channel(t: Tensor) -> Array {
    Array {
        dims: seq![1usize, tensor_dims(t)[0], 1usize],
        elems: array(t).elems,
        kind: array(t).kind,
    }
}

/// Attention scores a frame for another one by content and by distance: the queries meet the keys with one
/// bias and the embedded distances with another, both scores are added, each distance where it belongs, and
/// divided by the root of the width; the values are weighed by their softmax.
pub proof fn law_scores_add_content_and_distance(
    a: RelPositionMultiHeadAttention,
    x: Array,
    pos: Array,
    r: Array,
)
    requires
        rel_attention_result(a, x, pos, r),
    ensures
        exists|
            q: Array,
            k: Array,
            v: Array,
            p: Array,
            content: Array,
            distance: Array,
            both: Array,
            scores: Array,
            soft: Array,
            mixed: Array,
            flat: Array,
        |
            {
                &&& #[trigger] mapped_heads(a.linear_q, x, a.n_heads, a.d_k, q)
                &&& #[trigger] mapped_heads(a.linear_k, x, a.n_heads, a.d_k, k)
                &&& #[trigger] mapped_heads(a.linear_v, x, a.n_heads, a.d_k, v)
                &&& #[trigger] mapped_distances(a, pos, p)
                &&& #[trigger] met_with_bias(q, a.pos_bias_u, a.n_heads, a.d_k, k, content)
                &&& #[trigger] met_with_bias(q, a.pos_bias_v, a.n_heads, a.d_k, p, distance)
                &&& #[trigger] add_result(content, rel_shifted(distance), both)
                &&& #[trigger] over_result(both, root_of(a.d_k as i64), scores)
                &&& #[trigger] softmax_result(scores, soft)
                &&& #[trigger] matmul_result(soft, v, mixed)
                &&& #[trigger] entries_by_position(
                    mixed,
                    x.dims[0],
                    x.dims[1],
                    a.n_heads,
                    a.d_k,
                    flat,
                )
                &&& dense_result(a.linear_out, flat, r)
            },
{
    let t = choose|t: RelTrace| #[trigger] rel_attention_steps(a, x, pos, t, r);
    let (b, s) = (x.dims[0], x.dims[1]);
    lemma_entries_by_head(t.q, b, s, a.n_heads, a.d_k, t.q_heads);
    lemma_entries_by_head(t.k, b, s, a.n_heads, a.d_k, t.k_heads);
    lemma_entries_by_head(t.v, b, s, a.n_heads, a.d_k, t.v_heads);
    lemma_entries_by_head(t.p, 1, pos.dims[1], a.n_heads, a.d_k, t.p_heads);
    lemma_rows_as_columns(t.k_heads, t.k_turned);
    lemma_rows_as_columns(t.p_heads, t.p_turned);
    lemma_entries_by_position(t.mixed, t.ordered, b, s, a.n_heads, a.d_k);
    let flat = under(t.ordered, seq![b, s, (a.n_heads * a.d_k) as usize]);
    assert(mapped_heads(a.linear_q, x, a.n_heads, a.d_k, t.q_heads));
    assert(mapped_heads(a.linear_k, x, a.n_heads, a.d_k, t.k_heads));
    assert(mapped_heads(a.linear_v, x, a.n_heads, a.d_k, t.v_heads));
    assert(mapped_distances(a, pos, t.p_heads));
    assert(met_with_bias(t.q_heads, a.pos_bias_u, a.n_heads, a.d_k, t.k_heads, t.content));
    assert(met_with_bias(t.q_heads, a.pos_bias_v, a.n_heads, a.d_k, t.p_heads, t.by_distance));
    assert(entries_by_position(t.mixed, b, s, a.n_heads, a.d_k, flat));
    assert(add_result(t.content, rel_shifted(t.by_distance), t.both));
}

/// `p` are the embedded distances through their own map, by head.
pub open spec fn mapped_distances(
    a: RelPositionMultiHeadAttention,
    pos: Array,
    p: Array,
) -> bool {
    exists|y: Array| #[trigger]
        dense_result(a.linear_pos, pos, y) && entries_by_head(
            y,
            1,
            pos.dims[1],
            a.n_heads,
            a.d_k,
            p,
        )
}

/// `r` are the products of queries, a bias for each head added to them, and keys.
pub open spec fn met_with_bias(
    q: Array,
    bias: Tensor,
    heads: usize,
    width: usize,
    k: Array,
    r: Array,
) -> bool {
    exists|biased: Array, turned: Array|
        {
            &&& broadcast_add_result(
                q,
                under(array(bias), seq![1usize, heads, 1, width]),
                biased,
            )
            &&& rows_as_columns(k, turned)
            &&& #[trigger] matmul_result(biased, turned, r)
        }
}

/// The layers stand behind one another: what one gives for the frames enters the next, and all of them see
/// the same distances. Cut anywhere, the front part and the back part of the layers do the same in turn.
pub proof fn law_layers_stand_behind_one_another(
    e: FastConformerEncoder,
    pos: Array,
    chain: Seq<Array>,
    i: int,
)
    requires
        layer_chain(e, pos, chain),
        0 <= i < e.layers@.len(),
    ensures
        chain.len() == e.layers@.len() + 1,
        exists|a: Array, b: Array, c: Array, d: Array|
            {
                &&& #[trigger] added_to_its_input(
                    e.layers@[i].norm_ff1,
                    half_block(e.layers@[i].ff1),
                    chain[i],
                    a,
                )
                &&& #[trigger] added_to_its_input(
                    e.layers@[i].norm_attn,
                    attention_block(e.layers@[i].self_attn, pos),
                    a,
                    b,
                )
                &&& #[trigger] added_to_its_input(
                    e.layers@[i].norm_conv,
                    convolution_block(e.layers@[i].conv),
                    b,
                    c,
                )
                &&& #[trigger] added_to_its_input(
                    e.layers@[i].norm_ff2,
                    half_block(e.layers@[i].ff2),
                    c,
                    d,
                )
                &&& plain_norm_result(e.layers@[i].norm_out, d, chain[i + 1])
            },
{
    law_blocks_are_added_to_their_inputs(e.layers@[i], chain[i], pos, chain[i + 1]);
}

/// `flat` holds, for every row of a picture, its entries by channel and column.
pub open spec fn rows_as_entries(e: Array, flat: Array) -> bool {
    &&& flat.dims == seq![e.dims[0], e.dims[2], (e.dims[1] * e.dims[3]) as usize]
    &&& e.dims.len() == 4 ==> forall|i: int, ch: int, row: int, col: int|
        #![trigger flat.elems[((i * e.dims[2] + row) * e.dims[1] + ch) * e.dims[3] + col]]
        0 <= i < e.dims[0] && 0 <= ch < e.dims[1] && 0 <= row < e.dims[2] && 0 <= col < e.dims[3]
            ==> flat.elems[((i * e.dims[2] + row) * e.dims[1] + ch) * e.dims[3] + col]
            == e.elems[((i * e.dims[1] + ch) * e.dims[2] + row) * e.dims[3] + col]
}

proof fn lemma_rows_as_entries(e: Array, rows: Array)
    requires
        rows_first(e, rows),
    ensures
        rows_as_entries(
            e,
            under(rows, seq![e.dims[0], e.dims[2], (e.dims[1] * e.dims[3]) as usize]),
        ),
{
    let flat = under(rows, seq![e.dims[0], e.dims[2], (e.dims[1] * e.dims[3]) as usize]);
    if e.dims.len() == 4 {
        let order = seq![0usize, 2, 1, 3];
        assert(rows.dims =~= seq![e.dims[0], e.dims[2], e.dims[1], e.dims[3]]);
        assert forall|i: int, ch: int, row: int, col: int|
            #![trigger flat.elems[((i * e.dims[2] + row) * e.dims[1] + ch) * e.dims[3] + col]]
            0 <= i < e.dims[0] && 0 <= ch < e.dims[1] && 0 <= row < e.dims[2] && 0 <= col
                < e.dims[3] implies flat.elems[((i * e.dims[2] + row) * e.dims[1] + ch) * e.dims[3]
            + col] == e.elems[((i * e.dims[1] + ch) * e.dims[2] + row) * e.dims[3] + col] by {
            let from = seq![i, ch, row, col];
            let to = seq![i, row, ch, col];
            lemma_offset_of_four(e.dims, from);
            lemma_offset_of_four(rows.dims, to);
            assert(is_index(e.dims, from));
            assert(is_index(rows.dims, to));
            assert forall|n: int| 0 <= n < order.len() implies to[n] == from[#[trigger] order[n] as int] by {
                if n == 0 {
                } else if n == 1 {
                } else if n == 2 {
                }
            }
            assert(rows.elems[offset(rows.dims, to)] == e.elems[offset(e.dims, from)]);
        }
    }
}

/// What a convolution with a bias gives.
pub open spec fn picture_block(l: ConvLayer) -> spec_fn(Array, Array) -> bool {
    |x: Array, y: Array| conv_layer_result(l, x, y)
}

/// The positive part of each number.
pub open spec fn positive_block() -> spec_fn(Array, Array) -> bool {
    |x: Array, y: Array| relu_result(x, y)
}

/// Subsampling leads a picture through a convolution, and twice through one for each channel and one across
/// them, with the positive part taken before each pair and not behind the last; every row of what is left
/// becomes the entries of one frame.
pub proof fn law_rows_become_frames(s: DwStridingSubsampling, x: Array, r: Array)
    requires
        subsample_result(s, x, r),
    ensures
        exists|e: Array, flat: Array|
            {
                &&& #[trigger] in_turn(
                    in_turn(picture_block(s.conv0), positive_block()),
                    in_turn(
                        in_turn(picture_block(s.conv2), picture_block(s.conv3)),
                        in_turn(
                            positive_block(),
                            in_turn(picture_block(s.conv5), picture_block(s.conv6)),
                        ),
                    ),
                )(x, e)
                &&& #[trigger] rows_as_entries(e, flat)
                &&& dense_result(s.out, flat, r)
            },
{
    let t = choose|t: SubsampleTrace| #[trigger] subsample_steps(s, x, t, r);
    let start = in_turn(picture_block(s.conv0), positive_block());
    let pair = in_turn(picture_block(s.conv2), picture_block(s.conv3));
    let last = in_turn(picture_block(s.conv5), picture_block(s.conv6));
    let tail = in_turn(positive_block(), last);
    assert(picture_block(s.conv0)(x, t.a));
    assert(positive_block()(t.a, t.a_on));
    assert(start(x, t.a_on));
    assert(picture_block(s.conv2)(t.a_on, t.b));
    assert(picture_block(s.conv3)(t.b, t.c));
    assert(pair(t.a_on, t.c));
    assert(positive_block()(t.c, t.c_on));
    assert(picture_block(s.conv5)(t.c_on, t.d));
    assert(picture_block(s.conv6)(t.d, t.e));
    assert(last(t.c_on, t.e));
    assert(tail(t.c, t.e));
    assert(in_turn(pair, tail)(t.a_on, t.e));
    assert(in_turn(start, in_turn(pair, tail))(x, t.e));
    lemma_rows_as_entries(t.e, t.rows);
    let flat = under(
        t.rows,
        seq![t.e.dims[0], t.e.dims[2], (t.e.dims[1] * t.e.dims[3]) as usize],
    );
    assert(rows_as_entries(t.e, flat));
    assert(dense_result(s.out, flat, r));
}

/// A feed-forward network widens, activates and narrows again.
pub proof fn law_activation_stands_between(f: ConformerFeedForward, x: Array, r: Array)
    requires
        feed_result(f, x, r),
    ensures
        exists|a: Array, b: Array|
            {
                &&& #[trigger] dense_result(f.linear1, x, a)
                &&& #[trigger] silu_result(a, b)
                &&& dense_result(f.linear2, b, r)
            },
{
}

/// The maps of attention are made of the tensors of their own names, without biases; each of the two biases of
/// the queries has its own name.
pub proof fn law_attention_weights_have_their_names(
    d_model: usize,
    n_heads: usize,
    d_k: usize,
    w: WeightStore,
    a: RelPositionMultiHeadAttention,
)
    requires
        rel_attention_from(d_model, n_heads, d_k, w, a),
    ensures
        dense_named(w, "linear_q"@ + ".weight"@, None, d_model, d_model, a.linear_q),
        dense_named(w, "linear_k"@ + ".weight"@, None, d_model, d_model, a.linear_k),
        dense_named(w, "linear_v"@ + ".weight"@, None, d_model, d_model, a.linear_v),
        dense_named(w, "linear_out"@ + ".weight"@, None, d_model, d_model, a.linear_out),
        dense_named(w, "linear_pos"@ + ".weight"@, None, d_model, d_model, a.linear_pos),
        weight_loaded(w, "pos_bias_u"@, seq![n_heads, d_k], a.pos_bias_u),
        weight_loaded(w, "pos_bias_v"@, seq![n_heads, d_k], a.pos_bias_v),
{
    law_maps_have_full_names(w, "linear_q"@, d_model, d_model, false, a.linear_q);
    law_maps_have_full_names(w, "linear_k"@, d_model, d_model, false, a.linear_k);
    law_maps_have_full_names(w, "linear_v"@, d_model, d_model, false, a.linear_v);
    law_maps_have_full_names(w, "linear_out"@, d_model, d_model, false, a.linear_out);
    law_maps_have_full_names(w, "linear_pos"@, d_model, d_model, false, a.linear_pos);
}

/// The maps of a feed-forward network are made of the tensors of their own names, without biases: the first one
/// widens, the second one narrows.
pub proof fn law_feed_weights_have_their_names(
    d_model: usize,
    d_ff: usize,
    w: WeightStore,
    f: ConformerFeedForward,
)
    requires
        feed_from(d_model, d_ff, w, f),
    ensures
        dense_named(w, "linear1"@ + ".weight"@, None, d_model, d_ff, f.linear1),
        dense_named(w, "linear2"@ + ".weight"@, None, d_ff, d_model, f.linear2),
{
    law_maps_have_full_names(w, "linear1"@, d_model, d_ff, false, f.linear1);
    law_maps_have_full_names(w, "linear2"@, d_ff, d_model, false, f.linear2);
}

/// The normalizations of a layer are made of the tensors of their own names, each block stands under a part of
/// its own, and 1e-5 is added to every variance.
pub proof fn law_layer_weights_have_their_names(c: EncoderConfig, w: WeightStore, l: ConformerLayer)
    requires
        conformer_from(c, w, l),
    ensures
        norm_named(
            w,
            "norm_feed_forward1"@ + ".weight"@,
            "norm_feed_forward1"@ + ".bias"@,
            c.d_model,
            quotient_of(1, 100_000),
            l.norm_ff1,
        ),
        norm_named(
            w,
            "norm_self_att"@ + ".weight"@,
            "norm_self_att"@ + ".bias"@,
            c.d_model,
            quotient_of(1, 100_000),
            l.norm_attn,
        ),
        norm_named(
            w,
            "norm_conv"@ + ".weight"@,
            "norm_conv"@ + ".bias"@,
            c.d_model,
            quotient_of(1, 100_000),
            l.norm_conv,
        ),
        norm_named(
            w,
            "norm_feed_forward2"@ + ".weight"@,
            "norm_feed_forward2"@ + ".bias"@,
            c.d_model,
            quotient_of(1, 100_000),
            l.norm_ff2,
        ),
        norm_named(
            w,
            "norm_out"@ + ".weight"@,
            "norm_out"@ + ".bias"@,
            c.d_model,
            quotient_of(1, 100_000),
            l.norm_out,
        ),
        exists|s: WeightStore| #[trigger]
            narrowed(w, "feed_forward1"@, s) && feed_from(c.d_model, c.d_ff, s, l.ff1),
        exists|s: WeightStore| #[trigger]
            narrowed(w, "feed_forward2"@, s) && feed_from(c.d_model, c.d_ff, s, l.ff2),
        exists|s: WeightStore| #[trigger]
            narrowed(w, "self_attn"@, s) && rel_attention_from(
                c.d_model,
                c.n_heads,
                c.d_k,
                s,
                l.self_attn,
            ),
        exists|s: WeightStore| #[trigger]
            narrowed(w, "conv"@, s) && conv_from(c.d_model, c.conv_kernel_size, s, l.conv),
{
    law_normalizations_have_full_names(
        w,
        "norm_feed_forward1"@,
        c.d_model,
        quotient_of(1, 100_000),
        l.norm_ff1,
    );
    law_normalizations_have_full_names(
        w,
        "norm_self_att"@,
        c.d_model,
        quotient_of(1, 100_000),
        l.norm_attn,
    );
    law_normalizations_have_full_names(
        w,
        "norm_conv"@,
        c.d_model,
        quotient_of(1, 100_000),
        l.norm_conv,
    );
    law_normalizations_have_full_names(
        w,
        "norm_feed_forward2"@,
        c.d_model,
        quotient_of(1, 100_000),
        l.norm_ff2,
    );
    law_normalizations_have_full_names(
        w,
        "norm_out"@,
        c.d_model,
        quotient_of(1, 100_000),
        l.norm_out,
    );
}

} // verus!
