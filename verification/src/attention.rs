//! Attention of the Qwen3 text decoder, with grouped heads and a cache of keys and values.
use crate::decoder::{
    law_maps_have_full_names, linear_forward, linear_forward_refused, linear_no_bias, map_named,
    rms_forward, rms_refused, rotary_forward, rotary_refused, sub_linear_from, sub_linear_missing,
    sub_norm_from, sub_rms_missing, sub_weights, LinearLayer, RmsNorm, RotaryEmbedding, Weights,
};
use crate::tensor::{
    add_refused, add_result, all_ordinary, array, arrays, bits_refused, broadcast_add,
    broadcast_add_refused, broadcast_add_result, cast, cast_refused, cast_to, cat, cat_array,
    cat_pair, cat_refused, cat_two, contiguous, contiguous_refused, device_of, dims, double_number,
    dtype_of, exchanged, four, from_bits, gives_zeros, in_turn, is_index, is_permuted, kind_of,
    lemma_division, lemma_offset_of_four, lemma_same_numbers, lemma_way_around_zeros, matmul,
    matmul_refused, matmul_result, mul_refused, mul_result, narrow, narrow_array, offset, over,
    over_refused, over_result, pair_refused, product, refuse, reshape_refused, reshaped, root_of,
    same_numbers, share, silu, silu_refused, silu_result, single, single_precision, softmax_last,
    softmax_refused, softmax_result, square_root, sum, swap_axes, tensor_device, tensor_dims, three,
    total_extent, two, unsqueeze, volume, with_axis, with_way_around, Array, MINUS_INFINITY,
};
use crate::weights::WeightStore;
use candle_core::scalar::Scalar;
use candle_core::{DType, Device, Error, Tensor};
use vstd::prelude::*;

verus! {

/// Sizes of the decoder.
pub struct Qwen3Config {
    pub hidden_size: usize,
    pub num_attention_heads: usize,
    pub num_key_value_heads: usize,
    pub head_dim: usize,
    pub intermediate_size: usize,
    /// What normalization adds to the mean square.
    pub rms_norm_eps: Scalar,
}

impl Qwen3Config {
    /// Widths can be counted, and there is a head for keys and values.
    pub open spec fn wf(self) -> bool {
        &&& self.num_attention_heads * self.head_dim <= usize::MAX
        &&& self.num_key_value_heads * self.head_dim <= usize::MAX
        &&& self.num_key_value_heads >= 1
        &&& self.head_dim <= i64::MAX
    }
}

// ---------------------------------------------------------------------------
// Grouped heads
// ---------------------------------------------------------------------------

/// The heads of `x`, each one `n_rep` times.
pub open spec fn repeated_heads(x: Array, n_rep: int) -> Seq<Array> {
    Seq::new((x.dims[1] * n_rep) as nat, |i: int| narrow_array(x, 1, i / n_rep, 1))
}

/// The keys or values for all heads: each head stands `n_rep` times after another.
pub open spec fn repeated(x: Array, n_rep: int) -> Array {
    if n_rep == 1 {
        x
    } else {
        cat_array(repeated_heads(x, n_rep), 1)
    }
}

/// Repeating heads more than once is refused where there are not four axes or the heads grow past
/// counting; putting them after one another can be refused too.
pub open spec fn repeating_refused(x: Array, n_rep: int) -> bool {
    n_rep != 1 && {
        ||| x.dims.len() != 4
        ||| n_rep == 0
        ||| x.dims[1] * n_rep > usize::MAX
        ||| cat_refused(repeated_heads(x, n_rep), 1)
    }
}

/// Parts that are one wide along an axis and agree otherwise.
pub open spec fn unit_parts(parts: Seq<Array>, base: Seq<usize>, axis: int) -> bool {
    &&& 0 <= axis < base.len()
    &&& forall|i: int|
        0 <= i < parts.len() ==> (#[trigger] parts[i]).dims == base.update(axis, 1)
}

/// Parts after one another: the element behind `o` leading indices, in part `j`, at place `t`.
proof fn lemma_cat_units(parts: Seq<Array>, base: Seq<usize>, axis: int, o: int, j: int, t: int)
    requires
        unit_parts(parts, base, axis),
        1 <= parts.len() <= usize::MAX,
        0 <= o < volume(base.take(axis)),
        0 <= j < parts.len(),
        0 <= t < volume(base.skip(axis + 1)),
    ensures
        cat_array(parts, axis).dims == base.update(axis, parts.len() as usize),
        cat_array(parts, axis).elems[o * (parts.len() * volume(base.skip(axis + 1))) + j * volume(
            base.skip(axis + 1),
        ) + t] == parts[j].elems[o * volume(base.skip(axis + 1)) + t],
    decreases parts.len(),
{
    let n = parts.len() as int;
    let inner = volume(base.skip(axis + 1)) as int;
    if n == 1 {
        assert(1 * inner == inner);
        assert(0 * inner == 0);
        assert(cat_array(parts, axis) == parts[0]);
    } else {
        let a = cat_array(parts.drop_last(), axis);
        let b = parts.last();
        assert(unit_parts(parts.drop_last(), base, axis));
        lemma_cat_units(parts.drop_last(), base, axis, o, if j < n - 1 { j } else { 0 }, t);
        assert(a.dims == base.update(axis, (n - 1) as usize));
        assert(b.dims == base.update(axis, 1));
        assert(a.dims.skip(axis + 1) =~= base.skip(axis + 1));
        assert(a.dims.take(axis) =~= base.take(axis));
        let from_a = (n - 1) * inner;
        let from_b = 1 * inner;
        let part = from_a + from_b;
        assert(part == n * inner) by (nonlinear_arith)
            requires
                part == (n - 1) * inner + 1 * inner,
        ;
        let m = j * inner + t;
        assert(0 <= m < part) by (nonlinear_arith)
            requires
                0 <= j <= n - 1,
                0 <= t < inner,
                part == n * inner,
                m == j * inner + t,
        ;
        let k = o * part + m;
        lemma_division(o, part, m);
        let whole = cat_pair(a, b, axis);
        assert(0 <= k < volume(base.take(axis)) * part) by (nonlinear_arith)
            requires
                0 <= o < volume(base.take(axis)),
                0 <= m < part,
                k == o * part + m,
        ;
        assert(a.dims[axis] * inner == from_a);
        assert(b.dims[axis] * inner == from_b);
        assert(whole.elems[k] == if m < from_a {
            a.elems[o * from_a + m]
        } else {
            b.elems[o * from_b + m - from_a]
        });
        if j < n - 1 {
            assert(m < from_a) by (nonlinear_arith)
                requires
                    j <= n - 2,
                    0 <= t < inner,
                    m == j * inner + t,
                    from_a == (n - 1) * inner,
            ;
            assert(parts.drop_last()[j] == parts[j]);
            assert(o * from_a + m == o * ((n - 1) * inner) + j * inner + t);
        } else {
            assert(m - from_a == t) by (nonlinear_arith)
                requires
                    j == n - 1,
                    m == j * inner + t,
                    from_a == (n - 1) * inner,
            ;
            assert(m >= from_a);
        }
        assert(whole.dims =~= base.update(axis, n as usize));
        assert(o * (parts.len() * inner) + j * inner + t == k) by (nonlinear_arith)
            requires
                part == n * inner,
                n == parts.len(),
                k == o * part + (j * inner + t),
        ;
    }
}

/// Repeating heads keeps them in groups: head `h` of the result is head `h / n_rep` of `x`, for every
/// text `o` and every place `t` within a head.
pub proof fn law_heads_repeat_in_groups(x: Array, n_rep: int, o: int, h: int, t: int)
    requires
        x.dims.len() == 4,
        n_rep >= 1,
        x.elems.len() == volume(x.dims),
        1 <= x.dims[1] * n_rep <= usize::MAX,
        0 <= o < x.dims[0],
        0 <= h < x.dims[1] * n_rep,
        0 <= t < x.dims[2] * x.dims[3],
    ensures
        repeated(x, n_rep).dims == x.dims.update(1, (x.dims[1] * n_rep) as usize),
        repeated(x, n_rep).elems[o * ((x.dims[1] * n_rep) * (x.dims[2] * x.dims[3])) + h * (x.dims[2]
            * x.dims[3]) + t] == x.elems[o * (x.dims[1] * (x.dims[2] * x.dims[3])) + (h / n_rep) * (
        x.dims[2] * x.dims[3]) + t],
{
    let inner = volume(x.dims.skip(2)) as int;
    let kv = x.dims[1] as int;
    let n = kv * n_rep;
    assert(x.dims.skip(2) =~= seq![x.dims[2], x.dims[3]]);
    crate::tensor::lemma_volume_matrix(x.dims[2], x.dims[3]);
    assert(inner == x.dims[2] * x.dims[3]);
    assert(x.dims.take(1) =~= seq![x.dims[0]]);
    crate::tensor::lemma_volume_vector(x.dims[0]);
    if n_rep == 1 {
        assert(h / 1 == h);
        assert(x.dims.update(1, x.dims[1]) =~= x.dims);
        assert(kv * 1 == kv);
    } else {
        let parts = repeated_heads(x, n_rep);
        let g = h / n_rep;
        vstd::arithmetic::div_mod::lemma_fundamental_div_mod(h, n_rep);
        assert(0 <= g < kv) by (nonlinear_arith)
            requires
                h == n_rep * g + h % n_rep,
                0 <= h < kv * n_rep,
                0 <= h % n_rep < n_rep,
        ;
        assert forall|i: int| 0 <= i < parts.len() implies (#[trigger] parts[i]).dims
            == x.dims.update(1, 1) by {}
        assert(unit_parts(parts, x.dims, 1));
        lemma_cat_units(parts, x.dims, 1, o, h, t);
        // One head: the index behind the text.
        let head = narrow_array(x, 1, g, 1);
        assert(head == parts[h]);
        lemma_division(o, inner, t);
        assert(1 * inner == inner);
        assert(o * inner + t < x.dims[0] * inner) by (nonlinear_arith)
            requires
                0 <= o < x.dims[0],
                0 <= t < inner,
        ;
        assert(0 <= o * inner) by (nonlinear_arith)
            requires
                0 <= o,
                0 <= inner,
        ;
        assert(head.elems[o * inner + t] == x.elems[o * (kv * inner) + g * inner + t]);
    }
}

/// Repeats heads for keys and values, so that there is one for each head of the queries.
pub fn repeat_kv(x: &Tensor, n_rep: usize) -> (r: Result<Tensor, Error>)
    ensures
        r matches Ok(y) ==> array(y) == repeated(array(*x), n_rep as int),
        r is Ok && n_rep != 1 ==> tensor_dims(*x).len() == 4 && n_rep > 0 && tensor_dims(*x)[1]
            * n_rep <= usize::MAX,
        r is Err ==> repeating_refused(array(*x), n_rep as int),
{
    if n_rep == 1 {
        return Ok(share(x));
    }
    let d = dims(x);
    if d.len() != 4 || n_rep == 0 {
        return refuse(x);
    }
    let kv: usize = d[1];
    let all: usize = match kv.checked_mul(n_rep) {
        Some(n) => n,
        None => {
            return refuse(x);
        },
    };
    let ghost heads = repeated_heads(array(*x), n_rep as int);
    let mut parts: Vec<Tensor> = Vec::new();
    let mut i: usize = 0;
    assert(arrays(parts@) =~= heads.take(0));
    while i < all
        invariant
            i <= all,
            all == kv * n_rep,
            n_rep > 1,
            tensor_dims(*x).len() == 4,
            kv == tensor_dims(*x)[1],
            heads == repeated_heads(array(*x), n_rep as int),
            heads.len() == all,
            arrays(parts@) == heads.take(i as int),
        decreases all - i,
    {
        proof {
            vstd::arithmetic::div_mod::lemma_fundamental_div_mod(i as int, n_rep as int);
            assert(i / n_rep < kv) by (nonlinear_arith)
                requires
                    i < kv * n_rep,
                    n_rep > 1,
                    i == n_rep * (i / n_rep) + i % n_rep,
                    i % n_rep >= 0,
            ;
        }
        let head = narrow(x, 1, i / n_rep, 1)?;
        let ghost before = arrays(parts@);
        assert(array(head) == heads[i as int]);
        parts.push(head);
        assert(arrays(parts@) =~= before.push(heads[i as int]));
        assert(heads.take(i + 1) =~= heads.take(i as int).push(heads[i as int]));
        i += 1;
    }
    assert(arrays(parts@) =~= heads);
    proof {
        assert forall|j: int| 0 <= j < heads.len() implies (#[trigger] heads[j]).dims[1] == 1 by {}
        lemma_unit_total(heads, 1);
    }
    cat(&parts, 1)
}

proof fn lemma_unit_total(parts: Seq<Array>, axis: int)
    requires
        forall|j: int| 0 <= j < parts.len() ==> (#[trigger] parts[j]).dims[axis] == 1,
    ensures
        total_extent(parts, axis) == parts.len(),
    decreases parts.len(),
{
    if parts.len() > 0 {
        lemma_unit_total(parts.drop_last(), axis);
    }
}

// ---------------------------------------------------------------------------
// The mask
// ---------------------------------------------------------------------------

/// What is added to the score of position `j` for the text up to position `i`: nothing for what comes
/// before, minus infinity for what comes later.
pub open spec fn mask_bits(i: int, j: int) -> u32 {
    if j <= i {
        0
    } else {
        MINUS_INFINITY
    }
}

/// The mask of a text: one row for each position.
pub open spec fn causal_mask(len: usize) -> Array {
    Array {
        dims: seq![len, len],
        elems: Seq::new((len * len) as nat, |k: int| mask_bits(k / len as int, k % len as int) as int),
        kind: single(),
    }
}

/// A position sees itself and everything before it, and nothing that comes later.
pub proof fn law_mask_hides_the_future(len: usize, i: int, j: int)
    requires
        0 <= i < len,
        0 <= j < len,
    ensures
        causal_mask(len).elems[i * len + j] == if j <= i {
            0
        } else {
            MINUS_INFINITY as int
        },
{
    lemma_division(i, len as int, j);
    assert(0 <= i * len + j < len * len) by (nonlinear_arith)
        requires
            0 <= i < len,
            0 <= j < len,
    ;
}

/// `r` is the mask of a text in an element type, as a tensor that stretches over texts and heads.
pub open spec fn mask_result(len: usize, kind: int, r: Array) -> bool {
    cast_to(with_axis(with_axis(causal_mask(len), 0), 0), kind, r)
}

/// The bit patterns of the mask.
pub open spec fn mask_pattern(len: usize) -> Seq<u32> {
    Seq::new((len * len) as nat, |k: int| mask_bits(k / len as int, k % len as int))
}

/// The mask is refused where its elements cannot be counted; placing or converting it can be
/// refused too.
pub open spec fn mask_refused(len: usize, kind: int) -> bool {
    ||| len * len > usize::MAX
    ||| bits_refused(mask_pattern(len), seq![len, len])
    ||| cast_refused(with_axis(with_axis(causal_mask(len), 0), 0), kind)
}

/// The mask of a text.
pub fn create_causal_mask(seq_len: usize, device: &Device, dtype: DType) -> (r: Result<
    Tensor,
    Error,
>)
    ensures
        r matches Ok(m) ==> mask_result(seq_len, kind_of(dtype), array(m)) && tensor_device(m)
            == *device,
        r is Err ==> mask_refused(seq_len, kind_of(dtype)),
        r is Ok ==> seq_len * seq_len <= usize::MAX,
{
    if seq_len.checked_mul(seq_len).is_none() {
        return refuse(&double_number(0)?);
    }
    let d = two(seq_len, seq_len);
    let mut bits: Vec<u32> = Vec::new();
    let mut i: usize = 0;
    assert(0 * seq_len == 0) by (nonlinear_arith);
    while i < seq_len
        invariant
            i <= seq_len,
            bits@.len() == i * seq_len,
            forall|k: int|
                0 <= k < bits@.len() ==> #[trigger] bits@[k] == mask_bits(
                    k / seq_len as int,
                    k % seq_len as int,
                ),
        decreases seq_len - i,
    {
        let mut j: usize = 0;
        while j < seq_len
            invariant
                i < seq_len,
                j <= seq_len,
                bits@.len() == i * seq_len + j,
                forall|k: int|
                    0 <= k < bits@.len() ==> #[trigger] bits@[k] == mask_bits(
                        k / seq_len as int,
                        k % seq_len as int,
                    ),
            decreases seq_len - j,
        {
            proof {
                lemma_division(i as int, seq_len as int, j as int);
            }
            bits.push(
                if j <= i {
                    0
                } else {
                    MINUS_INFINITY
                },
            );
            j += 1;
        }
        assert((i + 1) * seq_len == i * seq_len + seq_len) by (nonlinear_arith);
        i += 1;
    }
    assert(bits@ =~= mask_pattern(seq_len));
    let mask = from_bits(bits, &d, device)?;
    assert(array(mask) =~= causal_mask(seq_len));
    let a = unsqueeze(&mask, 0)?;
    let b = unsqueeze(&a, 0)?;
    cast(&b, dtype)
}

// ---------------------------------------------------------------------------
// Attention
// ---------------------------------------------------------------------------

/// Keys and values of the positions so far.
pub struct LayerKvCache {
    pub k: Option<Tensor>,
    pub v: Option<Tensor>,
}

impl LayerKvCache {
    /// Keys and values are kept together.
    pub open spec fn wf(self) -> bool {
        self.k is Some == self.v is Some
    }

    /// A cache without any positions.
    pub fn new() -> (r: LayerKvCache)
        ensures
            r.wf(),
            r.k is None,
    {
        LayerKvCache { k: None, v: None }
    }
}

/// Attention with more heads for queries than for keys and values.
pub struct Attention {
    pub q_proj: LinearLayer,
    pub k_proj: LinearLayer,
    pub v_proj: LinearLayer,
    pub o_proj: LinearLayer,
    pub q_norm: RmsNorm,
    pub k_norm: RmsNorm,
    pub num_heads: usize,
    pub num_kv_heads: usize,
    pub head_dim: usize,
    pub rope: RotaryEmbedding,
}

/// Heads are brought before positions.
pub open spec fn heads_first(x: Array, r: Array) -> bool {
    is_permuted(x, exchanged(x.dims.len(), 1, 2), r)
}

/// There are no heads and positions, or bringing them into order can be refused.
pub open spec fn heads_refused(x: Array) -> bool {
    ||| x.dims.len() < 3
    ||| exists|y: Array| #[trigger] heads_first(x, y) && contiguous_refused(y)
}

/// The same elements under other extents.
pub open spec fn under(x: Array, d: Seq<usize>) -> Array {
    Array { dims: d, ..x }
}

/// The intermediate results of projecting.
pub struct ProjectTrace {
    pub q: Array,
    pub k: Array,
    pub v: Array,
    pub q_normed: Array,
    pub k_normed: Array,
    pub q_heads: Array,
    pub k_heads: Array,
}

/// Queries, keys and values, with the intermediate results: projected, cut into heads, normalized,
/// brought into order, and rotated by their positions.
pub open spec fn project_steps(
    a: Attention,
    x: Array,
    start: int,
    t: ProjectTrace,
    q: Array,
    k: Array,
    v: Array,
) -> bool {
    let b = x.dims[0];
    let s = x.dims[1];
    &&& linear_forward(a.q_proj, x, t.q)
    &&& linear_forward(a.k_proj, x, t.k)
    &&& linear_forward(a.v_proj, x, t.v)
    &&& rms_forward(a.q_norm, under(t.q, seq![b, s, a.num_heads, a.head_dim]), t.q_normed)
    &&& rms_forward(a.k_norm, under(t.k, seq![b, s, a.num_kv_heads, a.head_dim]), t.k_normed)
    &&& heads_first(t.q_normed, t.q_heads)
    &&& heads_first(t.k_normed, t.k_heads)
    &&& heads_first(under(t.v, seq![b, s, a.num_kv_heads, a.head_dim]), v)
    &&& rotary_forward(a.rope, t.q_heads, start, q)
    &&& rotary_forward(a.rope, t.k_heads, start, k)
}

/// `q`, `k` and `v` are what projecting gave.
pub open spec fn project_result(
    a: Attention,
    x: Array,
    start: int,
    q: Array,
    k: Array,
    v: Array,
) -> bool {
    exists|t: ProjectTrace| #[trigger] project_steps(a, x, start, t, q, k, v)
}

/// A step can be refused on the way from projected queries or keys to heads that are rotated by
/// their positions.
pub open spec fn turning_refused(
    n: RmsNorm,
    rope: RotaryEmbedding,
    x: Array,
    cut: Seq<usize>,
    start: int,
) -> bool {
    ||| reshape_refused(x, cut)
    ||| rms_refused(n, under(x, cut))
    ||| exists|normed: Array| #[trigger]
        rms_forward(n, under(x, cut), normed) && {
            ||| heads_refused(normed)
            ||| exists|heads: Array| #[trigger]
                heads_first(normed, heads) && rotary_refused(rope, heads, start)
        }
}

/// A step of projecting can be refused.
pub open spec fn project_refused(a: Attention, x: Array, start: int) -> bool {
    let q_cut = seq![x.dims[0], x.dims[1], a.num_heads, a.head_dim];
    let kv_cut = seq![x.dims[0], x.dims[1], a.num_kv_heads, a.head_dim];
    ||| linear_forward_refused(a.q_proj, x)
    ||| linear_forward_refused(a.k_proj, x)
    ||| linear_forward_refused(a.v_proj, x)
    ||| exists|q: Array| #[trigger]
        linear_forward(a.q_proj, x, q) && turning_refused(a.q_norm, a.rope, q, q_cut, start)
    ||| exists|k: Array| #[trigger]
        linear_forward(a.k_proj, x, k) && turning_refused(a.k_norm, a.rope, k, kv_cut, start)
    ||| exists|v: Array| #[trigger]
        linear_forward(a.v_proj, x, v) && (reshape_refused(v, kv_cut) || heads_refused(
            under(v, kv_cut),
        ))
}

/// The intermediate results of attending.
pub struct AttendTrace {
    pub k_turned: Array,
    pub products: Array,
    pub scaled: Array,
    pub mask: Array,
    pub scores: Array,
    pub single: Array,
    pub soft: Array,
    pub weights: Array,
    pub mixed: Array,
    pub ordered: Array,
}

/// Attending, with its intermediate results: queries times keys over the root of the width, masked
/// where asked for, a softmax in single precision, times values, brought into order and projected.
pub open spec fn attend_steps(
    a: Attention,
    b: usize,
    s: usize,
    q: Array,
    k: Array,
    v: Array,
    masked: bool,
    t: AttendTrace,
    r: Array,
) -> bool {
    let n_rep = (a.num_heads / a.num_kv_heads) as int;
    let all_k = repeated(k, n_rep);
    let all_v = repeated(v, n_rep);
    &&& is_permuted(all_k, exchanged(all_k.dims.len(), 2, 3), t.k_turned)
    &&& matmul_result(q, t.k_turned, t.products)
    &&& over_result(t.products, root_of(a.head_dim as i64), t.scaled)
    &&& if masked {
        mask_result(s, t.scaled.kind, t.mask) && broadcast_add_result(t.scaled, t.mask, t.scores)
    } else {
        t.scores == t.scaled
    }
    &&& cast_to(t.scores, single(), t.single)
    &&& softmax_result(t.single, t.soft)
    &&& cast_to(t.soft, t.scores.kind, t.weights)
    &&& matmul_result(t.weights, all_v, t.mixed)
    &&& heads_first(t.mixed, t.ordered)
    &&& linear_forward(
        a.o_proj,
        under(t.ordered, seq![b, s, (a.num_heads * a.head_dim) as usize]),
        r,
    )
}

/// `r` is what attending gave.
pub open spec fn attend_result(
    a: Attention,
    b: usize,
    s: usize,
    q: Array,
    k: Array,
    v: Array,
    masked: bool,
    r: Array,
) -> bool {
    exists|t: AttendTrace| #[trigger] attend_steps(a, b, s, q, k, v, masked, t, r)
}

/// A step from the products of queries and keys to the scores can be refused.
pub open spec fn scores_refused(a: Attention, s: usize, products: Array, masked: bool) -> bool {
    let root = root_of(a.head_dim as i64);
    ||| over_refused(products, root)
    ||| masked && exists|scaled: Array| #[trigger]
        over_result(products, root, scaled) && {
            ||| mask_refused(s, scaled.kind)
            ||| exists|mask: Array| #[trigger]
                mask_result(s, scaled.kind, mask) && broadcast_add_refused(scaled, mask)
        }
}

/// `scores` are what products of queries and keys gave, divided and masked.
pub open spec fn scores_result(
    a: Attention,
    s: usize,
    products: Array,
    masked: bool,
    scores: Array,
) -> bool {
    exists|scaled: Array| #[trigger]
        over_result(products, root_of(a.head_dim as i64), scaled) && if masked {
            exists|mask: Array| #[trigger]
                mask_result(s, scaled.kind, mask) && broadcast_add_result(scaled, mask, scores)
        } else {
            scores == scaled
        }
}

/// A step from the scores to the values that they weigh can be refused.
pub open spec fn mixing_refused(scores: Array, v: Array) -> bool {
    ||| cast_refused(scores, single())
    ||| exists|input: Array| #[trigger]
        cast_to(scores, single(), input) && {
            ||| softmax_refused(input)
            ||| exists|soft: Array| #[trigger]
                softmax_result(input, soft) && {
                    ||| cast_refused(soft, scores.kind)
                    ||| exists|weights: Array| #[trigger]
                        cast_to(soft, scores.kind, weights) && matmul_refused(weights, v)
                }
        }
}

/// `mixed` are values, weighed by a softmax of the scores in single precision.
pub open spec fn mixing_result(scores: Array, v: Array, mixed: Array) -> bool {
    exists|input: Array, soft: Array, weights: Array|
        {
            &&& #[trigger] cast_to(scores, single(), input)
            &&& #[trigger] softmax_result(input, soft)
            &&& #[trigger] cast_to(soft, scores.kind, weights)
            &&& matmul_result(weights, v, mixed)
        }
}

/// A step from weighed values to the result can be refused.
pub open spec fn leaving_refused(a: Attention, b: usize, s: usize, mixed: Array) -> bool {
    let wide = seq![b, s, (a.num_heads * a.head_dim) as usize];
    ||| heads_refused(mixed)
    ||| exists|ordered: Array| #[trigger]
        heads_first(mixed, ordered) && (reshape_refused(ordered, wide) || linear_forward_refused(
            a.o_proj,
            under(ordered, wide),
        ))
}

/// A step of attending can be refused.
pub open spec fn attend_refused(
    a: Attention,
    b: usize,
    s: usize,
    q: Array,
    k: Array,
    v: Array,
    masked: bool,
) -> bool {
    let n_rep = (a.num_heads / a.num_kv_heads) as int;
    let all_k = repeated(k, n_rep);
    let all_v = repeated(v, n_rep);
    ||| repeating_refused(k, n_rep)
    ||| repeating_refused(v, n_rep)
    ||| all_k.dims.len() < 4
    ||| exists|turned: Array| #[trigger]
        is_permuted(all_k, exchanged(all_k.dims.len(), 2, 3), turned) && {
            ||| matmul_refused(q, turned)
            ||| exists|products: Array| #[trigger]
                matmul_result(q, turned, products) && {
                    ||| scores_refused(a, s, products, masked)
                    ||| exists|scores: Array| #[trigger]
                        scores_result(a, s, products, masked, scores) && {
                            ||| mixing_refused(scores, all_v)
                            ||| exists|mixed: Array| #[trigger]
                                mixing_result(scores, all_v, mixed) && leaving_refused(
                                    a,
                                    b,
                                    s,
                                    mixed,
                                )
                        }
                }
        }
}

/// Attention over a text on its own is refused where there are not three axes; a step of it can be
/// refused too.
pub open spec fn attention_refused(a: Attention, x: Array, start: int) -> bool {
    ||| x.dims.len() != 3
    ||| project_refused(a, x, start)
    ||| exists|q: Array, k: Array, v: Array| #[trigger]
        project_result(a, x, start, q, k, v) && attend_refused(
            a,
            x.dims[0],
            x.dims[1],
            q,
            k,
            v,
            true,
        )
}

/// Attention over a text behind cached positions is refused where there are not three axes; a step
/// of it can be refused too. The cache stays as it is, unless it is attending that fails: it has
/// then taken up the keys and values of the text.
pub open spec fn cached_attention_refused(
    a: Attention,
    x: Array,
    start: int,
    before: Option<(Array, Array)>,
    after: Option<(Array, Array)>,
) -> bool {
    ||| after == before && x.dims.len() != 3
    ||| after == before && project_refused(a, x, start)
    ||| exists|q: Array, k: Array, v: Array| #[trigger]
        project_result(a, x, start, q, k, v) && match before {
            Some((ck, cv)) => {
                ||| after == before && (pair_refused(ck, k, 2) || pair_refused(cv, v, 2))
                ||| {
                    &&& after == Some((cat_pair(ck, k, 2), cat_pair(cv, v, 2)))
                    &&& attend_refused(
                        a,
                        x.dims[0],
                        x.dims[1],
                        q,
                        cat_pair(ck, k, 2),
                        cat_pair(cv, v, 2),
                        false,
                    )
                }
            },
            None => after == Some((k, v)) && attend_refused(
                a,
                x.dims[0],
                x.dims[1],
                q,
                k,
                v,
                true,
            ),
        }
}

/// `r` is what attention gave for a text on its own.
pub open spec fn attention_result(a: Attention, x: Array, start: int, r: Array) -> bool {
    exists|q: Array, k: Array, v: Array|
        project_result(a, x, start, q, k, v) && #[trigger] attend_result(
            a,
            x.dims[0],
            x.dims[1],
            q,
            k,
            v,
            true,
            r,
        )
}

/// `r` and the new keys and values are what attention gave for a text behind cached positions. Without
/// any it is masked; otherwise its keys and values are put behind the cached ones.
pub open spec fn cached_attention_result(
    a: Attention,
    x: Array,
    start: int,
    before: Option<(Array, Array)>,
    after: (Array, Array),
    r: Array,
) -> bool {
    exists|q: Array, k: Array, v: Array|
        {
            &&& #[trigger] project_result(a, x, start, q, k, v)
            &&& after == match before {
                None => (k, v),
                Some((ck, cv)) => (cat_pair(ck, k, 2), cat_pair(cv, v, 2)),
            }
            &&& attend_result(
                a,
                x.dims[0],
                x.dims[1],
                q,
                after.0,
                after.1,
                before is None,
                r,
            )
        }
}

/// What a cache holds.
pub open spec fn cached(c: LayerKvCache) -> Option<(Array, Array)> {
    match (c.k, c.v) {
        (Some(k), Some(v)) => Some((array(k), array(v))),
        _ => None,
    }
}

/// The weights of attention are those of their names.
pub open spec fn attention_from(c: Qwen3Config, w: Weights, a: Attention) -> bool {
    let q = (c.num_attention_heads * c.head_dim) as usize;
    let kv = (c.num_key_value_heads * c.head_dim) as usize;
    &&& sub_linear_from(w, "q_proj"@, c.hidden_size, q, a.q_proj)
    &&& sub_linear_from(w, "k_proj"@, c.hidden_size, kv, a.k_proj)
    &&& sub_linear_from(w, "v_proj"@, c.hidden_size, kv, a.v_proj)
    &&& sub_linear_from(w, "o_proj"@, q, c.hidden_size, a.o_proj)
    &&& sub_norm_from(w, "q_norm"@, c.head_dim, c.rms_norm_eps, a.q_norm)
    &&& sub_norm_from(w, "k_norm"@, c.head_dim, c.rms_norm_eps, a.k_norm)
    &&& a.num_heads == c.num_attention_heads
    &&& a.num_kv_heads == c.num_key_value_heads
    &&& a.head_dim == c.head_dim
}

/// A weight of attention can be refused.
pub open spec fn attention_missing(c: Qwen3Config, w: Weights) -> bool {
    let q = (c.num_attention_heads * c.head_dim) as usize;
    let kv = (c.num_key_value_heads * c.head_dim) as usize;
    ||| sub_linear_missing(w, "q_proj"@, c.hidden_size, q)
    ||| sub_linear_missing(w, "k_proj"@, c.hidden_size, kv)
    ||| sub_linear_missing(w, "v_proj"@, c.hidden_size, kv)
    ||| sub_linear_missing(w, "o_proj"@, q, c.hidden_size)
    ||| sub_rms_missing(w, "q_norm"@, c.head_dim)
    ||| sub_rms_missing(w, "k_norm"@, c.head_dim)
}

/// A linear map under one more part of the prefix.
fn sub_linear(vb: &Weights, part: &str, in_dim: usize, out_dim: usize) -> (r: Result<
    LinearLayer,
    Error,
>)
    ensures
        r matches Ok(l) ==> sub_linear_from(*vb, part@, in_dim, out_dim, l),
        r is Err ==> sub_linear_missing(*vb, part@, in_dim, out_dim),
{
    let s = vb.pp(part);
    assert(sub_weights(*vb, part@, s));
    let l = linear_no_bias(in_dim, out_dim, &s)?;
    Ok(l)
}

/// A normalization under one more part of the prefix.
fn sub_norm(vb: &Weights, part: &str, size: usize, eps: Scalar) -> (r: Result<RmsNorm, Error>)
    ensures
        r matches Ok(n) ==> sub_norm_from(*vb, part@, size, eps, n),
        r is Err ==> sub_rms_missing(*vb, part@, size),
{
    let s = vb.pp(part);
    assert(sub_weights(*vb, part@, s));
    let n = RmsNorm::load(size, eps, &s)?;
    Ok(n)
}

fn bring_heads_first(x: &Tensor) -> (r: Result<Tensor, Error>)
    ensures
        r matches Ok(y) ==> heads_first(array(*x), array(y)),
        r is Err ==> heads_refused(array(*x)),
{
    let swapped = swap_axes(x, 1, 2)?;
    assert(heads_first(array(*x), array(swapped)));
    contiguous(&swapped)
}

impl Attention {
    /// Widths can be counted, and there is a head for keys and values.
    pub open spec fn wf(self) -> bool {
        &&& self.num_heads * self.head_dim <= usize::MAX
        &&& self.num_kv_heads >= 1
        &&& self.head_dim <= i64::MAX
    }

    /// The attention of weights.
    pub fn new(config: &Qwen3Config, vb: &Weights, rope: RotaryEmbedding) -> (r: Result<
        Attention,
        Error,
    >)
        requires
            config.wf(),
        ensures
            r matches Ok(a) ==> a.wf() && a.rope == rope && attention_from(*config, *vb, a),
            r is Err ==> attention_missing(*config, *vb),
    {
        let hidden: usize = config.hidden_size;
        assert(0 <= config.num_attention_heads * config.head_dim) by (nonlinear_arith);
        assert(0 <= config.num_key_value_heads * config.head_dim) by (nonlinear_arith);
        let q_width: usize = config.num_attention_heads * config.head_dim;
        let kv_width: usize = config.num_key_value_heads * config.head_dim;
        let q_proj = sub_linear(vb, "q_proj", hidden, q_width)?;
        let k_proj = sub_linear(vb, "k_proj", hidden, kv_width)?;
        let v_proj = sub_linear(vb, "v_proj", hidden, kv_width)?;
        let o_proj = sub_linear(vb, "o_proj", q_width, hidden)?;
        let q_norm = sub_norm(vb, "q_norm", config.head_dim, config.rms_norm_eps)?;
        let k_norm = sub_norm(vb, "k_norm", config.head_dim, config.rms_norm_eps)?;
        Ok(
            Attention {
                q_proj,
                k_proj,
                v_proj,
                o_proj,
                q_norm,
                k_norm,
                num_heads: config.num_attention_heads,
                num_kv_heads: config.num_key_value_heads,
                head_dim: config.head_dim,
                rope,
            },
        )
    }

    fn project(&self, x: &Tensor, start_pos: usize, b: usize, s: usize) -> (r: Result<
        (Tensor, Tensor, Tensor),
        Error,
    >)
        requires
            b == tensor_dims(*x)[0],
            s == tensor_dims(*x)[1],
        ensures
            r matches Ok((q, k, v)) ==> project_result(
                *self,
                array(*x),
                start_pos as int,
                array(q),
                array(k),
                array(v),
            ),
            r is Err ==> project_refused(*self, array(*x), start_pos as int),
    {
        let q0 = self.q_proj.forward(x)?;
        let k0 = self.k_proj.forward(x)?;
        let v0 = self.v_proj.forward(x)?;
        let q1 = reshaped(&q0, four(b, s, self.num_heads, self.head_dim))?;
        let k1 = reshaped(&k0, four(b, s, self.num_kv_heads, self.head_dim))?;
        let v1 = reshaped(&v0, four(b, s, self.num_kv_heads, self.head_dim))?;
        let q2 = self.q_norm.forward(&q1)?;
        let k2 = self.k_norm.forward(&k1)?;
        let q3 = bring_heads_first(&q2)?;
        let k3 = bring_heads_first(&k2)?;
        let v = bring_heads_first(&v1)?;
        let q = self.rope.apply(&q3, start_pos)?;
        let k = self.rope.apply(&k3, start_pos)?;
        proof {
            let t = ProjectTrace {
                q: array(q0),
                k: array(k0),
                v: array(v0),
                q_normed: array(q2),
                k_normed: array(k2),
                q_heads: array(q3),
                k_heads: array(k3),
            };
            assert(project_steps(
                *self,
                array(*x),
                start_pos as int,
                t,
                array(q),
                array(k),
                array(v),
            ));
        }
        Ok((q, k, v))
    }

    fn attend(&self, b: usize, s: usize, q: &Tensor, k: &Tensor, v: &Tensor, masked: bool) -> (r:
        Result<Tensor, Error>)
        requires
            self.wf(),
        ensures
            r matches Ok(y) ==> attend_result(
                *self,
                b,
                s,
                array(*q),
                array(*k),
                array(*v),
                masked,
                array(y),
            ),
            r is Err ==> attend_refused(*self, b, s, array(*q), array(*k), array(*v), masked),
    {
        let n_rep: usize = self.num_heads / self.num_kv_heads;
        let all_k = repeat_kv(k, n_rep)?;
        let all_v = repeat_kv(v, n_rep)?;
        let k_turned = swap_axes(&all_k, 2, 3)?;
        let products = matmul(q, &k_turned)?;
        let root = square_root(self.head_dim as i64)?;
        let scaled = over(&products, &root)?;
        let ghost mut mask_array = array(scaled);
        let scores = if masked {
            let mask = create_causal_mask(s, device_of(&scaled), dtype_of(&scaled))?;
            proof {
                mask_array = array(mask);
            }
            broadcast_add(&scaled, &mask)?
        } else {
            share(&scaled)
        };
        assert(scores_result(*self, s, array(products), masked, array(scores)));
        let single = cast(&scores, single_precision())?;
        let soft = softmax_last(&single)?;
        let weights = cast(&soft, dtype_of(&scores))?;
        let mixed = matmul(&weights, &all_v)?;
        assert(mixing_result(array(scores), array(all_v), array(mixed)));
        let ordered = bring_heads_first(&mixed)?;
        assert(0 <= self.num_heads * self.head_dim) by (nonlinear_arith);
        let flat = reshaped(&ordered, three(b, s, self.num_heads * self.head_dim))?;
        let r = self.o_proj.forward(&flat)?;
        proof {
            let t = AttendTrace {
                k_turned: array(k_turned),
                products: array(products),
                scaled: array(scaled),
                mask: mask_array,
                scores: array(scores),
                single: array(single),
                soft: array(soft),
                weights: array(weights),
                mixed: array(mixed),
                ordered: array(ordered),
            };
            assert(attend_steps(
                *self,
                b,
                s,
                array(*q),
                array(*k),
                array(*v),
                masked,
                t,
                array(r),
            ));
        }
        Ok(r)
    }

    /// Attention over a text on its own. The axes are texts, positions and entries.
    pub fn forward(&self, x: &Tensor, start_pos: usize) -> (r: Result<Tensor, Error>)
        requires
            self.wf(),
        ensures
            r is Ok ==> tensor_dims(*x).len() == 3,
            r matches Ok(y) ==> attention_result(*self, array(*x), start_pos as int, array(y)),
            r is Err ==> attention_refused(*self, array(*x), start_pos as int),
    {
        let d = dims(x);
        if d.len() != 3 {
            return refuse(x);
        }
        let (q, k, v) = self.project(x, start_pos, d[0], d[1])?;
        let r = self.attend(d[0], d[1], &q, &k, &v, true)?;
        assert(attend_result(
            *self,
            array(*x).dims[0],
            array(*x).dims[1],
            array(q),
            array(k),
            array(v),
            true,
            array(r),
        ));
        Ok(r)
    }

    /// Attention over a text behind the positions of a cache, which takes up those of the text.
    pub fn forward_with_cache(&self, x: &Tensor, start_pos: usize, cache: &mut LayerKvCache) -> (r:
        Result<Tensor, Error>)
        requires
            self.wf(),
            old(cache).wf(),
        ensures
            final(cache).wf(),
            r is Ok ==> tensor_dims(*x).len() == 3,
            r matches Ok(y) ==> cached(*final(cache)) is Some && cached_attention_result(
                *self,
                array(*x),
                start_pos as int,
                cached(*old(cache)),
                cached(*final(cache))->0,
                array(y),
            ),
            r is Err ==> cached_attention_refused(
                *self,
                array(*x),
                start_pos as int,
                cached(*old(cache)),
                cached(*final(cache)),
            ),
    {
        let d = dims(x);
        if d.len() != 3 {
            return refuse(x);
        }
        let (q, k, v) = self.project(x, start_pos, d[0], d[1])?;
        let ghost before = cached(*cache);
        let (all_k, all_v, masked) = match (&cache.k, &cache.v) {
            (Some(ck), Some(cv)) => (cat_two(ck, &k, 2)?, cat_two(cv, &v, 2)?, false),
            _ => (share(&k), share(&v), true),
        };
        let ghost after = (array(all_k), array(all_v));
        cache.k = Some(share(&all_k));
        cache.v = Some(share(&all_v));
        assert(cached(*cache) == Some(after));
        let r = self.attend(d[0], d[1], &q, &all_k, &all_v, masked)?;
        proof {
            assert(attend_result(
                *self,
                array(*x).dims[0],
                array(*x).dims[1],
                array(q),
                after.0,
                after.1,
                before is None,
                array(r),
            ));
        }
        Ok(r)
    }
}

/// The values in a cache count the positions of all texts so far: those that were kept and those of the
/// text. So `n - 1` positions and one more make `n`.
pub proof fn law_cached_values_count_positions(
    a: Attention,
    x: Array,
    start: int,
    before: Option<(Array, Array)>,
    after: (Array, Array),
    r: Array,
)
    requires
        cached_attention_result(a, x, start, before, after, r),
        before matches Some(kept) ==> kept.1.dims.len() == 4 && kept.1.dims[2] + x.dims[1]
            <= usize::MAX,
    ensures
        after.1.dims.len() == 4,
        after.1.dims[2] == x.dims[1] + match before {
            Some(kept) => kept.1.dims[2] as int,
            None => 0,
        },
{
    let (q, k, v) = choose|q: Array, k: Array, v: Array|
        {
            &&& #[trigger] project_result(a, x, start, q, k, v)
            &&& after == match before {
                None => (k, v),
                Some((ck, cv)) => (cat_pair(ck, k, 2), cat_pair(cv, v, 2)),
            }
            &&& attend_result(
                a,
                x.dims[0],
                x.dims[1],
                q,
                after.0,
                after.1,
                before is None,
                r,
            )
        };
    let t = choose|t: ProjectTrace| #[trigger] project_steps(a, x, start, t, q, k, v);
    let cut = under(t.v, seq![x.dims[0], x.dims[1], a.num_kv_heads, a.head_dim]);
    assert(heads_first(cut, v));
    assert(cut.dims.len() == 4);
    assert(exchanged(4, 1, 2)[2] == 1);
    assert(v.dims[2] == x.dims[1]);
}

/// The cache grows by the positions of the text: for every text and head `o`, the entries of the
/// positions that were kept stay in front, and those of the new positions follow.
pub proof fn law_cache_grows(before: Array, k: Array, o: int, m: int)
    requires
        before.dims.len() == 4,
        k.dims == before.dims.update(2, k.dims[2]),
        before.dims[2] + k.dims[2] <= usize::MAX,
        0 <= o < before.dims[0] * before.dims[1],
        0 <= m < (before.dims[2] + k.dims[2]) * before.dims[3],
    ensures
        cat_pair(before, k, 2).dims == before.dims.update(2, (before.dims[2] + k.dims[2]) as usize),
        cat_pair(before, k, 2).elems[o * ((before.dims[2] + k.dims[2]) * before.dims[3]) + m]
            == if m < before.dims[2] * before.dims[3] {
            before.elems[o * (before.dims[2] * before.dims[3]) + m]
        } else {
            k.elems[o * (k.dims[2] * before.dims[3]) + m - before.dims[2] * before.dims[3]]
        },
{
    let w = before.dims[3] as int;
    let kept = before.dims[2] as int;
    let new = k.dims[2] as int;
    assert(before.dims.skip(3) =~= seq![before.dims[3]]);
    crate::tensor::lemma_volume_vector(before.dims[3]);
    assert(before.dims.take(2) =~= seq![before.dims[0], before.dims[1]]);
    crate::tensor::lemma_volume_matrix(before.dims[0], before.dims[1]);
    let part = kept * w + new * w;
    assert(part == (kept + new) * w) by (nonlinear_arith)
        requires
            part == kept * w + new * w,
    ;
    lemma_division(o, part, m);
    let outer = before.dims[0] * before.dims[1];
    assert(0 <= o * part + m < outer * part) by (nonlinear_arith)
        requires
            0 <= o < outer,
            0 <= m < part,
    ;
}

// ---------------------------------------------------------------------------
// Feed-forward and the layer as a whole
// ---------------------------------------------------------------------------

/// A gated feed-forward network.
pub struct MLP {
    pub gate_proj: LinearLayer,
    pub up_proj: LinearLayer,
    pub down_proj: LinearLayer,
}

/// The intermediate results of a gated network.
pub struct MlpTrace {
    pub gate: Array,
    pub opened: Array,
    pub up: Array,
    pub gated: Array,
}

/// A gated network, with its intermediate results.
pub open spec fn mlp_steps(m: MLP, x: Array, t: MlpTrace, r: Array) -> bool {
    &&& linear_forward(m.gate_proj, x, t.gate)
    &&& silu_result(t.gate, t.opened)
    &&& linear_forward(m.up_proj, x, t.up)
    &&& mul_result(t.opened, t.up, t.gated)
    &&& linear_forward(m.down_proj, t.gated, r)
}

/// `r` is what a gated network gave for `x`.
pub open spec fn mlp_result(m: MLP, x: Array, r: Array) -> bool {
    exists|t: MlpTrace| #[trigger] mlp_steps(m, x, t, r)
}

/// A step of a gated network can be refused for `x`.
pub open spec fn mlp_refused(m: MLP, x: Array) -> bool {
    ||| linear_forward_refused(m.gate_proj, x)
    ||| linear_forward_refused(m.up_proj, x)
    ||| exists|gate: Array| #[trigger]
        linear_forward(m.gate_proj, x, gate) && {
            ||| silu_refused(gate)
            ||| exists|opened: Array, up: Array| #[trigger]
                silu_result(gate, opened) && #[trigger] linear_forward(m.up_proj, x, up) && {
                    ||| mul_refused(opened, up)
                    ||| exists|gated: Array| #[trigger]
                        mul_result(opened, up, gated) && linear_forward_refused(
                            m.down_proj,
                            gated,
                        )
                }
        }
}

/// A weight of a gated network can be refused.
pub open spec fn mlp_missing(c: Qwen3Config, w: Weights) -> bool {
    ||| sub_linear_missing(w, "gate_proj"@, c.hidden_size, c.intermediate_size)
    ||| sub_linear_missing(w, "up_proj"@, c.hidden_size, c.intermediate_size)
    ||| sub_linear_missing(w, "down_proj"@, c.intermediate_size, c.hidden_size)
}

/// The weights of a gated network are those of their names.
pub open spec fn mlp_from(c: Qwen3Config, w: Weights, m: MLP) -> bool {
    &&& sub_linear_from(w, "gate_proj"@, c.hidden_size, c.intermediate_size, m.gate_proj)
    &&& sub_linear_from(w, "up_proj"@, c.hidden_size, c.intermediate_size, m.up_proj)
    &&& sub_linear_from(w, "down_proj"@, c.intermediate_size, c.hidden_size, m.down_proj)
}

impl MLP {
    /// The network of weights.
    pub fn new(config: &Qwen3Config, vb: &Weights) -> (r: Result<MLP, Error>)
        ensures
            r matches Ok(m) ==> mlp_from(*config, *vb, m),
            r is Err ==> mlp_missing(*config, *vb),
    {
        let hidden: usize = config.hidden_size;
        let wide: usize = config.intermediate_size;
        let gate_proj = sub_linear(vb, "gate_proj", hidden, wide)?;
        let up_proj = sub_linear(vb, "up_proj", hidden, wide)?;
        let down_proj = sub_linear(vb, "down_proj", wide, hidden)?;
        Ok(MLP { gate_proj, up_proj, down_proj })
    }

    /// Applies the network to the last axis.
    pub fn forward(&self, x: &Tensor) -> (r: Result<Tensor, Error>)
        ensures
            r matches Ok(y) ==> mlp_result(*self, array(*x), array(y)),
            r is Err ==> mlp_refused(*self, array(*x)),
    {
        let gate = self.gate_proj.forward(x)?;
        let opened = silu(&gate)?;
        let up = self.up_proj.forward(x)?;
        let gated = product(&opened, &up)?;
        let r = self.down_proj.forward(&gated)?;
        proof {
            let t = MlpTrace {
                gate: array(gate),
                opened: array(opened),
                up: array(up),
                gated: array(gated),
            };
            assert(mlp_steps(*self, array(*x), t, array(r)));
        }
        Ok(r)
    }
}

/// A layer of the decoder.
pub struct DecoderLayer {
    pub self_attn: Attention,
    pub mlp: MLP,
    pub input_layernorm: RmsNorm,
    pub post_attention_layernorm: RmsNorm,
}

/// `r` is what the second half of a layer gave: a normalization and a gated network, added to `x`.
pub open spec fn second_half(l: DecoderLayer, x: Array, r: Array) -> bool {
    exists|normed: Array, out: Array|
        rms_forward(l.post_attention_layernorm, x, normed) && #[trigger] mlp_result(
            l.mlp,
            normed,
            out,
        ) && add_result(x, out, r)
}

/// A step of the second half of a layer can be refused.
pub open spec fn second_half_refused(l: DecoderLayer, x: Array) -> bool {
    ||| rms_refused(l.post_attention_layernorm, x)
    ||| exists|normed: Array| #[trigger]
        rms_forward(l.post_attention_layernorm, x, normed) && {
            ||| mlp_refused(l.mlp, normed)
            ||| exists|out: Array| #[trigger]
                mlp_result(l.mlp, normed, out) && add_refused(x, out)
        }
}

/// A step of a layer over a text on its own can be refused.
pub open spec fn layer_forward_refused(l: DecoderLayer, x: Array, start: int) -> bool {
    ||| rms_refused(l.input_layernorm, x)
    ||| exists|normed: Array| #[trigger]
        rms_forward(l.input_layernorm, x, normed) && {
            ||| attention_refused(l.self_attn, normed, start)
            ||| exists|out: Array| #[trigger]
                attention_result(l.self_attn, normed, start, out) && rest_refused(l, x, out)
        }
}

/// Adding what attention gave, or a step of the second half, can be refused.
pub open spec fn rest_refused(l: DecoderLayer, x: Array, out: Array) -> bool {
    ||| add_refused(x, out)
    ||| exists|mid: Array| #[trigger] add_result(x, out, mid) && second_half_refused(l, mid)
}

/// A step of a layer over a text behind cached positions can be refused. The cache then holds what
/// it held, or the keys and values of the text too.
pub open spec fn cached_layer_refused(
    l: DecoderLayer,
    x: Array,
    start: int,
    before: Option<(Array, Array)>,
    after: Option<(Array, Array)>,
) -> bool {
    ||| after == before && rms_refused(l.input_layernorm, x)
    ||| exists|normed: Array| #[trigger]
        rms_forward(l.input_layernorm, x, normed) && {
            ||| cached_attention_refused(l.self_attn, normed, start, before, after)
            ||| after is Some && exists|out: Array| #[trigger]
                cached_attention_result(l.self_attn, normed, start, before, after->0, out)
                    && rest_refused(l, x, out)
        }
}

/// A weight of a layer can be refused.
pub open spec fn decoder_layer_missing(c: Qwen3Config, w: Weights) -> bool {
    ||| exists|s: Weights| #[trigger] sub_weights(w, "self_attn"@, s) && attention_missing(c, s)
    ||| exists|s: Weights| #[trigger] sub_weights(w, "mlp"@, s) && mlp_missing(c, s)
    ||| sub_rms_missing(w, "input_layernorm"@, c.hidden_size)
    ||| sub_rms_missing(w, "post_attention_layernorm"@, c.hidden_size)
}

/// `r` is what a layer gave for a text on its own.
pub open spec fn layer_forward(l: DecoderLayer, x: Array, start: int, r: Array) -> bool {
    exists|normed: Array, out: Array, mid: Array|
        rms_forward(l.input_layernorm, x, normed) && #[trigger] attention_result(
            l.self_attn,
            normed,
            start,
            out,
        ) && add_result(x, out, mid) && #[trigger] second_half(l, mid, r)
}

/// `r` and the new keys and values are what a layer gave for a text behind cached positions.
pub open spec fn cached_layer_forward(
    l: DecoderLayer,
    x: Array,
    start: int,
    before: Option<(Array, Array)>,
    after: (Array, Array),
    r: Array,
) -> bool {
    exists|normed: Array, out: Array, mid: Array|
        rms_forward(l.input_layernorm, x, normed) && #[trigger] cached_attention_result(
            l.self_attn,
            normed,
            start,
            before,
            after,
            out,
        ) && add_result(x, out, mid) && #[trigger] second_half(l, mid, r)
}

/// The weights of a layer are those of their names.
pub open spec fn decoder_layer_from(c: Qwen3Config, w: Weights, l: DecoderLayer) -> bool {
    &&& exists|s: Weights| #[trigger]
        sub_weights(w, "self_attn"@, s) && attention_from(c, s, l.self_attn)
    &&& exists|s: Weights| #[trigger] sub_weights(w, "mlp"@, s) && mlp_from(c, s, l.mlp)
    &&& sub_norm_from(w, "input_layernorm"@, c.hidden_size, c.rms_norm_eps, l.input_layernorm)
    &&& sub_norm_from(
        w,
        "post_attention_layernorm"@,
        c.hidden_size,
        c.rms_norm_eps,
        l.post_attention_layernorm,
    )
}

impl DecoderLayer {
    /// The layer of weights.
    pub fn new(config: &Qwen3Config, vb: &Weights, rope: RotaryEmbedding) -> (r: Result<
        DecoderLayer,
        Error,
    >)
        requires
            config.wf(),
        ensures
            r matches Ok(l) ==> l.self_attn.wf() && l.self_attn.rope == rope && decoder_layer_from(
                *config,
                *vb,
                l,
            ),
            r is Err ==> decoder_layer_missing(*config, *vb),
    {
        let attn_vb = vb.pp("self_attn");
        assert(sub_weights(*vb, "self_attn"@, attn_vb));
        let self_attn = Attention::new(config, &attn_vb, rope)?;
        let mlp_vb = vb.pp("mlp");
        assert(sub_weights(*vb, "mlp"@, mlp_vb));
        let mlp = MLP::new(config, &mlp_vb)?;
        let input_layernorm = sub_norm(
            vb,
            "input_layernorm",
            config.hidden_size,
            config.rms_norm_eps,
        )?;
        let post_attention_layernorm = sub_norm(
            vb,
            "post_attention_layernorm",
            config.hidden_size,
            config.rms_norm_eps,
        )?;
        Ok(DecoderLayer { self_attn, mlp, input_layernorm, post_attention_layernorm })
    }

    fn finish(&self, x: &Tensor) -> (r: Result<Tensor, Error>)
        ensures
            r matches Ok(y) ==> second_half(*self, array(*x), array(y)),
            r is Err ==> second_half_refused(*self, array(*x)),
    {
        let normed = self.post_attention_layernorm.forward(x)?;
        let out = self.mlp.forward(&normed)?;
        let r = sum(x, &out)?;
        Ok(r)
    }

    /// The layer over a text on its own.
    pub fn forward(&self, x: &Tensor, start_pos: usize) -> (r: Result<Tensor, Error>)
        requires
            self.self_attn.wf(),
        ensures
            r matches Ok(y) ==> layer_forward(*self, array(*x), start_pos as int, array(y)),
            r is Err ==> layer_forward_refused(*self, array(*x), start_pos as int),
    {
        let normed = self.input_layernorm.forward(x)?;
        let out = self.self_attn.forward(&normed, start_pos)?;
        let mid = sum(x, &out)?;
        self.finish(&mid)
    }

    /// The layer over a text behind the positions of a cache.
    pub fn forward_with_cache(&self, x: &Tensor, start_pos: usize, cache: &mut LayerKvCache) -> (r:
        Result<Tensor, Error>)
        requires
            self.self_attn.wf(),
            old(cache).wf(),
        ensures
            final(cache).wf(),
            r matches Ok(y) ==> cached(*final(cache)) is Some && cached_layer_forward(
                *self,
                array(*x),
                start_pos as int,
                cached(*old(cache)),
                cached(*final(cache))->0,
                array(y),
            ),
            r is Err ==> cached_layer_refused(
                *self,
                array(*x),
                start_pos as int,
                cached(*old(cache)),
                cached(*final(cache)),
            ),
    {
        let normed = self.input_layernorm.forward(x)?;
        let out = self.self_attn.forward_with_cache(&normed, start_pos, cache)?;
        let mid = sum(x, &out)?;
        self.finish(&mid)
    }
}

// ---------------------------------------------------------------------------
// What a layer leaves of its input
// ---------------------------------------------------------------------------

/// Bringing heads before positions moves no entry within a head: entry `e` of head `h` at position `s` of
/// text `b` stands where the order of axes is text, head, position and entry.
pub proof fn law_heads_come_before_positions(x: Array, r: Array, b: int, s: int, h: int, e: int)
    requires
        heads_first(x, r),
        x.dims.len() == 4,
        0 <= b < x.dims[0],
        0 <= s < x.dims[1],
        0 <= h < x.dims[2],
        0 <= e < x.dims[3],
    ensures
        r.dims == seq![x.dims[0], x.dims[2], x.dims[1], x.dims[3]],
        r.elems[((b * x.dims[2] + h) * x.dims[1] + s) * x.dims[3] + e] == x.elems[((b * x.dims[1]
            + s) * x.dims[2] + h) * x.dims[3] + e],
{
    let order = exchanged(4, 1, 2);
    let from = seq![b, s, h, e];
    let to = seq![b, h, s, e];
    assert(order[0] == 0 && order[1] == 2 && order[2] == 1 && order[3] == 3);
    assert(r.dims =~= seq![x.dims[0], x.dims[2], x.dims[1], x.dims[3]]);
    lemma_offset_of_four(x.dims, from);
    lemma_offset_of_four(r.dims, to);
    assert(is_index(x.dims, from));
    assert(is_index(r.dims, to));
    assert forall|i: int| 0 <= i < order.len() implies to[i] == from[#[trigger] order[i] as int] by {
        if i == 0 {
        } else if i == 1 {
        } else if i == 2 {
        }
    }
    assert(r.elems[offset(r.dims, to)] == x.elems[offset(x.dims, from)]);
}

/// What normalization gives.
pub open spec fn rms_block(n: RmsNorm) -> spec_fn(Array, Array) -> bool {
    |x: Array, y: Array| rms_forward(n, x, y)
}

/// What attention over a text on its own gives.
pub open spec fn attention_block(a: Attention, start: int) -> spec_fn(Array, Array) -> bool {
    |x: Array, y: Array| attention_result(a, x, start, y)
}

/// What attention over a text behind cached positions gives.
pub open spec fn cached_block(
    a: Attention,
    start: int,
    before: Option<(Array, Array)>,
    after: (Array, Array),
) -> spec_fn(Array, Array) -> bool {
    |x: Array, y: Array| cached_attention_result(a, x, start, before, after, y)
}

/// What a gated network gives.
pub open spec fn mlp_block(m: MLP) -> spec_fn(Array, Array) -> bool {
    |x: Array, y: Array| mlp_result(m, x, y)
}

/// The first half of a layer: attention behind its normalization.
pub open spec fn attending_half(
    l: DecoderLayer,
    attention: spec_fn(Array, Array) -> bool,
) -> spec_fn(Array, Array) -> bool {
    in_turn(rms_block(l.input_layernorm), attention)
}

/// The second half of a layer: the gated network behind its normalization.
pub open spec fn feeding_half(l: DecoderLayer) -> spec_fn(Array, Array) -> bool {
    in_turn(rms_block(l.post_attention_layernorm), mlp_block(l.mlp))
}

proof fn lemma_second_half(l: DecoderLayer, x: Array, r: Array)
    requires
        second_half(l, x, r),
    ensures
        with_way_around(feeding_half(l))(x, r),
{
    let (normed, out) = choose|normed: Array, out: Array|
        rms_forward(l.post_attention_layernorm, x, normed) && #[trigger] mlp_result(
            l.mlp,
            normed,
            out,
        ) && add_result(x, out, r);
    assert(rms_block(l.post_attention_layernorm)(x, normed));
    assert(mlp_block(l.mlp)(normed, out));
    assert(feeding_half(l)(x, out));
}

/// Attention and the gated network stand behind one another, each with its own normalization before it and a
/// way around both, whether positions are cached or not.
pub proof fn law_halves_have_ways_around(
    l: DecoderLayer,
    x: Array,
    start: int,
    before: Option<(Array, Array)>,
    after: (Array, Array),
    r: Array,
)
    ensures
        layer_forward(l, x, start, r) ==> exists|m: Array| #[trigger]
            with_way_around(attending_half(l, attention_block(l.self_attn, start)))(x, m)
                && with_way_around(feeding_half(l))(m, r),
        cached_layer_forward(l, x, start, before, after, r) ==> exists|m: Array| #[trigger]
            with_way_around(attending_half(l, cached_block(l.self_attn, start, before, after)))(
                x,
                m,
            ) && with_way_around(feeding_half(l))(m, r),
{
    if layer_forward(l, x, start, r) {
        let (normed, out, mid) = choose|normed: Array, out: Array, mid: Array|
            rms_forward(l.input_layernorm, x, normed) && #[trigger] attention_result(
                l.self_attn,
                normed,
                start,
                out,
            ) && add_result(x, out, mid) && #[trigger] second_half(l, mid, r);
        let block = attention_block(l.self_attn, start);
        assert(rms_block(l.input_layernorm)(x, normed));
        assert(block(normed, out));
        assert(attending_half(l, block)(x, out));
        assert(with_way_around(attending_half(l, block))(x, mid));
        lemma_second_half(l, mid, r);
    }
    if cached_layer_forward(l, x, start, before, after, r) {
        let (normed, out, mid) = choose|normed: Array, out: Array, mid: Array|
            rms_forward(l.input_layernorm, x, normed) && #[trigger] cached_attention_result(
                l.self_attn,
                normed,
                start,
                before,
                after,
                out,
            ) && add_result(x, out, mid) && #[trigger] second_half(l, mid, r);
        let block = cached_block(l.self_attn, start, before, after);
        assert(rms_block(l.input_layernorm)(x, normed));
        assert(block(normed, out));
        assert(attending_half(l, block)(x, out));
        assert(with_way_around(attending_half(l, block))(x, mid));
        lemma_second_half(l, mid, r);
    }
}

/// A layer whose halves give zeros leaves every number of its input as it is, whether positions are cached
/// or not.
pub proof fn law_silent_layers_change_nothing(
    l: DecoderLayer,
    x: Array,
    start: int,
    before: Option<(Array, Array)>,
    after: (Array, Array),
    r: Array,
)
    requires
        gives_zeros(feeding_half(l)),
        all_ordinary(x),
        x.elems.len() == volume(x.dims),
    ensures
        layer_forward(l, x, start, r) && gives_zeros(
            attending_half(l, attention_block(l.self_attn, start)),
        ) ==> same_numbers(x, r),
        cached_layer_forward(l, x, start, before, after, r) && gives_zeros(
            attending_half(l, cached_block(l.self_attn, start, before, after)),
        ) ==> same_numbers(x, r),
{
    law_halves_have_ways_around(l, x, start, before, after, r);
    let plain = attending_half(l, attention_block(l.self_attn, start));
    let behind = attending_half(l, cached_block(l.self_attn, start, before, after));
    if layer_forward(l, x, start, r) && gives_zeros(plain) {
        let m = choose|m: Array| #[trigger]
            with_way_around(plain)(x, m) && with_way_around(feeding_half(l))(m, r);
        lemma_way_around_zeros(plain, x, m);
        lemma_way_around_zeros(feeding_half(l), m, r);
        lemma_same_numbers(x, m, r);
    }
    if cached_layer_forward(l, x, start, before, after, r) && gives_zeros(behind) {
        let m = choose|m: Array| #[trigger]
            with_way_around(behind)(x, m) && with_way_around(feeding_half(l))(m, r);
        lemma_way_around_zeros(behind, x, m);
        lemma_way_around_zeros(feeding_half(l), m, r);
        lemma_same_numbers(x, m, r);
    }
}

// ---------------------------------------------------------------------------
// What attention weighs
// ---------------------------------------------------------------------------

/// `y` holds the entries of `p` by head: entry `e` of head `h` at position `j` of text `i` is entry `h width
/// + e` of that position.
pub open spec fn entries_by_head(
    p: Array,
    texts: usize,
    len: usize,
    heads: usize,
    width: usize,
    y: Array,
) -> bool {
    &&& y.dims == seq![texts, heads, len, width]
    &&& forall|i: int, j: int, h: int, e: int|
        #![trigger y.elems[((i * heads + h) * len + j) * width + e]]
        0 <= i < texts && 0 <= j < len && 0 <= h < heads && 0 <= e < width ==> y.elems[((i * heads
            + h) * len + j) * width + e] == p.elems[((i * len + j) * heads + h) * width + e]
}

/// Putting entries in order by head is what bringing heads before positions does.
pub proof fn lemma_entries_by_head(
    p: Array,
    texts: usize,
    len: usize,
    heads: usize,
    width: usize,
    y: Array,
)
    requires
        heads_first(under(p, seq![texts, len, heads, width]), y),
    ensures
        entries_by_head(p, texts, len, heads, width, y),
{
    let x = under(p, seq![texts, len, heads, width]);
    assert(y.dims =~= seq![texts, heads, len, width]) by {
        let order = exchanged(4, 1, 2);
        assert(order[0] == 0 && order[1] == 2 && order[2] == 1 && order[3] == 3);
    }
    assert forall|i: int, j: int, h: int, e: int|
        #![trigger y.elems[((i * heads + h) * len + j) * width + e]]
        0 <= i < texts && 0 <= j < len && 0 <= h < heads && 0 <= e < width implies y.elems[((i
        * heads + h) * len + j) * width + e] == p.elems[((i * len + j) * heads + h) * width + e] by {
        law_heads_come_before_positions(x, y, i, j, h, e);
    }
}

/// `flat` holds the entries of `y` by position, where they came by head.
pub open spec fn entries_by_position(
    y: Array,
    texts: usize,
    len: usize,
    heads: usize,
    width: usize,
    flat: Array,
) -> bool {
    &&& flat.dims == seq![texts, len, (heads * width) as usize]
    &&& y.dims == seq![texts, heads, len, width] ==> forall|i: int, j: int, h: int, e: int|
        #![trigger flat.elems[((i * len + j) * heads + h) * width + e]]
        0 <= i < texts && 0 <= j < len && 0 <= h < heads && 0 <= e < width ==> flat.elems[((i * len
            + j) * heads + h) * width + e] == y.elems[((i * heads + h) * len + j) * width + e]
}

/// Putting entries back in order by position is what bringing positions before heads does.
pub proof fn lemma_entries_by_position(
    y: Array,
    ordered: Array,
    texts: usize,
    len: usize,
    heads: usize,
    width: usize,
)
    requires
        heads_first(y, ordered),
    ensures
        entries_by_position(
            y,
            texts,
            len,
            heads,
            width,
            under(ordered, seq![texts, len, (heads * width) as usize]),
        ),
{
    let flat = under(ordered, seq![texts, len, (heads * width) as usize]);
    if y.dims == seq![texts, heads, len, width] {
        assert forall|i: int, j: int, h: int, e: int|
            #![trigger flat.elems[((i * len + j) * heads + h) * width + e]]
            0 <= i < texts && 0 <= j < len && 0 <= h < heads && 0 <= e < width implies flat.elems[((
        i * len + j) * heads + h) * width + e] == y.elems[((i * heads + h) * len + j) * width
            + e] by {
            law_heads_come_before_positions(y, ordered, i, h, j, e);
        }
    }
}

/// `turned` holds in its columns what `k` holds in its rows, for every text and head.
pub open spec fn rows_as_columns(k: Array, turned: Array) -> bool {
    k.dims.len() == 4 ==> {
        &&& turned.dims == seq![k.dims[0], k.dims[1], k.dims[3], k.dims[2]]
        &&& forall|i: int, h: int, j: int, e: int|
            #![trigger turned.elems[((i * k.dims[1] + h) * k.dims[3] + e) * k.dims[2] + j]]
            0 <= i < k.dims[0] && 0 <= h < k.dims[1] && 0 <= j < k.dims[2] && 0 <= e < k.dims[3]
                ==> turned.elems[((i * k.dims[1] + h) * k.dims[3] + e) * k.dims[2] + j]
                == k.elems[((i * k.dims[1] + h) * k.dims[2] + j) * k.dims[3] + e]
    }
}

/// Exchanging the last two of four axes turns rows into columns.
pub proof fn lemma_rows_as_columns(k: Array, turned: Array)
    requires
        is_permuted(k, exchanged(k.dims.len(), 2, 3), turned),
    ensures
        rows_as_columns(k, turned),
{
    if k.dims.len() == 4 {
        let order = exchanged(4, 2, 3);
        assert(order[0] == 0 && order[1] == 1 && order[2] == 3 && order[3] == 2);
        assert(turned.dims =~= seq![k.dims[0], k.dims[1], k.dims[3], k.dims[2]]);
        assert forall|i: int, h: int, j: int, e: int|
            #![trigger turned.elems[((i * k.dims[1] + h) * k.dims[3] + e) * k.dims[2] + j]]
            0 <= i < k.dims[0] && 0 <= h < k.dims[1] && 0 <= j < k.dims[2] && 0 <= e
                < k.dims[3] implies turned.elems[((i * k.dims[1] + h) * k.dims[3] + e) * k.dims[2]
            + j] == k.elems[((i * k.dims[1] + h) * k.dims[2] + j) * k.dims[3] + e] by {
            let from = seq![i, h, j, e];
            let to = seq![i, h, e, j];
            lemma_offset_of_four(k.dims, from);
            lemma_offset_of_four(turned.dims, to);
            assert(is_index(k.dims, from));
            assert(is_index(turned.dims, to));
            assert forall|n: int| 0 <= n < order.len() implies to[n] == from[#[trigger] order[n] as int] by {
                if n == 0 {
                } else if n == 1 {
                } else if n == 2 {
                }
            }
            assert(turned.elems[offset(turned.dims, to)] == k.elems[offset(k.dims, from)]);
        }
    }
}

/// `scores` tell how well queries and keys agree: their products over the root of their width.
pub open spec fn agreement(q: Array, k: Array, width: i64, scores: Array) -> bool {
    exists|turned: Array, products: Array|
        {
            &&& rows_as_columns(k, turned)
            &&& #[trigger] matmul_result(q, turned, products)
            &&& over_result(products, root_of(width), scores)
        }
}

/// `mixed` are values, each weighed by the softmax of its score. The softmax is in single precision.
pub open spec fn values_by_score(scores: Array, v: Array, mixed: Array) -> bool {
    exists|exact: Array, soft: Array, weights: Array|
        {
            &&& #[trigger] cast_to(scores, single(), exact)
            &&& #[trigger] softmax_result(exact, soft)
            &&& #[trigger] cast_to(soft, scores.kind, weights)
            &&& matmul_result(weights, v, mixed)
        }
}

/// `scores` hide the future of a text of `len` positions where they are masked.
pub open spec fn without_future(scaled: Array, len: usize, masked: bool, scores: Array) -> bool {
    if masked {
        exists|mask: Array|
            {
                &&& #[trigger] mask_result(len, scaled.kind, mask)
                &&& broadcast_add_result(scaled, mask, scores)
            }
    } else {
        scores == scaled
    }
}

/// Attending weighs values by the agreement of queries and keys, the future hidden where it is masked. Each
/// head of keys and values serves as many heads of queries as there are for one, and what the heads give
/// stands side by side at every position.
pub proof fn law_values_are_weighed_by_agreement(
    a: Attention,
    b: usize,
    s: usize,
    q: Array,
    k: Array,
    v: Array,
    masked: bool,
    r: Array,
)
    requires
        attend_result(a, b, s, q, k, v, masked, r),
    ensures
        exists|scaled: Array, scores: Array, mixed: Array, flat: Array|
            {
                &&& #[trigger] agreement(
                    q,
                    repeated(k, a.num_heads as int / a.num_kv_heads as int),
                    a.head_dim as i64,
                    scaled,
                )
                &&& #[trigger] without_future(scaled, s, masked, scores)
                &&& #[trigger] values_by_score(
                    scores,
                    repeated(v, a.num_heads as int / a.num_kv_heads as int),
                    mixed,
                )
                &&& #[trigger] entries_by_position(mixed, b, s, a.num_heads, a.head_dim, flat)
                &&& linear_forward(a.o_proj, flat, r)
            },
{
    let t = choose|t: AttendTrace| #[trigger] attend_steps(a, b, s, q, k, v, masked, t, r);
    let n_rep = a.num_heads as int / a.num_kv_heads as int;
    let all_k = repeated(k, n_rep);
    let all_v = repeated(v, n_rep);
    lemma_rows_as_columns(all_k, t.k_turned);
    lemma_entries_by_position(t.mixed, t.ordered, b, s, a.num_heads, a.head_dim);
    let flat = under(t.ordered, seq![b, s, (a.num_heads * a.head_dim) as usize]);
    assert(agreement(q, all_k, a.head_dim as i64, t.scaled));
    assert(without_future(t.scaled, s, masked, t.scores));
    assert(values_by_score(t.scores, all_v, t.mixed));
    assert(entries_by_position(t.mixed, b, s, a.num_heads, a.head_dim, flat));
}

/// `r` holds the entries of `x` with heads before positions.
pub open spec fn heads_swapped(x: Array, r: Array) -> bool {
    x.dims.len() == 4 ==> entries_by_head(x, x.dims[0], x.dims[1], x.dims[2], x.dims[3], r)
}

proof fn lemma_heads_swapped(x: Array, r: Array)
    requires
        heads_first(x, r),
    ensures
        heads_swapped(x, r),
{
    if x.dims.len() == 4 {
        let d = seq![x.dims[0], x.dims[1], x.dims[2], x.dims[3]];
        assert(x.dims =~= d);
        assert(under(x, d) == x);
        lemma_entries_by_head(x, x.dims[0], x.dims[1], x.dims[2], x.dims[3], r);
    }
}

/// `r` are queries or keys of `x` from position `start` on: projected, normalized head by head, and turned by
/// their positions.
pub open spec fn placed_heads(
    l: LinearLayer,
    n: RmsNorm,
    rope: RotaryEmbedding,
    x: Array,
    heads: usize,
    width: usize,
    start: int,
    r: Array,
) -> bool {
    exists|p: Array, normed: Array, swapped: Array|
        {
            &&& #[trigger] linear_forward(l, x, p)
            &&& rms_forward(n, under(p, seq![x.dims[0], x.dims[1], heads, width]), normed)
            &&& #[trigger] heads_swapped(normed, swapped)
            &&& #[trigger] rotary_forward(rope, swapped, start, r)
        }
}

/// Queries and keys are normalized and turned by their positions, each with weights of its own; values are
/// projected alone. There are fewer heads of keys and values than of queries.
pub proof fn law_queries_and_keys_know_their_positions(
    a: Attention,
    x: Array,
    start: int,
    q: Array,
    k: Array,
    v: Array,
)
    requires
        project_result(a, x, start, q, k, v),
    ensures
        placed_heads(a.q_proj, a.q_norm, a.rope, x, a.num_heads, a.head_dim, start, q),
        placed_heads(a.k_proj, a.k_norm, a.rope, x, a.num_kv_heads, a.head_dim, start, k),
        exists|p: Array| #[trigger]
            linear_forward(a.v_proj, x, p) && entries_by_head(
                p,
                x.dims[0],
                x.dims[1],
                a.num_kv_heads,
                a.head_dim,
                v,
            ),
{
    let t = choose|t: ProjectTrace| #[trigger] project_steps(a, x, start, t, q, k, v);
    lemma_heads_swapped(t.q_normed, t.q_heads);
    lemma_heads_swapped(t.k_normed, t.k_heads);
    lemma_entries_by_head(t.v, x.dims[0], x.dims[1], a.num_kv_heads, a.head_dim, v);
    assert(linear_forward(a.q_proj, x, t.q));
    assert(linear_forward(a.k_proj, x, t.k));
    assert(linear_forward(a.v_proj, x, t.v));
    assert(rotary_forward(a.rope, t.q_heads, start, q));
    assert(rotary_forward(a.rope, t.k_heads, start, k));
}

/// A text behind cached positions is attended with all of them in front of its own, and without a mask. The
/// first text is masked, and its keys and values are what is cached.
pub proof fn law_cached_positions_come_first(
    a: Attention,
    x: Array,
    start: int,
    before: Option<(Array, Array)>,
    after: (Array, Array),
    r: Array,
)
    requires
        cached_attention_result(a, x, start, before, after, r),
    ensures
        exists|q: Array, k: Array, v: Array|
            {
                &&& #[trigger] project_result(a, x, start, q, k, v)
                &&& before is None ==> after.0 == k && after.1 == v && attend_result(
                    a,
                    x.dims[0],
                    x.dims[1],
                    q,
                    k,
                    v,
                    true,
                    r,
                )
                &&& before matches Some(kept) ==> {
                    &&& after.0 == cat_pair(kept.0, k, 2)
                    &&& after.1 == cat_pair(kept.1, v, 2)
                    &&& attend_result(
                        a,
                        x.dims[0],
                        x.dims[1],
                        q,
                        after.0,
                        after.1,
                        false,
                        r,
                    )
                }
            },
{
}

/// A gated network multiplies its inner entries by those of a second map behind an activation, and leads down
/// from their products.
pub proof fn law_second_map_weighs_the_first(m: MLP, x: Array, r: Array)
    requires
        mlp_result(m, x, r),
    ensures
        exists|gate: Array, through: Array, up: Array, weighed: Array|
            {
                &&& #[trigger] linear_forward(m.gate_proj, x, gate)
                &&& #[trigger] linear_forward(m.up_proj, x, up)
                &&& #[trigger] silu_result(gate, through)
                &&& #[trigger] mul_result(through, up, weighed)
                &&& linear_forward(m.down_proj, weighed, r)
            },
{
    let t = choose|t: MlpTrace| #[trigger] mlp_steps(m, x, t, r);
    assert(linear_forward(m.gate_proj, x, t.gate));
    assert(linear_forward(m.up_proj, x, t.up));
    assert(silu_result(t.gate, t.opened));
    assert(mul_result(t.opened, t.up, t.gated));
}

/// The maps of attention and of the gated network are the tensors of their own names. Queries and what comes
/// out are as wide as all heads of queries, keys and values as their own.
pub proof fn law_weights_have_their_names(c: Qwen3Config, w: WeightStore, a: Attention, m: MLP)
    requires
        c.wf(),
        attention_from(c, Weights::Standard(w), a),
        mlp_from(c, Weights::Standard(w), m),
    ensures
        map_named(
            w,
            "q_proj"@ + ".weight"@,
            c.hidden_size,
            (c.num_attention_heads * c.head_dim) as usize,
            a.q_proj,
        ),
        map_named(
            w,
            "k_proj"@ + ".weight"@,
            c.hidden_size,
            (c.num_key_value_heads * c.head_dim) as usize,
            a.k_proj,
        ),
        map_named(
            w,
            "v_proj"@ + ".weight"@,
            c.hidden_size,
            (c.num_key_value_heads * c.head_dim) as usize,
            a.v_proj,
        ),
        map_named(
            w,
            "o_proj"@ + ".weight"@,
            (c.num_attention_heads * c.head_dim) as usize,
            c.hidden_size,
            a.o_proj,
        ),
        map_named(
            w,
            "gate_proj"@ + ".weight"@,
            c.hidden_size,
            c.intermediate_size,
            m.gate_proj,
        ),
        map_named(w, "up_proj"@ + ".weight"@, c.hidden_size, c.intermediate_size, m.up_proj),
        map_named(w, "down_proj"@ + ".weight"@, c.intermediate_size, c.hidden_size, m.down_proj),
{
    let q = (c.num_attention_heads * c.head_dim) as usize;
    let kv = (c.num_key_value_heads * c.head_dim) as usize;
    law_maps_have_full_names(w, "q_proj"@, c.hidden_size, q, a.q_proj);
    law_maps_have_full_names(w, "k_proj"@, c.hidden_size, kv, a.k_proj);
    law_maps_have_full_names(w, "v_proj"@, c.hidden_size, kv, a.v_proj);
    law_maps_have_full_names(w, "o_proj"@, q, c.hidden_size, a.o_proj);
    law_maps_have_full_names(w, "gate_proj"@, c.hidden_size, c.intermediate_size, m.gate_proj);
    law_maps_have_full_names(w, "up_proj"@, c.hidden_size, c.intermediate_size, m.up_proj);
    law_maps_have_full_names(w, "down_proj"@, c.intermediate_size, c.hidden_size, m.down_proj);
}

} // verus!
