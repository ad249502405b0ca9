//! The tensor operations of `candle_core` that the decoders are built on.
//!
//! A tensor is seen as its extents and its elements in row-major order. Operations that only move
//! elements are described exactly. Operations that round (products, sums, activations) may give
//! different last bits on different processors; for those a relation says which operands went in
//! and which result came out, beside the extents, and nothing is claimed of the numbers.
//!
//! Whether a device carries an operation out cannot be foretold either. What can be refused is named
//! too, so that a failure is traced to the operation and the operands that it came of.
//!
//! The library never writes to a tensor in place, so the elements of a tensor stay as they are.
use candle_core::scalar::Scalar;
use candle_core::{DType, Device, Error, Tensor};
use vstd::prelude::*;

verus! {

/// `candle_core::Tensor`.
#[verifier::external_type_specification]
#[verifier::external_body]
pub struct ExTensor(candle_core::Tensor);

/// `candle_core::Error`.
#[verifier::external_type_specification]
#[verifier::external_body]
pub struct ExCandleError(candle_core::Error);

/// `candle_core::Device`.
#[verifier::external_type_specification]
#[verifier::external_body]
pub struct ExDevice(candle_core::Device);

/// `candle_core::DType`.
#[verifier::external_type_specification]
#[verifier::external_body]
pub struct ExDType(candle_core::DType);

/// The extents of a tensor.
pub uninterp spec fn tensor_dims(t: Tensor) -> Seq<usize>;

/// The elements of a tensor in row-major order, each by its bit pattern.
pub uninterp spec fn tensor_elems(t: Tensor) -> Seq<int>;

/// The element type of a tensor, by its number.
pub uninterp spec fn tensor_kind(t: Tensor) -> int;

/// Where a tensor lives.
pub uninterp spec fn tensor_device(t: Tensor) -> Device;

/// The number of an element type. Different types have different numbers.
pub uninterp spec fn kind_of(d: DType) -> int;

/// The number of the single-precision element type.
pub open spec fn single() -> int {
    0
}

/// The number of the element type with half the precision and the same range.
pub open spec fn brain_half() -> int {
    1
}

/// The number of the double-precision element type.
pub open spec fn double() -> int {
    2
}

/// The number of the element type of unsigned integers of 32 bits.
pub open spec fn index_kind() -> int {
    3
}

/// Extents, elements and their type.
#[verifier::ext_equal]
pub struct Array {
    pub dims: Seq<usize>,
    pub elems: Seq<int>,
    pub kind: int,
}

/// What a tensor holds.
pub open spec fn array(t: Tensor) -> Array {
    Array { dims: tensor_dims(t), elems: tensor_elems(t), kind: tensor_kind(t) }
}

/// What tensors hold.
pub open spec fn arrays(ts: Seq<Tensor>) -> Seq<Array> {
    ts.map_values(|t: Tensor| array(t))
}

/// The number of elements that extents leave room for.
pub open spec fn volume(dims: Seq<usize>) -> nat
    decreases dims.len(),
{
    if dims.len() == 0 {
        1
    } else {
        volume(dims.drop_last()) * (dims.last() as nat)
    }
}

/// Multiplying the extents one after another overflows somewhere.
pub open spec fn countless(dims: Seq<usize>) -> bool {
    exists|i: int| 0 <= i <= dims.len() && volume(#[trigger] dims.take(i)) > usize::MAX
}

// ---------------------------------------------------------------------------
// Moving elements
// ---------------------------------------------------------------------------

/// All elements zero.
pub open spec fn zeros_array(dims: Seq<usize>, kind: int) -> Array {
    Array { dims, elems: Seq::new(volume(dims), |k: int| 0), kind }
}

/// Indices `start..start + len` along axis `axis`.
pub open spec fn narrow_array(a: Array, axis: int, start: int, len: int) -> Array {
    let inner = volume(a.dims.skip(axis + 1)) as int;
    let whole = a.dims[axis] * inner;
    let part = len * inner;
    Array {
        dims: a.dims.update(axis, len as usize),
        elems: Seq::new(
            (volume(a.dims.take(axis)) * part) as nat,
            |k: int| a.elems[(k / part) * whole + start * inner + k % part],
        ),
        kind: a.kind,
    }
}

/// Two arrays after one another along axis `axis`.
pub open spec fn cat_pair(a: Array, b: Array, axis: int) -> Array {
    let inner = volume(a.dims.skip(axis + 1)) as int;
    let from_a = a.dims[axis] * inner;
    let from_b = b.dims[axis] * inner;
    let part = from_a + from_b;
    Array {
        dims: a.dims.update(axis, (a.dims[axis] + b.dims[axis]) as usize),
        elems: Seq::new(
            (volume(a.dims.take(axis)) * part) as nat,
            |k: int|
                if k % part < from_a {
                    a.elems[(k / part) * from_a + k % part]
                } else {
                    b.elems[(k / part) * from_b + k % part - from_a]
                },
        ),
        kind: a.kind,
    }
}

/// Arrays after one another along axis `axis`.
pub open spec fn cat_array(parts: Seq<Array>, axis: int) -> Array
    decreases parts.len(),
{
    if parts.len() <= 1 {
        parts[0]
    } else {
        cat_pair(cat_array(parts.drop_last(), axis), parts.last(), axis)
    }
}

/// The sum of the extents along an axis.
pub open spec fn total_extent(parts: Seq<Array>, axis: int) -> int
    decreases parts.len(),
{
    if parts.len() == 0 {
        0
    } else {
        total_extent(parts.drop_last(), axis) + parts.last().dims[axis]
    }
}

/// Rows and columns of a matrix exchanged.
pub open spec fn transposed(a: Array) -> Array {
    let rows = a.dims[0] as int;
    let cols = a.dims[1] as int;
    Array {
        dims: seq![a.dims[1], a.dims[0]],
        elems: Seq::new((rows * cols) as nat, |k: int| a.elems[(k % rows) * cols + k / rows]),
        kind: a.kind,
    }
}

/// An extent of one put in.
pub open spec fn with_axis(a: Array, axis: int) -> Array {
    Array { dims: a.dims.insert(axis, 1), elems: a.elems, kind: a.kind }
}

/// An extent of one put in front.
pub open spec fn with_batch(a: Array) -> Array {
    with_axis(a, 0)
}

/// One extent dropped where it is one.
pub open spec fn without_axis(a: Array, axis: int) -> Array {
    if a.dims[axis] == 1 {
        Array { dims: a.dims.remove(axis), elems: a.elems, kind: a.kind }
    } else {
        a
    }
}

/// The first extent dropped where it is one.
pub open spec fn without_batch(a: Array) -> Array {
    without_axis(a, 0)
}

/// Row `i` along the first axis.
pub open spec fn row_array(a: Array, i: int) -> Array {
    let inner = volume(a.dims.skip(1)) as int;
    Array {
        dims: a.dims.skip(1),
        elems: a.elems.subrange(i * inner, i * inner + inner),
        kind: a.kind,
    }
}

/// `r` holds a row of the table for each index. Nothing is said of the row for an index past the
/// table, or for the greatest index there is.
pub open spec fn is_embedding(table: Array, ids: Seq<u32>, r: Array) -> bool {
    let width = table.dims[1] as int;
    &&& table.dims.len() == 2
    &&& r.dims == seq![ids.len() as usize, table.dims[1]]
    &&& r.kind == table.kind
    &&& r.elems.len() == ids.len() * width
    &&& forall|k: int|
        0 <= k < r.elems.len() && ids[k / width] < table.dims[0] && ids[k / width] < u32::MAX
            ==> #[trigger] r.elems[k] == table.elems[ids[k / width] * width + k % width]
}

/// The extents of a vector.
pub(crate) fn one(a: usize) -> (r: Vec<usize>)
    ensures
        r@ == seq![a],
        volume(r@) == a,
        !countless(r@),
{
    let r: Vec<usize> = vec![a];
    proof {
        lemma_volume_vector(a);
        assert(r@ =~= seq![a]);
        lemma_countable_vector(a);
    }
    r
}

/// The extents of a matrix.
pub(crate) fn two(a: usize, b: usize) -> (r: Vec<usize>)
    ensures
        r@ == seq![a, b],
        volume(r@) == a * b,
        a * b <= usize::MAX ==> !countless(r@),
{
    let r: Vec<usize> = vec![a, b];
    proof {
        lemma_volume_matrix(a, b);
        assert(r@ =~= seq![a, b]);
        if a * b <= usize::MAX {
            lemma_countable_matrix(a, b);
        }
    }
    r
}

/// Three extents.
pub(crate) fn three(a: usize, b: usize, c: usize) -> (r: Vec<usize>)
    ensures
        r@ == seq![a, b, c],
{
    let r: Vec<usize> = vec![a, b, c];
    assert(r@ =~= seq![a, b, c]);
    r
}

/// Four extents.
pub(crate) fn four(a: usize, b: usize, c: usize, d: usize) -> (r: Vec<usize>)
    ensures
        r@ == seq![a, b, c, d],
{
    let r: Vec<usize> = vec![a, b, c, d];
    assert(r@ =~= seq![a, b, c, d]);
    r
}

/// A number split into full widths and a rest.
pub proof fn lemma_division(o: int, w: int, m: int)
    requires
        0 <= m < w,
    ensures
        (o * w + m) / w == o,
        (o * w + m) % w == m,
{
    vstd::arithmetic::div_mod::lemma_fundamental_div_mod_converse(o * w + m, w, o, m);
}

/// A vector has room for as many elements as its extent says.
pub proof fn lemma_volume_vector(a: usize)
    ensures
        volume(seq![a]) == a,
{
    let d = seq![a];
    assert(d.drop_last() =~= Seq::<usize>::empty());
    assert(volume(d.drop_last()) == 1);
    assert(volume(d) == volume(d.drop_last()) * (d.last() as nat));
}

/// The elements of a vector can be counted.
pub proof fn lemma_countable_vector(a: usize)
    ensures
        !countless(seq![a]),
{
    let d = seq![a];
    lemma_volume_vector(a);
    assert(d.take(0) =~= Seq::<usize>::empty());
    assert(d.take(1) =~= d);
}

/// The elements of a matrix can be counted where the product of its extents can.
pub proof fn lemma_countable_matrix(a: usize, b: usize)
    requires
        a * b <= usize::MAX,
    ensures
        !countless(seq![a, b]),
{
    let d = seq![a, b];
    lemma_volume_vector(a);
    lemma_volume_matrix(a, b);
    assert(d.take(0) =~= Seq::<usize>::empty());
    assert(d.take(1) =~= seq![a]);
    assert(d.take(2) =~= d);
}

/// A matrix has room for the product of its extents.
pub proof fn lemma_volume_matrix(a: usize, b: usize)
    ensures
        volume(seq![a, b]) == a * b,
{
    let d = seq![a, b];
    assert(d.drop_last() =~= seq![a]);
    lemma_volume_vector(a);
    assert(volume(d) == volume(d.drop_last()) * (d.last() as nat));
}

/// The elements of an array lie row by row along its first axis.
pub proof fn lemma_volume_rows(dims: Seq<usize>)
    requires
        dims.len() >= 1,
    ensures
        volume(dims) == dims[0] * volume(dims.skip(1)),
    decreases dims.len(),
{
    if dims.len() == 1 {
        assert(dims =~= seq![dims[0]]);
        lemma_volume_vector(dims[0]);
        assert(dims.skip(1) =~= Seq::<usize>::empty());
        assert(volume(dims.skip(1)) == 1);
        assert(dims[0] * 1 == dims[0]);
    } else {
        let front = dims.drop_last();
        lemma_volume_rows(front);
        assert(front.skip(1) =~= dims.skip(1).drop_last());
        assert(dims.skip(1).last() == dims.last());
        let a = dims[0] as int;
        let b = volume(front.skip(1)) as int;
        let c = dims.last() as int;
        assert((a * b) * c == a * (b * c)) by (nonlinear_arith);
        assert(volume(dims) == volume(front) * (dims.last() as nat));
        assert(volume(dims.skip(1)) == volume(dims.skip(1).drop_last()) * (dims.last() as nat));
    }
}

/// Part of an axis that is there.
pub open spec fn part_of_axis(dims: Seq<usize>, axis: usize, start: usize, len: usize) -> bool {
    axis < dims.len() && start + len <= dims[axis as int]
}

/// `Tensor::dims`: the extents. A tensor holds as many elements as they say.
#[verifier::external_body]
pub(crate) fn dims(t: &Tensor) -> (r: Vec<usize>)
    ensures
        r@ == tensor_dims(*t),
        tensor_elems(*t).len() == volume(r@),
{
    t.dims().to_vec()
}

/// The extents of a tensor.
pub fn shape(t: &Tensor) -> (r: Vec<usize>)
    ensures
        r@ == tensor_dims(*t),
{
    dims(t)
}

/// `Tensor::dim`: one extent. It is refused exactly where the axis does not exist.
#[verifier::external_body]
pub(crate) fn extent(t: &Tensor, axis: usize) -> (r: Result<usize, Error>)
    ensures
        r is Ok == (tensor_dims(*t).len() > axis),
        r matches Ok(n) ==> n == tensor_dims(*t)[axis as int],
{
    t.dim(axis)
}

/// `Tensor::clone`: another handle on the same data.
#[verifier::external_body]
pub(crate) fn share(t: &Tensor) -> (r: Tensor)
    ensures
        array(r) == array(*t),
        tensor_device(r) == tensor_device(*t),
{
    t.clone()
}

/// `Tensor::device`: where a tensor lives.
#[verifier::external_body]
pub(crate) fn device_of(t: &Tensor) -> (r: &Device)
    ensures
        *r == tensor_device(*t),
{
    t.device()
}

/// `Tensor::dtype`: the element type of a tensor.
#[verifier::external_body]
pub(crate) fn dtype_of(t: &Tensor) -> (r: DType)
    ensures
        kind_of(r) == tensor_kind(*t),
{
    t.dtype()
}

/// `DType::F32`: the single-precision element type.
#[verifier::external_body]
pub(crate) fn single_precision() -> (r: DType)
    ensures
        kind_of(r) == single(),
{
    DType::F32
}

/// Even of the widest elements, as many as the extents say can be laid out in memory.
pub open spec fn allocatable(dims: Seq<usize>) -> bool {
    8 * volume(dims) <= isize::MAX
}

/// Some device can refuse zeros of these extents and this type.
pub uninterp spec fn zeros_refused(dims: Seq<usize>, kind: int) -> bool;

/// `Tensor::zeros`: a tensor of zeros of the given type where it is asked for. There must be addresses
/// for that many, and multiplying the extents must not overflow on the way.
#[verifier::external_body]
pub(crate) fn zeros(dims: Vec<usize>, dtype: DType, device: &Device) -> (r: Result<Tensor, Error>)
    requires
        allocatable(dims@),
        !countless(dims@),
    ensures
        r matches Ok(t) ==> array(t) == zeros_array(dims@, kind_of(dtype)) && tensor_device(t)
            == *device,
        r is Err ==> zeros_refused(dims@, kind_of(dtype)),
{
    Tensor::zeros(dims, dtype, device)
}

/// `Tensor::narrow`: part of a tensor along one axis. It is refused exactly where the axis does not
/// exist or the part does not lie in its extent. The end of the part must be countable.
#[verifier::external_body]
fn raw_narrow(t: &Tensor, axis: usize, start: usize, len: usize) -> (r: Result<Tensor, Error>)
    requires
        start + len <= usize::MAX,
    ensures
        r is Ok == part_of_axis(tensor_dims(*t), axis, start, len),
        r matches Ok(n) ==> array(n) == narrow_array(
            array(*t),
            axis as int,
            start as int,
            len as int,
        ),
{
    t.narrow(axis, start, len)
}

/// An error: an axis is asked for that is not there.
pub(crate) fn refuse<T>(t: &Tensor) -> (r: Result<T, Error>)
    ensures
        r is Err,
    decreases 0int,
{
    let rank: usize = dims(t).len();
    match raw_narrow(t, rank, 0, 0) {
        Err(e) => Err(e),
        Ok(_) => refuse(t),
    }
}

/// Part of a tensor along one axis. It is refused exactly where the axis does not exist or the part
/// does not lie in its extent.
pub(crate) fn narrow(
    t: &Tensor,
    axis: usize,
    start: usize,
    len: usize,
) -> (r: Result<Tensor, Error>)
    ensures
        r is Ok == part_of_axis(tensor_dims(*t), axis, start, len),
        r matches Ok(n) ==> array(n) == narrow_array(
            array(*t),
            axis as int,
            start as int,
            len as int,
        ),
{
    if len > usize::MAX - start {
        return refuse(t);
    }
    raw_narrow(t, axis, start, len)
}

/// Part of the last axis.
pub(crate) fn narrow_last(t: &Tensor, start: usize, len: usize) -> (r: Result<Tensor, Error>)
    ensures
        r is Ok == (tensor_dims(*t).len() > 0 && start + len <= tensor_dims(*t).last()),
        r matches Ok(n) ==> array(n) == narrow_array(
            array(*t),
            tensor_dims(*t).len() - 1,
            start as int,
            len as int,
        ),
{
    let rank: usize = dims(t).len();
    narrow(
        t,
        if rank > 0 {
            rank - 1
        } else {
            0
        },
        start,
        len,
    )
}

/// Laying the elements of `a` out anew under these extents can be refused.
pub uninterp spec fn layout_refused(a: Array, dims: Seq<usize>) -> bool;

/// `Tensor::reshape` to given extents: the same elements under other extents with room for as
/// many. Multiplying the extents must not overflow anywhere. Elements that do not lie in row-major order are
/// copied, which the device can refuse.
#[verifier::external_body]
pub(crate) fn reshape(t: &Tensor, dims: Vec<usize>) -> (r: Result<Tensor, Error>)
    requires
        !countless(dims@),
    ensures
        r matches Ok(n) ==> array(n) == (Array { dims: dims@, ..array(*t) }) && volume(dims@)
            == volume(tensor_dims(*t)),
        r is Err ==> volume(dims@) != volume(tensor_dims(*t)) || layout_refused(array(*t), dims@),
{
    t.reshape(dims)
}

/// Laying `a` out in row-major order can be refused.
pub uninterp spec fn contiguous_refused(a: Array) -> bool;

/// The elements of a tensor lie in row-major order, without gaps.
pub uninterp spec fn row_major(t: Tensor) -> bool;

/// `Tensor::contiguous`: the same tensor laid out in row-major order. The device can refuse the
/// copy.
#[verifier::external_body]
pub(crate) fn contiguous(t: &Tensor) -> (r: Result<Tensor, Error>)
    ensures
        r matches Ok(n) ==> array(n) == array(*t) && row_major(n),
        r is Err ==> contiguous_refused(array(*t)),
{
    t.contiguous()
}

/// Putting arrays after one another along axis `axis` can be refused.
pub uninterp spec fn cat_refused(parts: Seq<Array>, axis: int) -> bool;

/// `Tensor::cat`: tensors after one another along one axis. At least one is needed, and where
/// there are more, all extents but those along the axis agree; their sum must not overflow.
#[verifier::external_body]
pub(crate) fn cat(parts: &Vec<Tensor>, axis: usize) -> (r: Result<Tensor, Error>)
    requires
        total_extent(arrays(parts@), axis as int) <= usize::MAX,
    ensures
        r matches Ok(n) ==> parts@.len() >= 1 && array(n) == cat_array(
            arrays(parts@),
            axis as int,
        ),
        r is Err ==> cat_refused(arrays(parts@), axis as int),
        r is Ok && parts@.len() > 1 ==> axis < tensor_dims(parts@[0]).len() && forall|i: int|
            0 <= i < parts@.len() ==> tensor_dims(#[trigger] parts@[i]) == tensor_dims(
                parts@[0],
            ).update(axis as int, tensor_dims(parts@[i])[axis as int]),
{
    Tensor::cat(parts.as_slice(), axis)
}

/// `Tensor::t` of a matrix: its transpose. It is refused exactly where the rank is below two; of a
/// rank above two nothing more is said.
#[verifier::external_body]
pub(crate) fn transpose(t: &Tensor) -> (r: Result<Tensor, Error>)
    ensures
        r is Ok == (tensor_dims(*t).len() >= 2),
        r matches Ok(n) ==> tensor_dims(*t).len() == 2 ==> array(n) == transposed(array(*t)),
{
    t.t()
}

/// `Tensor::unsqueeze`: the same tensor with one more axis, of extent one. It is refused exactly
/// where the place is past the axes.
#[verifier::external_body]
pub(crate) fn unsqueeze(t: &Tensor, axis: usize) -> (r: Result<Tensor, Error>)
    ensures
        r is Ok == (tensor_dims(*t).len() >= axis),
        r matches Ok(n) ==> array(n) == with_axis(
            array(*t),
            axis as int,
        ) && tensor_device(n) == tensor_device(*t),
{
    t.unsqueeze(axis)
}

/// The same tensor with one more axis in front, of extent one.
pub(crate) fn add_batch(t: &Tensor) -> (r: Result<Tensor, Error>)
    ensures
        r is Ok,
        r matches Ok(n) ==> array(n) == with_batch(array(*t)),
{
    unsqueeze(t, 0)
}

/// The number of elements that extents leave room for, if multiplying them does not overflow.
pub(crate) fn count(extents: &Vec<usize>) -> (r: Option<usize>)
    ensures
        match r {
            Some(n) => n == volume(extents@) && !countless(extents@),
            None => countless(extents@),
        },
{
    let mut total: usize = 1;
    let mut i: usize = 0;
    assert(extents@.take(0).len() == 0);
    while i < extents.len()
        invariant
            i <= extents@.len(),
            total == volume(extents@.take(i as int)),
            forall|j: int| 0 <= j <= i ==> volume(#[trigger] extents@.take(j)) <= usize::MAX,
        decreases extents@.len() - i,
    {
        proof {
            assert(extents@.take(i + 1).drop_last() =~= extents@.take(i as int));
            assert(extents@.take(i + 1).last() == extents@[i as int]);
        }
        match total.checked_mul(extents[i]) {
            Some(n) => {
                total = n;
            },
            None => {
                assert(volume(extents@.take(i + 1)) > usize::MAX);
                return None;
            },
        }
        i += 1;
    }
    assert(extents@.take(extents@.len() as int) =~= extents@);
    Some(total)
}

/// Whether elements of these extents can be laid out in memory.
pub(crate) fn has_room(extents: &Vec<usize>) -> (r: bool)
    ensures
        r == (allocatable(extents@) && !countless(extents@)),
{
    match count(extents) {
        Some(n) => n <= isize::MAX as usize / 8,
        None => false,
    }
}

/// Putting `a` under these extents can be refused; where they do not leave room for as many
/// elements or cannot be counted, it always is.
pub open spec fn reshape_refused(a: Array, dims: Seq<usize>) -> bool {
    countless(dims) || volume(dims) != volume(a.dims) || layout_refused(a, dims)
}

/// The same elements under other extents with room for as many.
pub(crate) fn reshaped(t: &Tensor, extents: Vec<usize>) -> (r: Result<Tensor, Error>)
    ensures
        r matches Ok(n) ==> array(n) == (Array { dims: extents@, ..array(*t) }) && volume(extents@)
            == volume(tensor_dims(*t)),
        r is Err ==> reshape_refused(array(*t), extents@),
        r is Ok ==> !countless(extents@),
{
    match count(&extents) {
        Some(_) => reshape(t, extents),
        None => refuse(t),
    }
}

/// Putting two arrays after one another along axis `axis` can be refused; where the axis is missing
/// or grows past counting, it always is.
pub open spec fn pair_refused(a: Array, b: Array, axis: int) -> bool {
    ||| axis >= a.dims.len()
    ||| axis >= b.dims.len()
    ||| a.dims[axis] + b.dims[axis] > usize::MAX
    ||| cat_refused(seq![a, b], axis)
}

/// Two tensors after one another along one axis.
pub(crate) fn cat_two(a: &Tensor, b: &Tensor, axis: usize) -> (r: Result<Tensor, Error>)
    ensures
        r matches Ok(n) ==> array(n) == cat_pair(array(*a), array(*b), axis as int),
        r is Err ==> pair_refused(array(*a), array(*b), axis as int),
        r is Ok ==> axis < tensor_dims(*a).len() && tensor_dims(*b) == tensor_dims(*a).update(
            axis as int,
            tensor_dims(*b)[axis as int],
        ) && tensor_dims(*a)[axis as int] + tensor_dims(*b)[axis as int] <= usize::MAX,
{
    let x: usize = extent(a, axis)?;
    let y: usize = extent(b, axis)?;
    match x.checked_add(y) {
        None => refuse(a),
        Some(_) => {
            let parts: Vec<Tensor> = vec![share(a), share(b)];
            proof {
                let v = arrays(parts@);
                assert(v =~= seq![array(*a), array(*b)]);
                reveal_with_fuel(total_extent, 3);
                assert(v.drop_last() =~= seq![array(*a)]);
                assert(v.drop_last().drop_last() =~= Seq::<Array>::empty());
            }
            let r = cat(&parts, axis)?;
            proof {
                let v = arrays(parts@);
                assert(v =~= seq![array(*a), array(*b)]);
                reveal_with_fuel(cat_array, 3);
                assert(v.drop_last() =~= seq![array(*a)]);
                assert(tensor_dims(parts@[1]) == tensor_dims(parts@[0]).update(
                    axis as int,
                    tensor_dims(parts@[1])[axis as int],
                ));
            }
            Ok(r)
        },
    }
}

/// The place of an index among the elements in row-major order.
pub open spec fn offset(extents: Seq<usize>, index: Seq<int>) -> int
    decreases extents.len(),
{
    if extents.len() == 0 {
        0
    } else {
        offset(extents.drop_last(), index.drop_last()) * extents.last() + index.last()
    }
}

/// An index of an element.
pub open spec fn is_index(extents: Seq<usize>, index: Seq<int>) -> bool {
    index.len() == extents.len() && forall|i: int|
        0 <= i < index.len() ==> 0 <= #[trigger] index[i] < extents[i]
}

/// `r` holds the elements of `a` with its axes in another order: axis `i` of `r` is axis `order[i]` of
/// `a`.
pub open spec fn is_permuted(a: Array, order: Seq<usize>, r: Array) -> bool {
    &&& order.len() == a.dims.len()
    &&& forall|i: int| 0 <= i < order.len() ==> #[trigger] order[i] < a.dims.len()
    &&& r.dims == Seq::new(order.len(), |i: int| a.dims[order[i] as int])
    &&& r.kind == a.kind
    &&& r.elems.len() == volume(r.dims)
    &&& forall|from: Seq<int>, to: Seq<int>|
        #![trigger offset(a.dims, from), offset(r.dims, to)]
        is_index(a.dims, from) && is_index(r.dims, to) && (forall|i: int|
            0 <= i < order.len() ==> to[i] == from[#[trigger] order[i] as int])
            ==> r.elems[offset(r.dims, to)] == a.elems[offset(a.dims, from)]
}

/// Each axis comes once.
pub open spec fn is_order(order: Seq<usize>, rank: nat) -> bool {
    order.len() == rank && order.no_duplicates() && forall|i: int|
        0 <= i < rank ==> #[trigger] order[i] < rank
}

/// `Tensor::permute`: the same elements with the axes in another order. It is refused exactly where
/// an axis is missing or comes twice.
#[verifier::external_body]
pub(crate) fn permute(t: &Tensor, order: Vec<usize>) -> (r: Result<Tensor, Error>)
    ensures
        r is Ok == is_order(order@, tensor_dims(*t).len()),
        r matches Ok(n) ==> is_permuted(array(*t), order@, array(n)),
{
    t.permute(order)
}

/// `Tensor::squeeze`: the same tensor without one axis, where its extent is one. It is refused
/// exactly where the axis does not exist.
#[verifier::external_body]
pub(crate) fn squeeze(t: &Tensor, axis: usize) -> (r: Result<Tensor, Error>)
    ensures
        r is Ok == (tensor_dims(*t).len() > axis),
        r matches Ok(n) ==> array(n) == without_axis(array(*t), axis as int),
{
    t.squeeze(axis)
}

/// The same tensor without its first axis, where its extent is one.
pub(crate) fn drop_batch(t: &Tensor) -> (r: Result<Tensor, Error>)
    ensures
        r is Ok == (tensor_dims(*t).len() >= 1),
        r matches Ok(n) ==> array(n) == without_batch(array(*t)),
{
    squeeze(t, 0)
}

/// Copying row `i` along the first axis can be refused.
pub uninterp spec fn row_copy_refused(a: Array, i: int) -> bool;

/// Taking row `i` along the first axis can be refused; where there is no such row, it always is.
pub open spec fn row_refused(a: Array, i: int) -> bool {
    i >= a.dims[0] || row_copy_refused(a, i)
}

/// `Tensor::get`: row `i` along the first axis, which must be there. A row that does not lie in
/// row-major order is copied, which the device can refuse.
#[verifier::external_body]
pub(crate) fn row(t: &Tensor, i: usize) -> (r: Result<Tensor, Error>)
    requires
        tensor_dims(*t).len() >= 1,
    ensures
        r matches Ok(n) ==> i < tensor_dims(*t)[0] && array(n) == row_array(array(*t), i as int),
        r is Err ==> i >= tensor_dims(*t)[0] || row_copy_refused(array(*t), i as int),
{
    t.get(i)
}

/// Looking up rows of a table can be refused.
pub uninterp spec fn embed_refused(table: Array, ids: Seq<u32>) -> bool;

/// `Tensor::embedding` at given indices: a matrix of those rows of the table. For an index past the
/// table the outcome depends on the device; the greatest index there is stands for a row of zeros.
#[verifier::external_body]
pub(crate) fn embed(table: &Tensor, ids: &Vec<u32>) -> (r: Result<Tensor, Error>)
    ensures
        r matches Ok(n) ==> is_embedding(array(*table), ids@, array(n)),
        r is Err ==> embed_refused(array(*table), ids@),
{
    table.embedding(&Tensor::new(ids.as_slice(), table.device())?)
}

// ---------------------------------------------------------------------------
// Computing
// ---------------------------------------------------------------------------

/// `r` can come of a matrix product of `a` and `b`: a result, or none where it is refused.
pub uninterp spec fn matmul_outcome(a: Array, b: Array, r: Option<Array>) -> bool;

/// `r` is what a matrix product of `a` and `b` gave.
#[verifier::inline]
pub open spec fn matmul_result(a: Array, b: Array, r: Array) -> bool {
    matmul_outcome(a, b, Some(r))
}

/// A matrix product of `a` and `b` can be refused.
#[verifier::inline]
pub open spec fn matmul_refused(a: Array, b: Array) -> bool {
    matmul_outcome(a, b, None)
}

/// `r` can come of an elementwise sum of `a` and `b`, stretched to a common shape: a result, or
/// none where it is refused.
pub uninterp spec fn broadcast_add_outcome(a: Array, b: Array, r: Option<Array>) -> bool;

/// `r` is what an elementwise sum of `a` and `b`, stretched to a common shape, gave.
#[verifier::inline]
pub open spec fn broadcast_add_result(a: Array, b: Array, r: Array) -> bool {
    broadcast_add_outcome(a, b, Some(r))
}

/// An elementwise sum of `a` and `b`, stretched to a common shape, can be refused; of integers
/// it always is.
pub open spec fn broadcast_add_refused(a: Array, b: Array) -> bool {
    !computable(a, b) || broadcast_add_outcome(a, b, None)
}

/// `r` can come of an elementwise sum of `a` and `b`: a result, or none where it is refused.
pub uninterp spec fn add_outcome(a: Array, b: Array, r: Option<Array>) -> bool;

/// `r` is what an elementwise sum of `a` and `b` gave.
pub open spec fn add_result(a: Array, b: Array, r: Array) -> bool {
    add_outcome(a, b, Some(r)) && paired(a, b, r) && keeps_numbers(a, b, r)
}

/// Where a zero is added to a number, or a number to a zero, the number stays as it is.
pub open spec fn keeps_numbers(a: Array, b: Array, r: Array) -> bool {
    &&& b.elems.len() == a.elems.len()
    &&& r.elems.len() == a.elems.len()
    &&& comparable(a.kind) && b.kind == a.kind ==> forall|i: int|
        #![trigger r.elems[i]]
        0 <= i < r.elems.len() ==> {
            &&& is_zero(a.kind, b.elems[i]) && ordinary(a.kind, a.elems[i]) ==> same_number(
                a.kind,
                r.elems[i],
                a.elems[i],
            )
            &&& is_zero(a.kind, a.elems[i]) && ordinary(a.kind, b.elems[i]) ==> same_number(
                a.kind,
                r.elems[i],
                b.elems[i],
            )
        }
}

/// Two patterns of one number: only zeros have two.
pub open spec fn same_number(kind: int, x: int, y: int) -> bool {
    0 <= x && 0 <= y && rank_of(kind, x) == rank_of(kind, y)
}

/// A pattern of a zero, with either sign.
pub open spec fn is_zero(kind: int, bits: int) -> bool {
    0 <= bits && rank_of(kind, bits) == 0
}

/// The pattern of the least number in full precision.
pub open spec fn least_full_pattern(kind: int) -> int {
    if kind == single() {
        0x0080_0000
    } else if kind == brain_half() {
        0x0080
    } else {
        0x0010_0000_0000_0000
    }
}

/// A pattern of a zero or of a finite number in full precision.
pub open spec fn ordinary(kind: int, bits: int) -> bool {
    &&& 0 <= bits
    &&& rank_of(kind, bits) == 0 || least_full_pattern(kind) <= rank_of(kind, bits)
        < infinity_pattern(kind) || -infinity_pattern(kind) < rank_of(kind, bits)
        <= -least_full_pattern(kind)
}

/// An elementwise sum of `a` and `b` can be refused; of integers it always is.
pub open spec fn add_refused(a: Array, b: Array) -> bool {
    !computable(a, b) || add_outcome(a, b, None)
}

/// `r` can come of an elementwise product of `a` and `b`: a result, or none where it is refused.
pub uninterp spec fn mul_outcome(a: Array, b: Array, r: Option<Array>) -> bool;

/// `r` is what an elementwise product of `a` and `b` gave.
#[verifier::inline]
pub open spec fn mul_result(a: Array, b: Array, r: Array) -> bool {
    mul_outcome(a, b, Some(r))
}

/// An elementwise product of `a` and `b` can be refused; of integers it always is.
pub open spec fn mul_refused(a: Array, b: Array) -> bool {
    !computable(a, b) || mul_outcome(a, b, None)
}

/// `r` can come of the elementwise logistic function of `a`: a result, or none where it is refused.
pub uninterp spec fn sigmoid_outcome(a: Array, r: Option<Array>) -> bool;

/// `r` is what the elementwise logistic function of `a` gave.
#[verifier::inline]
pub open spec fn sigmoid_result(a: Array, r: Array) -> bool {
    sigmoid_outcome(a, Some(r))
}

/// The elementwise logistic function of `a` can be refused.
#[verifier::inline]
pub open spec fn sigmoid_refused(a: Array) -> bool {
    sigmoid_outcome(a, None)
}

/// `r` can come of the elementwise hyperbolic tangent of `a`: a result, or none where it is
/// refused.
pub uninterp spec fn tanh_outcome(a: Array, r: Option<Array>) -> bool;

/// `r` is what the elementwise hyperbolic tangent of `a` gave.
#[verifier::inline]
pub open spec fn tanh_result(a: Array, r: Array) -> bool {
    tanh_outcome(a, Some(r))
}

/// The elementwise hyperbolic tangent of `a` can be refused; of integers it always is.
pub open spec fn tanh_refused(a: Array) -> bool {
    !fractional(a.kind) || tanh_outcome(a, None)
}

/// `r` can come of taking the positive part of each element of `a`: a result, or none where it is
/// refused.
pub uninterp spec fn relu_outcome(a: Array, r: Option<Array>) -> bool;

/// Taking the positive part of each element of `a` can be refused.
#[verifier::inline]
pub open spec fn relu_refused(a: Array) -> bool {
    relu_outcome(a, None)
}

/// `r` holds the positive part of each number of `a`.
pub open spec fn relu_result(a: Array, r: Array) -> bool {
    relu_outcome(a, Some(r)) && (comparable(a.kind) ==> forall|i: int|
        0 <= i < a.elems.len() && is_number(a.kind, a.elems[i]) ==> rank_of(
            a.kind,
            #[trigger] r.elems[i],
        ) == (if rank_of(a.kind, a.elems[i]) > 0 {
            rank_of(a.kind, a.elems[i])
        } else {
            0
        }))
}

// Numbers of a binary type are compared by their bit patterns: first comes the sign, and a greater
// pattern behind it is a greater magnitude. Patterns past that of infinity are no numbers.
/// A type whose numbers can be compared here.
pub open spec fn comparable(kind: int) -> bool {
    kind == single() || kind == brain_half() || kind == double()
}

/// The pattern of the sign.
pub open spec fn sign_pattern(kind: int) -> int {
    if kind == single() {
        0x8000_0000
    } else if kind == brain_half() {
        0x8000
    } else {
        0x8000_0000_0000_0000
    }
}

/// The pattern of infinity.
pub open spec fn infinity_pattern(kind: int) -> int {
    if kind == single() {
        0x7F80_0000
    } else if kind == brain_half() {
        0x7F80
    } else {
        0x7FF0_0000_0000_0000
    }
}

/// A pattern as an integer that is ordered as the numbers are.
pub open spec fn rank_of(kind: int, bits: int) -> int {
    if bits < sign_pattern(kind) {
        bits
    } else {
        sign_pattern(kind) - bits
    }
}

/// A pattern of a number.
pub open spec fn is_number(kind: int, bits: int) -> bool {
    0 <= bits && -infinity_pattern(kind) <= rank_of(kind, bits) <= infinity_pattern(kind)
}

/// One number is greater than another.
pub open spec fn exceeds(kind: int, x: int, y: int) -> bool {
    is_number(kind, x) && is_number(kind, y) && rank_of(kind, x) > rank_of(kind, y)
}

/// Index `k` holds a greatest element of the vector `a`, if all of them are numbers.
pub open spec fn is_greatest(a: Array, k: u32) -> bool {
    &&& k < a.elems.len()
    &&& comparable(a.kind) && a.elems.len() <= u32::MAX && (forall|i: int|
        0 <= i < a.elems.len() ==> is_number(a.kind, #[trigger] a.elems[i])) ==> forall|i: int|
        0 <= i < a.elems.len() ==> !exceeds(a.kind, #[trigger] a.elems[i], a.elems[k as int])
}

/// `k` can come of looking for the greatest element of the vector `a`: its index, or none where it
/// is refused.
pub uninterp spec fn argmax_outcome(a: Array, k: Option<u32>) -> bool;

/// Looking for the greatest element of the vector `a` can be refused.
#[verifier::inline]
pub open spec fn argmax_refused(a: Array) -> bool {
    argmax_outcome(a, None)
}

/// `k` is the index that was chosen among those with a greatest element of the vector `a`.
pub open spec fn argmax_result(a: Array, k: u32) -> bool {
    argmax_outcome(a, Some(k)) && is_greatest(a, k)
}

/// `ks` can come of looking for the greatest element of each row of `a`: their indices, or none
/// where it is refused.
pub uninterp spec fn row_argmax_outcome(a: Array, ks: Option<Seq<u32>>) -> bool;

/// Looking for the greatest element of each row of `a` can be refused.
#[verifier::inline]
pub open spec fn row_argmax_refused(a: Array) -> bool {
    row_argmax_outcome(a, None)
}

/// `ks` are the indices that were chosen among those with a greatest element of each row of `a`.
pub open spec fn row_argmax_result(a: Array, ks: Seq<u32>) -> bool {
    row_argmax_outcome(a, Some(ks)) && forall|i: int|
        0 <= i < ks.len() ==> is_greatest(row_array(a, i), #[trigger] ks[i])
}

/// The common shape of two operands of an elementwise operation, counted from the last axis: an
/// axis that is missing or of extent one is stretched.
pub open spec fn broadcast_extent(a: Seq<usize>, b: Seq<usize>, from_last: int) -> usize {
    let x = if from_last <= a.len() { a[a.len() - from_last] } else { 1 };
    let y = if from_last <= b.len() { b[b.len() - from_last] } else { 1 };
    if x == 1 {
        y
    } else {
        x
    }
}

/// The common shape of two operands of an elementwise operation.
pub open spec fn broadcast_dims(a: Seq<usize>, b: Seq<usize>) -> Seq<usize> {
    let n = if a.len() >= b.len() { a.len() } else { b.len() };
    Seq::new(n, |i: int| broadcast_extent(a, b, n - i))
}

/// The same extents, with as many elements of the same type.
pub open spec fn like(a: Array, b: Array) -> bool {
    a.dims == b.dims && a.elems.len() == b.elems.len() && a.kind == b.kind
}

/// Operands of one element type. Where there is nothing to compute, types are not looked at.
pub open spec fn kinds_agree(a: Array, b: Array, r: Array) -> bool {
    r.kind == a.kind && (volume(r.dims) > 0 ==> b.kind == a.kind)
}

/// A result of the type of its operands in their common shape.
pub open spec fn stretched(a: Array, b: Array, r: Array) -> bool {
    kinds_agree(a, b, r) && r.dims == broadcast_dims(a.dims, b.dims)
}

/// A result of the type and the extents of its operands.
pub open spec fn paired(a: Array, b: Array, r: Array) -> bool {
    kinds_agree(a, b, r) && r.dims == a.dims && b.dims == a.dims
}

/// There are fractions, or nothing to compute. Integers are not computed with, since they may overflow.
pub open spec fn computable_alone(a: Array) -> bool {
    fractional(a.kind) || volume(a.dims) == 0
}

/// Two operands of one element type hold fractions, or there is nothing to compute.
pub open spec fn computable(a: Array, b: Array) -> bool {
    computable_alone(a) || computable_alone(b)
}

fn is_void(t: &Tensor) -> (r: bool)
    ensures
        r == (volume(tensor_dims(*t)) == 0),
{
    let d = dims(t);
    let n: usize = d.len();
    let mut i: usize = 0;
    assert(d@.take(0).len() == 0);
    while i < n
        invariant
            i <= n == d@.len(),
            d@ == tensor_dims(*t),
            volume(d@.take(i as int)) > 0,
        decreases n - i,
    {
        if d[i] == 0 {
            proof {
                lemma_volume_of_none(d@, i as int);
            }
            return true;
        }
        proof {
            let next = d@.take(i + 1);
            assert(next.drop_last() =~= d@.take(i as int));
            assert(volume(next) > 0) by (nonlinear_arith)
                requires
                    volume(next) == volume(d@.take(i as int)) * (d@[i as int] as nat),
                    volume(d@.take(i as int)) > 0,
                    d@[i as int] > 0,
            ;
        }
        i += 1;
    }
    assert(d@.take(n as int) =~= d@);
    false
}

proof fn lemma_volume_of_none(d: Seq<usize>, i: int)
    requires
        0 <= i < d.len(),
        d[i] == 0,
    ensures
        volume(d) == 0,
    decreases d.len(),
{
    if i < d.len() - 1 {
        lemma_volume_of_none(d.drop_last(), i);
        assert(0 * (d.last() as nat) == 0);
    } else {
        assert(volume(d.drop_last()) * 0 == 0);
    }
}

fn can_compute_alone(a: &Tensor) -> (r: bool)
    ensures
        r == computable_alone(array(*a)),
{
    holds_fractions(a) || is_void(a)
}

fn can_compute(a: &Tensor, b: &Tensor) -> (r: bool)
    ensures
        r == computable(array(*a), array(*b)),
{
    can_compute_alone(a) || can_compute_alone(b)
}

/// `Tensor::matmul`. The result has the rows of the left and the columns of the right operand; ranks
/// agree and are at least two. Element types agree, unless there is nothing to multiply. What is
/// computed is rounded as the machine does it and not described further.
#[verifier::external_body]
pub(crate) fn matmul(a: &Tensor, b: &Tensor) -> (r: Result<Tensor, Error>)
    ensures
        match r {
            Ok(t) => matmul_outcome(array(*a), array(*b), Some(array(t))),
            Err(_) => matmul_outcome(array(*a), array(*b), None),
        },
        r matches Ok(t) ==> tensor_dims(*a).len() >= 2 && tensor_dims(*b).len() == tensor_dims(
            *a,
        ).len() && tensor_dims(t) == tensor_dims(*a).drop_last().push(tensor_dims(*b).last())
            && tensor_kind(t) == tensor_kind(*a),
        r matches Ok(t) ==> volume(tensor_dims(t)) > 0 && tensor_dims(*a).last() > 0 ==> tensor_kind(*b)
            == tensor_kind(*a),
{
    a.matmul(b)
}

/// `Tensor::broadcast_add`. The result has the common shape.
/// Integers can overflow.
#[verifier::external_body]
fn raw_broadcast_add(a: &Tensor, b: &Tensor) -> (r: Result<Tensor, Error>)
    requires
        computable(array(*a), array(*b)),
    ensures
        match r {
            Ok(t) => broadcast_add_outcome(array(*a), array(*b), Some(array(t))),
            Err(_) => broadcast_add_outcome(array(*a), array(*b), None),
        },
        r matches Ok(t) ==> stretched(array(*a), array(*b), array(t)),
{
    a.broadcast_add(b)
}

/// The elementwise sum in the common shape. Integers are refused.
pub(crate) fn broadcast_add(a: &Tensor, b: &Tensor) -> (r: Result<Tensor, Error>)
    ensures
        r matches Ok(t) ==> broadcast_add_result(array(*a), array(*b), array(t)),
        r is Err ==> broadcast_add_refused(array(*a), array(*b)),
        r matches Ok(t) ==> stretched(array(*a), array(*b), array(t)),
{
    if can_compute(a, b) {
        raw_broadcast_add(a, b)
    } else {
        refuse(a)
    }
}

/// `Tensor::add`. Operands of different shapes are refused. A zero that is added to a finite number in full
/// precision leaves it as it is, and so does one that it is added to.
/// Integers can overflow.
#[verifier::external_body]
fn raw_sum(a: &Tensor, b: &Tensor) -> (r: Result<Tensor, Error>)
    requires
        computable(array(*a), array(*b)),
    ensures
        match r {
            Ok(t) => add_outcome(array(*a), array(*b), Some(array(t))),
            Err(_) => add_outcome(array(*a), array(*b), None),
        },
        r matches Ok(t) ==> paired(array(*a), array(*b), array(t)),
        r matches Ok(t) ==> keeps_numbers(array(*a), array(*b), array(t)),
{
    a.add(b)
}

/// The elementwise sum. Integers are refused.
pub(crate) fn sum(a: &Tensor, b: &Tensor) -> (r: Result<Tensor, Error>)
    ensures
        r matches Ok(t) ==> add_result(array(*a), array(*b), array(t)),
        r is Err ==> add_refused(array(*a), array(*b)),
        r matches Ok(t) ==> paired(array(*a), array(*b), array(t)),
{
    if can_compute(a, b) {
        raw_sum(a, b)
    } else {
        refuse(a)
    }
}

/// `Tensor::mul`. Operands of different shapes are refused.
/// Integers can overflow.
#[verifier::external_body]
fn raw_product(a: &Tensor, b: &Tensor) -> (r: Result<Tensor, Error>)
    requires
        computable(array(*a), array(*b)),
    ensures
        match r {
            Ok(t) => mul_outcome(array(*a), array(*b), Some(array(t))),
            Err(_) => mul_outcome(array(*a), array(*b), None),
        },
        r matches Ok(t) ==> paired(array(*a), array(*b), array(t)),
{
    a.mul(b)
}

/// The elementwise product. Integers are refused.
pub(crate) fn product(a: &Tensor, b: &Tensor) -> (r: Result<Tensor, Error>)
    ensures
        r matches Ok(t) ==> mul_result(array(*a), array(*b), array(t)),
        r is Err ==> mul_refused(array(*a), array(*b)),
        r matches Ok(t) ==> paired(array(*a), array(*b), array(t)),
{
    if can_compute(a, b) {
        raw_product(a, b)
    } else {
        refuse(a)
    }
}

/// The element type of this number is one of fractions, not of integers.
pub uninterp spec fn fractional(kind: int) -> bool;

/// `DType::is_float` of the element type of a tensor: it is true of the three types of fractions that
/// are known here by a number, and false of the unsigned integers of 32 bits.
#[verifier::external_body]
fn holds_fractions(t: &Tensor) -> (r: bool)
    ensures
        r == fractional(tensor_kind(*t)),
        comparable(tensor_kind(*t)) ==> r,
        tensor_kind(*t) == index_kind() ==> !r,
{
    t.dtype().is_float()
}

/// `candle_nn::ops::sigmoid`.
#[verifier::external_body]
pub(crate) fn sigmoid(a: &Tensor) -> (r: Result<Tensor, Error>)
    ensures
        match r {
            Ok(t) => sigmoid_outcome(array(*a), Some(array(t))),
            Err(_) => sigmoid_outcome(array(*a), None),
        },
        r matches Ok(t) ==> like(array(t), array(*a)),
{
    candle_nn::ops::sigmoid(a)
}

/// `Tensor::tanh`, which panics on integers.
#[verifier::external_body]
fn raw_tanh(a: &Tensor) -> (r: Result<Tensor, Error>)
    requires
        fractional(tensor_kind(*a)),
    ensures
        match r {
            Ok(t) => tanh_outcome(array(*a), Some(array(t))),
            Err(_) => tanh_outcome(array(*a), None),
        },
        r matches Ok(t) ==> like(array(t), array(*a)),
{
    a.tanh()
}

/// The hyperbolic tangent of each element. Integers are refused.
pub(crate) fn tanh(a: &Tensor) -> (r: Result<Tensor, Error>)
    ensures
        r matches Ok(t) ==> tanh_result(array(*a), array(t)),
        r is Err ==> tanh_refused(array(*a)),
        r is Ok ==> fractional(tensor_kind(*a)),
        r matches Ok(t) ==> like(array(t), array(*a)),
{
    if holds_fractions(a) {
        raw_tanh(a)
    } else {
        refuse(a)
    }
}

/// `Tensor::relu`: negative numbers become zero, others stay.
#[verifier::external_body]
pub(crate) fn relu(a: &Tensor) -> (r: Result<Tensor, Error>)
    ensures
        match r {
            Ok(t) => relu_outcome(array(*a), Some(array(t))),
            Err(_) => relu_outcome(array(*a), None),
        },
        r matches Ok(t) ==> relu_result(array(*a), array(t)),
        r matches Ok(t) ==> like(array(t), array(*a)),
{
    a.relu()
}

/// `Tensor::argmax` over the last axis of a vector, as a number: the index of an element that none
/// exceeds. Which one it is of several depends on the device.
#[verifier::external_body]
pub(crate) fn argmax(a: &Tensor) -> (r: Result<u32, Error>)
    ensures
        match r {
            Ok(k) => argmax_outcome(array(*a), Some(k)),
            Err(_) => argmax_outcome(array(*a), None),
        },
        r matches Ok(k) ==> argmax_result(array(*a), k),
        r is Ok ==> tensor_dims(*a).len() == 1,
{
    a.argmax(candle_core::D::Minus1)?.to_scalar::<u32>()
}

/// `Tensor::argmax` over the last axis of a matrix, as numbers, one for each row.
#[verifier::external_body]
pub(crate) fn row_argmax(a: &Tensor) -> (r: Result<Vec<u32>, Error>)
    ensures
        match r {
            Ok(ks) => row_argmax_outcome(array(*a), Some(ks@)),
            Err(_) => row_argmax_outcome(array(*a), None),
        },
        r matches Ok(ks) ==> row_argmax_result(array(*a), ks@),
        r matches Ok(ks) ==> tensor_dims(*a).len() == 2 && ks@.len() == tensor_dims(*a)[0],
{
    a.argmax(candle_core::D::Minus1)?.to_vec1::<u32>()
}

/// The order of axes in which two of them are exchanged.
pub open spec fn exchanged(rank: nat, a: int, b: int) -> Seq<usize> {
    Seq::new(
        rank,
        |i: int|
            if i == a {
                b as usize
            } else if i == b {
                a as usize
            } else {
                i as usize
            },
    )
}

/// The same elements with two axes exchanged. Axes that do not exist are refused.
pub(crate) fn swap_axes(t: &Tensor, a: usize, b: usize) -> (r: Result<Tensor, Error>)
    ensures
        r matches Ok(n) ==> is_permuted(
            array(*t),
            exchanged(tensor_dims(*t).len(), a as int, b as int),
            array(n),
        ),
        r is Ok == (a < tensor_dims(*t).len() && b < tensor_dims(*t).len()),
{
    let rank: usize = dims(t).len();
    if a >= rank || b >= rank {
        return refuse(t);
    }
    let mut order: Vec<usize> = Vec::new();
    let mut i: usize = 0;
    while i < rank
        invariant
            i <= rank,
            order@ == exchanged(rank as nat, a as int, b as int).take(i as int),
        decreases rank - i,
    {
        order.push(
            if i == a {
                b
            } else if i == b {
                a
            } else {
                i
            },
        );
        assert(order@ =~= exchanged(rank as nat, a as int, b as int).take(i + 1));
        i += 1;
    }
    assert(order@ =~= exchanged(rank as nat, a as int, b as int));
    permute(t, order)
}

/// `candle_core::scalar::Scalar`, a number.
#[verifier::external_type_specification]
#[verifier::external_body]
pub struct ExScalar(candle_core::scalar::Scalar);

/// The double-precision quotient of two integers.
pub uninterp spec fn quotient_of(n: i64, d: i64) -> Scalar;

/// The double-precision square root of an integer.
pub uninterp spec fn root_of(n: i64) -> Scalar;

/// `Tensor::div` on two integers as double-precision numbers. In main memory it is never refused.
#[verifier::external_body]
pub(crate) fn quotient(n: i64, d: i64) -> (r: Result<Scalar, Error>)
    requires
        d != 0,
    ensures
        r is Ok,
        r matches Ok(s) ==> s == quotient_of(n, d),
{
    let n = Tensor::new(n, &Device::Cpu)?.to_dtype(DType::F64)?;
    let d = Tensor::new(d, &Device::Cpu)?.to_dtype(DType::F64)?;
    Ok(Scalar::F64(n.div(&d)?.to_scalar()?))
}

/// `Tensor::sqrt` on an integer as a double-precision number. In main memory it is never refused.
#[verifier::external_body]
pub(crate) fn square_root(n: i64) -> (r: Result<Scalar, Error>)
    requires
        n >= 0,
    ensures
        r is Ok,
        r matches Ok(s) ==> s == root_of(n),
{
    let n = Tensor::new(n, &Device::Cpu)?.to_dtype(DType::F64)?;
    Ok(Scalar::F64(n.sqrt()?.to_scalar()?))
}

/// `r` can come of adding the number `s` to each element of `a`: a result, or none where it is
/// refused.
pub uninterp spec fn plus_outcome(a: Array, s: Scalar, r: Option<Array>) -> bool;

/// `r` is what adding the number `s` to each element of `a` gave.
#[verifier::inline]
pub open spec fn plus_result(a: Array, s: Scalar, r: Array) -> bool {
    plus_outcome(a, s, Some(r))
}

/// Adding the number `s` to each element of `a` can be refused; of integers it always is.
pub open spec fn plus_refused(a: Array, s: Scalar) -> bool {
    !computable_alone(a) || plus_outcome(a, s, None)
}

/// `r` can come of multiplying each element of `a` by the number `s`: a result, or none where it is
/// refused.
pub uninterp spec fn times_outcome(a: Array, s: Scalar, r: Option<Array>) -> bool;

/// `r` is what multiplying each element of `a` by the number `s` gave.
pub open spec fn times_result(a: Array, s: Scalar, r: Array) -> bool {
    times_outcome(a, s, Some(r)) && like(r, a)
}

/// Multiplying each element of `a` by the number `s` can be refused; of integers it always is.
pub open spec fn times_refused(a: Array, s: Scalar) -> bool {
    !computable_alone(a) || times_outcome(a, s, None)
}

/// `r` can come of dividing each element of `a` by the number `s`: a result, or none where it is
/// refused.
pub uninterp spec fn over_outcome(a: Array, s: Scalar, r: Option<Array>) -> bool;

/// `r` is what dividing each element of `a` by the number `s` gave.
pub open spec fn over_result(a: Array, s: Scalar, r: Array) -> bool {
    over_outcome(a, s, Some(r)) && like(r, a)
}

/// Dividing each element of `a` by the number `s` can be refused; of integers it always is.
pub open spec fn over_refused(a: Array, s: Scalar) -> bool {
    !computable_alone(a) || over_outcome(a, s, None)
}

/// Adding a number to a `Tensor`. Integers can overflow.
#[verifier::external_body]
fn raw_plus(a: &Tensor, s: &Scalar) -> (r: Result<Tensor, Error>)
    requires
        computable_alone(array(*a)),
    ensures
        match r {
            Ok(t) => plus_outcome(array(*a), *s, Some(array(t))),
            Err(_) => plus_outcome(array(*a), *s, None),
        },
        r matches Ok(t) ==> like(array(t), array(*a)),
{
    a + s.to_f64()
}

/// Each element with a number added. Integers are refused.
pub(crate) fn plus(a: &Tensor, s: &Scalar) -> (r: Result<Tensor, Error>)
    ensures
        r matches Ok(t) ==> plus_result(array(*a), *s, array(t)),
        r is Err ==> plus_refused(array(*a), *s),
        r matches Ok(t) ==> like(array(t), array(*a)),
{
    if can_compute_alone(a) {
        raw_plus(a, s)
    } else {
        refuse(a)
    }
}

/// Multiplying a `Tensor` by a number. Integers can overflow.
#[verifier::external_body]
fn raw_times(a: &Tensor, s: &Scalar) -> (r: Result<Tensor, Error>)
    requires
        computable_alone(array(*a)),
    ensures
        match r {
            Ok(t) => times_outcome(array(*a), *s, Some(array(t))),
            Err(_) => times_outcome(array(*a), *s, None),
        },
        r matches Ok(t) ==> like(array(t), array(*a)),
{
    a * s.to_f64()
}

/// Each element times a number. Integers are refused.
pub(crate) fn times(a: &Tensor, s: &Scalar) -> (r: Result<Tensor, Error>)
    ensures
        r matches Ok(t) ==> times_result(array(*a), *s, array(t)),
        r is Err ==> times_refused(array(*a), *s),
        r matches Ok(t) ==> like(array(t), array(*a)),
{
    if can_compute_alone(a) {
        raw_times(a, s)
    } else {
        refuse(a)
    }
}

/// Dividing a `Tensor` by a number. Integers can overflow.
#[verifier::external_body]
fn raw_over(a: &Tensor, s: &Scalar) -> (r: Result<Tensor, Error>)
    requires
        computable_alone(array(*a)),
    ensures
        match r {
            Ok(t) => over_outcome(array(*a), *s, Some(array(t))),
            Err(_) => over_outcome(array(*a), *s, None),
        },
        r matches Ok(t) ==> like(array(t), array(*a)),
{
    a / s.to_f64()
}

/// Each element divided by a number. Integers are refused.
pub(crate) fn over(a: &Tensor, s: &Scalar) -> (r: Result<Tensor, Error>)
    ensures
        r matches Ok(t) ==> over_result(array(*a), *s, array(t)),
        r is Err ==> over_refused(array(*a), *s),
        r matches Ok(t) ==> like(array(t), array(*a)),
{
    if can_compute_alone(a) {
        raw_over(a, s)
    } else {
        refuse(a)
    }
}

/// `r` can come of an elementwise difference of `a` and `b`, stretched to a common shape,: a
/// result, or none where it is refused.
pub uninterp spec fn broadcast_sub_outcome(a: Array, b: Array, r: Option<Array>) -> bool;

/// `r` is what an elementwise difference of `a` and `b`, stretched to a common shape, gave.
#[verifier::inline]
pub open spec fn broadcast_sub_result(a: Array, b: Array, r: Array) -> bool {
    broadcast_sub_outcome(a, b, Some(r))
}

/// An elementwise difference of `a` and `b`, stretched to a common shape, can be refused; of integers
/// it always is.
pub open spec fn broadcast_sub_refused(a: Array, b: Array) -> bool {
    !computable(a, b) || broadcast_sub_outcome(a, b, None)
}

/// `r` can come of an elementwise product of `a` and `b`, stretched to a common shape: a result,
/// or none where it is refused.
pub uninterp spec fn broadcast_mul_outcome(a: Array, b: Array, r: Option<Array>) -> bool;

/// `r` is what an elementwise product of `a` and `b`, stretched to a common shape, gave.
#[verifier::inline]
pub open spec fn broadcast_mul_result(a: Array, b: Array, r: Array) -> bool {
    broadcast_mul_outcome(a, b, Some(r))
}

/// An elementwise product of `a` and `b`, stretched to a common shape, can be refused; of integers
/// it always is.
pub open spec fn broadcast_mul_refused(a: Array, b: Array) -> bool {
    !computable(a, b) || broadcast_mul_outcome(a, b, None)
}

/// `r` can come of an elementwise quotient of `a` and `b`, stretched to a common shape: a result,
/// or none where it is refused.
pub uninterp spec fn broadcast_div_outcome(a: Array, b: Array, r: Option<Array>) -> bool;

/// `r` is what an elementwise quotient of `a` and `b`, stretched to a common shape, gave.
#[verifier::inline]
pub open spec fn broadcast_div_result(a: Array, b: Array, r: Array) -> bool {
    broadcast_div_outcome(a, b, Some(r))
}

/// An elementwise quotient of `a` and `b`, stretched to a common shape, can be refused; of integers
/// it always is.
pub open spec fn broadcast_div_refused(a: Array, b: Array) -> bool {
    !computable(a, b) || broadcast_div_outcome(a, b, None)
}

/// `Tensor::broadcast_sub`. The result has the common shape.
/// Integers can overflow.
#[verifier::external_body]
fn raw_broadcast_sub(a: &Tensor, b: &Tensor) -> (r: Result<Tensor, Error>)
    requires
        computable(array(*a), array(*b)),
    ensures
        match r {
            Ok(t) => broadcast_sub_outcome(array(*a), array(*b), Some(array(t))),
            Err(_) => broadcast_sub_outcome(array(*a), array(*b), None),
        },
        r matches Ok(t) ==> stretched(array(*a), array(*b), array(t)),
{
    a.broadcast_sub(b)
}

/// The elementwise difference in the common shape. Integers are refused.
pub(crate) fn broadcast_sub(a: &Tensor, b: &Tensor) -> (r: Result<Tensor, Error>)
    ensures
        r matches Ok(t) ==> broadcast_sub_result(array(*a), array(*b), array(t)),
        r is Err ==> broadcast_sub_refused(array(*a), array(*b)),
        r matches Ok(t) ==> stretched(array(*a), array(*b), array(t)),
{
    if can_compute(a, b) {
        raw_broadcast_sub(a, b)
    } else {
        refuse(a)
    }
}

/// `Tensor::broadcast_mul`. The result has the common shape.
/// Integers can overflow.
#[verifier::external_body]
fn raw_broadcast_mul(a: &Tensor, b: &Tensor) -> (r: Result<Tensor, Error>)
    requires
        computable(array(*a), array(*b)),
    ensures
        match r {
            Ok(t) => broadcast_mul_outcome(array(*a), array(*b), Some(array(t))),
            Err(_) => broadcast_mul_outcome(array(*a), array(*b), None),
        },
        r matches Ok(t) ==> stretched(array(*a), array(*b), array(t)),
{
    a.broadcast_mul(b)
}

/// The elementwise product in the common shape. Integers are refused.
pub(crate) fn broadcast_mul(a: &Tensor, b: &Tensor) -> (r: Result<Tensor, Error>)
    ensures
        r matches Ok(t) ==> broadcast_mul_result(array(*a), array(*b), array(t)),
        r is Err ==> broadcast_mul_refused(array(*a), array(*b)),
        r matches Ok(t) ==> stretched(array(*a), array(*b), array(t)),
{
    if can_compute(a, b) {
        raw_broadcast_mul(a, b)
    } else {
        refuse(a)
    }
}

/// `Tensor::broadcast_div`. The result has the common shape.
/// It panics on a zero among integers, and integers can overflow.
#[verifier::external_body]
fn raw_broadcast_div(a: &Tensor, b: &Tensor) -> (r: Result<Tensor, Error>)
    requires
        computable(array(*a), array(*b)),
    ensures
        match r {
            Ok(t) => broadcast_div_outcome(array(*a), array(*b), Some(array(t))),
            Err(_) => broadcast_div_outcome(array(*a), array(*b), None),
        },
        r matches Ok(t) ==> stretched(array(*a), array(*b), array(t)),
{
    a.broadcast_div(b)
}

/// The elementwise quotient in the common shape. Integers are refused.
pub(crate) fn broadcast_div(a: &Tensor, b: &Tensor) -> (r: Result<Tensor, Error>)
    ensures
        r matches Ok(t) ==> broadcast_div_result(array(*a), array(*b), array(t)),
        r is Err ==> broadcast_div_refused(array(*a), array(*b)),
        r matches Ok(t) ==> stretched(array(*a), array(*b), array(t)),
{
    if can_compute(a, b) {
        raw_broadcast_div(a, b)
    } else {
        refuse(a)
    }
}

/// `r` can come of converting each element of `a` to the type of that number: a result, or none
/// where it is refused.
pub uninterp spec fn cast_outcome(a: Array, kind: int, r: Option<Array>) -> bool;

/// Converting each element of `a` to a type that it does not have can be refused.
pub open spec fn cast_refused(a: Array, kind: int) -> bool {
    a.kind != kind && cast_outcome(a, kind, None)
}

/// `r` is `a` with its elements converted to a type. Where they have it already, they stay as they
/// are.
pub open spec fn cast_to(a: Array, kind: int, r: Array) -> bool {
    &&& cast_outcome(a, kind, Some(r))
    &&& r.dims == a.dims
    &&& r.kind == kind
    &&& a.kind == kind ==> r == a
}

/// `Tensor::to_dtype`. A tensor that has the type already is handed back.
#[verifier::external_body]
pub(crate) fn cast(a: &Tensor, dtype: DType) -> (r: Result<Tensor, Error>)
    ensures
        match r {
            Ok(t) => cast_outcome(array(*a), kind_of(dtype), Some(array(t))),
            Err(_) => cast_outcome(array(*a), kind_of(dtype), None),
        },
        r is Err ==> tensor_kind(*a) != kind_of(dtype),
        r matches Ok(t) ==> cast_to(array(*a), kind_of(dtype), array(t)) && tensor_device(t)
            == tensor_device(*a),
{
    a.to_dtype(dtype)
}

/// `r` can come of squaring each element of `a`: a result, or none where it is refused.
pub uninterp spec fn square_outcome(a: Array, r: Option<Array>) -> bool;

/// `r` is what squaring each element of `a` gave.
#[verifier::inline]
pub open spec fn square_result(a: Array, r: Array) -> bool {
    square_outcome(a, Some(r))
}

/// Squaring each element of `a` can be refused; of integers it always is.
pub open spec fn square_refused(a: Array) -> bool {
    !fractional(a.kind) || square_outcome(a, None)
}

/// `Tensor::sqr`, which panics on integers.
#[verifier::external_body]
fn raw_square(a: &Tensor) -> (r: Result<Tensor, Error>)
    requires
        fractional(tensor_kind(*a)),
    ensures
        match r {
            Ok(t) => square_outcome(array(*a), Some(array(t))),
            Err(_) => square_outcome(array(*a), None),
        },
        r matches Ok(t) ==> like(array(t), array(*a)),
{
    a.sqr()
}

/// The square of each element. Integers are refused.
pub(crate) fn square(a: &Tensor) -> (r: Result<Tensor, Error>)
    ensures
        r matches Ok(t) ==> square_result(array(*a), array(t)),
        r is Err ==> square_refused(array(*a)),
        r is Ok ==> fractional(tensor_kind(*a)),
        r matches Ok(t) ==> like(array(t), array(*a)),
{
    if holds_fractions(a) {
        raw_square(a)
    } else {
        refuse(a)
    }
}

/// `r` can come of the square root of each element of `a`: a result, or none where it is refused.
pub uninterp spec fn sqrt_outcome(a: Array, r: Option<Array>) -> bool;

/// `r` is what the square root of each element of `a` gave.
#[verifier::inline]
pub open spec fn sqrt_result(a: Array, r: Array) -> bool {
    sqrt_outcome(a, Some(r))
}

/// The square root of each element of `a` can be refused; of integers it always is.
pub open spec fn sqrt_refused(a: Array) -> bool {
    !fractional(a.kind) || sqrt_outcome(a, None)
}

/// `Tensor::sqrt`, which panics on integers.
#[verifier::external_body]
fn raw_sqrt(a: &Tensor) -> (r: Result<Tensor, Error>)
    requires
        fractional(tensor_kind(*a)),
    ensures
        match r {
            Ok(t) => sqrt_outcome(array(*a), Some(array(t))),
            Err(_) => sqrt_outcome(array(*a), None),
        },
        r matches Ok(t) ==> like(array(t), array(*a)),
{
    a.sqrt()
}

/// The square root of each element. Integers are refused.
pub(crate) fn sqrt(a: &Tensor) -> (r: Result<Tensor, Error>)
    ensures
        r matches Ok(t) ==> sqrt_result(array(*a), array(t)),
        r is Err ==> sqrt_refused(array(*a)),
        r is Ok ==> fractional(tensor_kind(*a)),
        r matches Ok(t) ==> like(array(t), array(*a)),
{
    if holds_fractions(a) {
        raw_sqrt(a)
    } else {
        refuse(a)
    }
}

/// `r` can come of the cosine of each element of `a`: a result, or none where it is refused.
pub uninterp spec fn cos_outcome(a: Array, r: Option<Array>) -> bool;

/// `r` is what the cosine of each element of `a` gave.
#[verifier::inline]
pub open spec fn cos_result(a: Array, r: Array) -> bool {
    cos_outcome(a, Some(r))
}

/// The cosine of each element of `a` can be refused; of integers it always is.
pub open spec fn cos_refused(a: Array) -> bool {
    !fractional(a.kind) || cos_outcome(a, None)
}

/// `Tensor::cos`, which panics on integers.
#[verifier::external_body]
fn raw_cos(a: &Tensor) -> (r: Result<Tensor, Error>)
    requires
        fractional(tensor_kind(*a)),
    ensures
        match r {
            Ok(t) => cos_outcome(array(*a), Some(array(t))),
            Err(_) => cos_outcome(array(*a), None),
        },
        r matches Ok(t) ==> like(array(t), array(*a)),
{
    a.cos()
}

/// The cosine of each element. Integers are refused.
pub(crate) fn cos(a: &Tensor) -> (r: Result<Tensor, Error>)
    ensures
        r matches Ok(t) ==> cos_result(array(*a), array(t)),
        r is Err ==> cos_refused(array(*a)),
        r is Ok ==> fractional(tensor_kind(*a)),
        r matches Ok(t) ==> like(array(t), array(*a)),
{
    if holds_fractions(a) {
        raw_cos(a)
    } else {
        refuse(a)
    }
}

/// `r` can come of the sine of each element of `a`: a result, or none where it is refused.
pub uninterp spec fn sin_outcome(a: Array, r: Option<Array>) -> bool;

/// `r` is what the sine of each element of `a` gave.
#[verifier::inline]
pub open spec fn sin_result(a: Array, r: Array) -> bool {
    sin_outcome(a, Some(r))
}

/// The sine of each element of `a` can be refused; of integers it always is.
pub open spec fn sin_refused(a: Array) -> bool {
    !fractional(a.kind) || sin_outcome(a, None)
}

/// `Tensor::sin`, which panics on integers.
#[verifier::external_body]
fn raw_sin(a: &Tensor) -> (r: Result<Tensor, Error>)
    requires
        fractional(tensor_kind(*a)),
    ensures
        match r {
            Ok(t) => sin_outcome(array(*a), Some(array(t))),
            Err(_) => sin_outcome(array(*a), None),
        },
        r matches Ok(t) ==> like(array(t), array(*a)),
{
    a.sin()
}

/// The sine of each element. Integers are refused.
pub(crate) fn sin(a: &Tensor) -> (r: Result<Tensor, Error>)
    ensures
        r matches Ok(t) ==> sin_result(array(*a), array(t)),
        r is Err ==> sin_refused(array(*a)),
        r is Ok ==> fractional(tensor_kind(*a)),
        r matches Ok(t) ==> like(array(t), array(*a)),
{
    if holds_fractions(a) {
        raw_sin(a)
    } else {
        refuse(a)
    }
}

/// `r` can come of changing the sign of each element of `a`: a result, or none where it is refused.
pub uninterp spec fn negative_outcome(a: Array, r: Option<Array>) -> bool;

/// Changing the sign of each element of `a` can be refused; of integers it always is.
pub open spec fn negative_refused(a: Array) -> bool {
    !fractional(a.kind) || negative_outcome(a, None)
}

/// `r` holds each number of `a` with the other sign.
pub open spec fn negative_result(a: Array, r: Array) -> bool {
    negative_outcome(a, Some(r)) && (comparable(a.kind) ==> forall|i: int|
        0 <= i < a.elems.len() && is_number(a.kind, a.elems[i]) ==> rank_of(
            a.kind,
            #[trigger] r.elems[i],
        ) == -rank_of(a.kind, a.elems[i]))
}

/// `Tensor::neg`, which panics on integers.
#[verifier::external_body]
fn raw_negative(a: &Tensor) -> (r: Result<Tensor, Error>)
    requires
        fractional(tensor_kind(*a)),
    ensures
        match r {
            Ok(t) => negative_outcome(array(*a), Some(array(t))),
            Err(_) => negative_outcome(array(*a), None),
        },
        r matches Ok(t) ==> negative_result(array(*a), array(t)),
        r matches Ok(t) ==> like(array(t), array(*a)),
{
    a.neg()
}

/// Each element with the other sign. Integers are refused.
pub(crate) fn negative(a: &Tensor) -> (r: Result<Tensor, Error>)
    ensures
        r matches Ok(t) ==> negative_result(array(*a), array(t)),
        r is Err ==> negative_refused(array(*a)),
        r is Ok ==> fractional(tensor_kind(*a)),
        r matches Ok(t) ==> like(array(t), array(*a)),
{
    if holds_fractions(a) {
        raw_negative(a)
    } else {
        refuse(a)
    }
}

/// `r` can come of the mean along the last axis of `a`: a result, or none where it is refused.
pub uninterp spec fn mean_outcome(a: Array, r: Option<Array>) -> bool;

/// `r` is what the mean along the last axis of `a` gave.
#[verifier::inline]
pub open spec fn mean_result(a: Array, r: Array) -> bool {
    mean_outcome(a, Some(r))
}

/// The mean along the last axis of `a` can be refused; of integers it always is.
pub open spec fn mean_refused(a: Array) -> bool {
    !computable_alone(a) || mean_outcome(a, None)
}

/// `Tensor::mean_keepdim` along the last axis, which is left with an extent of one. Integers can
/// overflow.
#[verifier::external_body]
fn raw_mean_last(a: &Tensor) -> (r: Result<Tensor, Error>)
    requires
        computable_alone(array(*a)),
    ensures
        match r {
            Ok(t) => mean_outcome(array(*a), Some(array(t))),
            Err(_) => mean_outcome(array(*a), None),
        },
        r matches Ok(t) ==> tensor_dims(*a).len() > 0 && tensor_dims(t) == tensor_dims(
            *a,
        ).drop_last().push(1) && tensor_kind(t) == tensor_kind(*a),
{
    a.mean_keepdim(candle_core::D::Minus1)
}

/// The mean along the last axis. Integers are refused.
pub(crate) fn mean_last(a: &Tensor) -> (r: Result<Tensor, Error>)
    ensures
        r matches Ok(t) ==> mean_result(array(*a), array(t)),
        r is Err ==> mean_refused(array(*a)),
        r matches Ok(t) ==> tensor_dims(*a).len() > 0 && tensor_dims(t) == tensor_dims(
            *a,
        ).drop_last().push(1) && tensor_kind(t) == tensor_kind(*a),
{
    if can_compute_alone(a) {
        raw_mean_last(a)
    } else {
        refuse(a)
    }
}

/// `r` can come of a softmax along the last axis of `a`: a result, or none where it is refused.
pub uninterp spec fn softmax_outcome(a: Array, r: Option<Array>) -> bool;

/// `r` is what a softmax along the last axis of `a` gave.
#[verifier::inline]
pub open spec fn softmax_result(a: Array, r: Array) -> bool {
    softmax_outcome(a, Some(r))
}

/// A softmax along the last axis of `a` can be refused; where that axis is missing or empty, it
/// always is.
pub open spec fn softmax_refused(a: Array) -> bool {
    a.dims.len() == 0 || a.dims.last() == 0 || softmax_outcome(a, None)
}

/// `candle_nn::ops::softmax_last_dim`, which panics where the last axis is missing or empty.
#[verifier::external_body]
fn raw_softmax_last(a: &Tensor) -> (r: Result<Tensor, Error>)
    requires
        tensor_dims(*a).len() > 0,
        tensor_dims(*a).last() > 0,
    ensures
        match r {
            Ok(t) => softmax_outcome(array(*a), Some(array(t))),
            Err(_) => softmax_outcome(array(*a), None),
        },
        r matches Ok(t) ==> like(array(t), array(*a)),
{
    candle_nn::ops::softmax_last_dim(a)
}

/// A softmax along the last axis, which must not be empty.
pub(crate) fn softmax_last(a: &Tensor) -> (r: Result<Tensor, Error>)
    ensures
        r matches Ok(t) ==> softmax_result(array(*a), array(t)),
        r is Err ==> softmax_refused(array(*a)),
        r is Ok ==> tensor_dims(*a).len() > 0 && tensor_dims(*a).last() > 0,
        r matches Ok(t) ==> like(array(t), array(*a)),
{
    let d = dims(a);
    if d.len() > 0 && d[d.len() - 1] > 0 {
        raw_softmax_last(a)
    } else {
        refuse(a)
    }
}

/// `r` can come of the logarithm of a softmax along the last axis of `a`: a result, or none where
/// it is refused.
pub uninterp spec fn log_softmax_outcome(a: Array, r: Option<Array>) -> bool;

/// `r` is what the logarithm of a softmax along the last axis of `a` gave.
pub open spec fn log_softmax_result(a: Array, r: Array) -> bool {
    log_softmax_outcome(a, Some(r)) && like(r, a)
}

/// The logarithm of a softmax along the last axis of `a` can be refused; of integers it always is.
pub open spec fn log_softmax_refused(a: Array) -> bool {
    !fractional(a.kind) || log_softmax_outcome(a, None)
}

/// `candle_nn::ops::log_softmax` along the last axis, which panics on integers.
#[verifier::external_body]
fn raw_log_softmax_last(a: &Tensor) -> (r: Result<Tensor, Error>)
    requires
        fractional(tensor_kind(*a)),
    ensures
        match r {
            Ok(t) => log_softmax_outcome(array(*a), Some(array(t))),
            Err(_) => log_softmax_outcome(array(*a), None),
        },
        r matches Ok(t) ==> like(array(t), array(*a)),
{
    candle_nn::ops::log_softmax(a, candle_core::D::Minus1)
}

/// The logarithm of a softmax along the last axis. Integers are refused.
pub(crate) fn log_softmax_last(a: &Tensor) -> (r: Result<Tensor, Error>)
    ensures
        r matches Ok(t) ==> log_softmax_result(array(*a), array(t)),
        r is Err ==> log_softmax_refused(array(*a)),
        r is Ok ==> fractional(tensor_kind(*a)),
        r matches Ok(t) ==> like(array(t), array(*a)),
{
    if holds_fractions(a) {
        raw_log_softmax_last(a)
    } else {
        refuse(a)
    }
}

/// `r` can come of the Gaussian error linear unit of each element of `a`: a result, or none where
/// it is refused.
pub uninterp spec fn gelu_outcome(a: Array, r: Option<Array>) -> bool;

/// `r` is what the Gaussian error linear unit of each element of `a` gave.
#[verifier::inline]
pub open spec fn gelu_result(a: Array, r: Array) -> bool {
    gelu_outcome(a, Some(r))
}

/// The Gaussian error linear unit of each element of `a` can be refused.
#[verifier::inline]
pub open spec fn gelu_refused(a: Array) -> bool {
    gelu_outcome(a, None)
}

/// `Tensor::gelu_erf`.
#[verifier::external_body]
pub(crate) fn gelu(a: &Tensor) -> (r: Result<Tensor, Error>)
    ensures
        match r {
            Ok(t) => gelu_outcome(array(*a), Some(array(t))),
            Err(_) => gelu_outcome(array(*a), None),
        },
        r matches Ok(t) ==> like(array(t), array(*a)),
{
    a.gelu_erf()
}

/// `r` can come of the sigmoid linear unit of each element of `a`: a result, or none where it is
/// refused.
pub uninterp spec fn silu_outcome(a: Array, r: Option<Array>) -> bool;

/// `r` is what the sigmoid linear unit of each element of `a` gave.
#[verifier::inline]
pub open spec fn silu_result(a: Array, r: Array) -> bool {
    silu_outcome(a, Some(r))
}

/// The sigmoid linear unit of each element of `a` can be refused.
#[verifier::inline]
pub open spec fn silu_refused(a: Array) -> bool {
    silu_outcome(a, None)
}

/// `Tensor::silu`.
#[verifier::external_body]
pub(crate) fn silu(a: &Tensor) -> (r: Result<Tensor, Error>)
    ensures
        match r {
            Ok(t) => silu_outcome(array(*a), Some(array(t))),
            Err(_) => silu_outcome(array(*a), None),
        },
        r matches Ok(t) ==> like(array(t), array(*a)),
{
    a.silu()
}

/// `r` can come of a linear layer with the weight `w` and the bias `b` for `x`: a result, or none
/// where it is refused.
pub uninterp spec fn layer_outcome(w: Array, b: Option<Array>, x: Array, r: Option<Array>) -> bool;

/// `r` is what a linear layer with the weight `w` and the bias `b` gave for `x`.
#[verifier::inline]
pub open spec fn layer_result(w: Array, b: Option<Array>, x: Array, r: Array) -> bool {
    layer_outcome(w, b, x, Some(r))
}

/// A linear layer with the weight `w` and the bias `b` for `x` can be refused.
#[verifier::inline]
pub open spec fn layer_refused(w: Array, b: Option<Array>, x: Array) -> bool {
    layer_outcome(w, b, x, None)
}

/// What an optional tensor holds.
pub open spec fn option_array(t: Option<Tensor>) -> Option<Array> {
    match t {
        Some(x) => Some(array(x)),
        None => None,
    }
}

/// A weight is a matrix, and a bias has a number for each of its rows.
pub open spec fn layer_shaped(w: Array, b: Option<Array>) -> bool {
    &&& w.dims.len() == 2
    &&& b matches Some(v) ==> v.dims == seq![w.dims[0]]
}

/// `candle_nn::Linear::forward`. The last extent of the input becomes the number of rows of the
/// weight.
#[verifier::external_body]
pub(crate) fn layer(w: &Tensor, b: &Option<Tensor>, x: &Tensor) -> (r: Result<Tensor, Error>)
    ensures
        match r {
            Ok(t) => layer_outcome(array(*w), option_array(*b), array(*x), Some(array(t))),
            Err(_) => layer_outcome(array(*w), option_array(*b), array(*x), None),
        },
        r matches Ok(t) ==> tensor_kind(t) == tensor_kind(*x),
        r matches Ok(t) ==> layer_shaped(array(*w), option_array(*b)) ==> tensor_dims(*x).len() >= 1
            && tensor_dims(t) == tensor_dims(*x).drop_last().push(tensor_dims(*w)[0]),
{
    candle_nn::Module::forward(&candle_nn::Linear::new(w.clone(), b.clone()), x)
}

/// How a kernel is moved along the axes.
pub struct Sliding {
    pub padding: usize,
    pub stride: usize,
    pub groups: usize,
}

/// The extent that a kernel of extent `k` leaves of an extent `n`.
pub open spec fn slid(n: int, k: int, s: Sliding) -> int {
    (n + 2 * s.padding - k) / (s.stride as int) + 1
}

/// The kernel fits into the padded extent.
pub open spec fn fits(n: int, k: int, s: Sliding) -> bool {
    1 <= k <= n + 2 * s.padding <= usize::MAX
}

/// One kernel over all channels, or one for each channel.
pub open spec fn plain_groups(x: Seq<usize>, w: Seq<usize>, s: Sliding) -> bool {
    s.groups == 1 || (s.groups == x[1] && s.groups == w[0])
}

/// `r` can come of a convolution of `x` with the kernel `w` along one axis: a result, or none where
/// it is refused.
pub uninterp spec fn conv1d_outcome(x: Array, w: Array, s: Sliding, r: Option<Array>) -> bool;

/// `r` is what a convolution of `x` with the kernel `w` along one axis gave.
#[verifier::inline]
pub open spec fn conv1d_result(x: Array, w: Array, s: Sliding, r: Array) -> bool {
    conv1d_outcome(x, w, s, Some(r))
}

/// The channels of all groups can be counted, and the kernel fits along the axis.
pub open spec fn convolvable(x: Array, w: Array, s: Sliding) -> bool {
    &&& s.stride >= 1 && s.groups >= 1
    &&& x.dims.len() == 3 && w.dims.len() == 3
    &&& w.dims[1] * s.groups <= usize::MAX
    &&& fits(x.dims[2] as int, w.dims[2] as int, s)
}

/// A convolution of `x` with the kernel `w` along one axis can be refused; where the kernel does
/// not fit, it always is.
pub open spec fn conv1d_refused(x: Array, w: Array, s: Sliding) -> bool {
    !convolvable(x, w, s) || contiguous_refused(w) || conv1d_outcome(x, w, s, None)
}

/// `r` can come of a convolution of `x` with the kernel `w` along two axes: a result, or none where
/// it is refused.
pub uninterp spec fn conv2d_outcome(x: Array, w: Array, s: Sliding, r: Option<Array>) -> bool;

/// `r` is what a convolution of `x` with the kernel `w` along two axes gave.
#[verifier::inline]
pub open spec fn conv2d_result(x: Array, w: Array, s: Sliding, r: Array) -> bool {
    conv2d_outcome(x, w, s, Some(r))
}

/// The channels of all groups can be counted, and the kernel fits along both axes.
pub open spec fn convolvable_both(x: Array, w: Array, s: Sliding) -> bool {
    &&& s.stride >= 1 && s.groups >= 1
    &&& x.dims.len() == 4 && w.dims.len() == 4
    &&& w.dims[1] * s.groups <= usize::MAX
    &&& fits(x.dims[2] as int, w.dims[2] as int, s)
    &&& fits(x.dims[3] as int, w.dims[3] as int, s)
}

/// A convolution of `x` with the kernel `w` along two axes can be refused; where the kernel does
/// not fit, it always is.
pub open spec fn conv2d_refused(x: Array, w: Array, s: Sliding) -> bool {
    !convolvable_both(x, w, s) || contiguous_refused(w) || conv2d_outcome(x, w, s, None)
}

/// `Tensor::conv1d` without dilation. The channels must be countable, and the kernel must
/// fit. It reads the kernel in row-major order, however it lies.
#[verifier::external_body]
fn raw_conv1d(x: &Tensor, w: &Tensor, s: &Sliding) -> (r: Result<Tensor, Error>)
    requires
        convolvable(array(*x), array(*w), *s),
        row_major(*w),
    ensures
        match r {
            Ok(t) => conv1d_outcome(array(*x), array(*w), *s, Some(array(t))),
            Err(_) => conv1d_outcome(array(*x), array(*w), *s, None),
        },
        r matches Ok(t) ==> tensor_kind(t) == tensor_kind(*x),
        r matches Ok(t) ==> plain_groups(tensor_dims(*x), tensor_dims(*w), *s) ==> tensor_dims(t) == seq![
            tensor_dims(*x)[0],
            tensor_dims(*w)[0],
            slid(tensor_dims(*x)[2] as int, tensor_dims(*w)[2] as int, *s) as usize,
        ],
{
    x.conv1d(w, s.padding, s.stride, 1, s.groups)
}

/// `Tensor::conv2d` without dilation. The channels must be countable, and the kernel must
/// fit along both axes. It can read past a kernel that does not lie in row-major order.
#[verifier::external_body]
fn raw_conv2d(x: &Tensor, w: &Tensor, s: &Sliding) -> (r: Result<Tensor, Error>)
    requires
        convolvable_both(array(*x), array(*w), *s),
        row_major(*w),
    ensures
        match r {
            Ok(t) => conv2d_outcome(array(*x), array(*w), *s, Some(array(t))),
            Err(_) => conv2d_outcome(array(*x), array(*w), *s, None),
        },
        r matches Ok(t) ==> tensor_kind(t) == tensor_kind(*x),
        r matches Ok(t) ==> plain_groups(tensor_dims(*x), tensor_dims(*w), *s) ==> tensor_dims(t) == seq![
            tensor_dims(*x)[0],
            tensor_dims(*w)[0],
            slid(tensor_dims(*x)[2] as int, tensor_dims(*w)[2] as int, *s) as usize,
            slid(tensor_dims(*x)[3] as int, tensor_dims(*w)[3] as int, *s) as usize,
        ],
{
    x.conv2d(w, s.padding, s.stride, 1, s.groups)
}

fn kernel_fits(n: usize, k: usize, s: &Sliding) -> (r: bool)
    ensures
        r == fits(n as int, k as int, *s),
{
    if k == 0 || s.padding > (usize::MAX - n) / 2 {
        return false;
    }
    k <= n + 2 * s.padding
}

/// A convolution along one axis. A kernel that does not fit is refused.
pub(crate) fn conv1d(x: &Tensor, w: &Tensor, s: &Sliding) -> (r: Result<Tensor, Error>)
    ensures
        r matches Ok(t) ==> conv1d_result(array(*x), array(*w), *s, array(t)),
        r is Err ==> conv1d_refused(array(*x), array(*w), *s),
        r is Ok ==> convolvable(array(*x), array(*w), *s),
        r matches Ok(t) ==> tensor_kind(t) == tensor_kind(*x),
        r matches Ok(t) ==> plain_groups(tensor_dims(*x), tensor_dims(*w), *s) ==> tensor_dims(t) == seq![
            tensor_dims(*x)[0],
            tensor_dims(*w)[0],
            slid(tensor_dims(*x)[2] as int, tensor_dims(*w)[2] as int, *s) as usize,
        ],
{
    let a = dims(x);
    let b = dims(w);
    if s.stride >= 1 && s.groups >= 1 && a.len() == 3 && b.len() == 3
        && b[1].checked_mul(s.groups).is_some() && kernel_fits(a[2], b[2], s) {
        raw_conv1d(x, &contiguous(w)?, s)
    } else {
        refuse(x)
    }
}

/// A convolution along two axes. A kernel that does not fit is refused.
pub(crate) fn conv2d(x: &Tensor, w: &Tensor, s: &Sliding) -> (r: Result<Tensor, Error>)
    ensures
        r matches Ok(t) ==> conv2d_result(array(*x), array(*w), *s, array(t)),
        r is Err ==> conv2d_refused(array(*x), array(*w), *s),
        r is Ok ==> convolvable_both(array(*x), array(*w), *s),
        r matches Ok(t) ==> tensor_kind(t) == tensor_kind(*x),
        r matches Ok(t) ==> plain_groups(tensor_dims(*x), tensor_dims(*w), *s) ==> tensor_dims(t) == seq![
            tensor_dims(*x)[0],
            tensor_dims(*w)[0],
            slid(tensor_dims(*x)[2] as int, tensor_dims(*w)[2] as int, *s) as usize,
            slid(tensor_dims(*x)[3] as int, tensor_dims(*w)[3] as int, *s) as usize,
        ],
{
    let a = dims(x);
    let b = dims(w);
    if s.stride >= 1 && s.groups >= 1 && a.len() == 4 && b.len() == 4
        && b[1].checked_mul(s.groups).is_some() && kernel_fits(a[2], b[2], s) && kernel_fits(
        a[3],
        b[3],
        s,
    ) {
        raw_conv2d(x, &contiguous(w)?, s)
    } else {
        refuse(x)
    }
}

/// Some device can refuse these numbers.
pub uninterp spec fn bits_refused(bits: Seq<u32>, dims: Seq<usize>) -> bool;

/// `Tensor::from_raw_buffer` with single-precision numbers, by their bit patterns. There must be as many
/// as the extents leave room for, and multiplying those must not overflow anywhere.
#[verifier::external_body]
pub(crate) fn from_bits(bits: Vec<u32>, extents: &Vec<usize>, device: &Device) -> (r: Result<
    Tensor,
    Error,
>)
    requires
        bits@.len() == volume(extents@),
        !countless(extents@),
    ensures
        r matches Ok(t) ==> tensor_kind(t) == single() && fractional(tensor_kind(t))
            && tensor_device(t) == *device,
        r matches Ok(t) ==> tensor_dims(t) == extents@ && tensor_elems(t).len() == bits@.len()
            && forall|k: int| 0 <= k < bits@.len() ==> #[trigger] tensor_elems(t)[k] == bits@[k],
        r is Err ==> bits_refused(bits@, extents@),
{
    let bytes: Vec<u8> = bits.into_iter().flat_map(|b| b.to_ne_bytes()).collect();
    Tensor::from_raw_buffer(&bytes, DType::F32, extents, device)
}

/// `DType::F64`: the double-precision element type.
#[verifier::external_body]
pub(crate) fn double_precision() -> (r: DType)
    ensures
        kind_of(r) == double(),
{
    DType::F64
}

/// The bit pattern of an integer as a double-precision number.
pub uninterp spec fn double_bits(n: i64) -> int;

/// An integer as a double-precision number.
pub open spec fn double_of(n: i64) -> Array {
    Array { dims: Seq::empty(), elems: seq![double_bits(n)], kind: double() }
}

/// `Tensor::new` with an integer, and its `to_dtype` in double precision. In main memory it is
/// never refused.
#[verifier::external_body]
pub(crate) fn double_number(n: i64) -> (r: Result<Tensor, Error>)
    ensures
        r is Ok,
        r matches Ok(t) ==> array(t) == double_of(n),
        r matches Ok(t) ==> tensor_elems(t) == seq![double_bits(n)],
{
    Tensor::new(n, &Device::Cpu)?.to_dtype(DType::F64)
}

/// Some device can refuse to hand `a` over to main memory.
pub uninterp spec fn move_refused(a: Array) -> bool;

/// `Tensor::to_device` into main memory: the same tensor there.
#[verifier::external_body]
pub(crate) fn to_main_memory(t: &Tensor) -> (r: Result<Tensor, Error>)
    ensures
        r matches Ok(n) ==> array(n) == array(*t),
        r is Err ==> move_refused(array(*t)),
{
    t.to_device(&Device::Cpu)
}

/// `b` says whether the number `x` is greater than the number `y`. Nothing is said of types whose
/// numbers cannot be compared here.
pub open spec fn greater_result(x: Array, y: Array, b: bool) -> bool {
    comparable(x.kind) && y.kind == x.kind ==> b == exceeds(x.kind, x.elems[0], y.elems[0])
}

/// Comparing `x` and `y` can be refused.
pub uninterp spec fn greater_refused(x: Array, y: Array) -> bool;

/// `Tensor::gt` on two numbers of one type.
#[verifier::external_body]
pub(crate) fn greater(x: &Tensor, y: &Tensor) -> (r: Result<bool, Error>)
    ensures
        r matches Ok(b) ==> greater_result(array(*x), array(*y), b),
        r is Err ==> greater_refused(array(*x), array(*y)),
        r is Ok ==> tensor_dims(*x).len() == 0 && tensor_dims(*y).len() == 0 && tensor_kind(*y)
            == tensor_kind(*x),
{
    Ok(x.gt(y)?.to_scalar::<u8>()? != 0)
}

/// Unsigned integers as a vector.
pub open spec fn index_array(ids: Seq<u32>) -> Array {
    Array {
        dims: seq![ids.len() as usize],
        elems: ids.map_values(|k: u32| k as int),
        kind: index_kind(),
    }
}

/// Some device can refuse a vector of these integers.
pub uninterp spec fn index_refused(ids: Seq<u32>) -> bool;

/// `Tensor::new` with unsigned integers: a vector of them.
#[verifier::external_body]
pub(crate) fn index_vector(ids: &Vec<u32>, device: &Device) -> (r: Result<Tensor, Error>)
    ensures
        r matches Ok(t) ==> array(t) == index_array(ids@) && tensor_device(t) == *device,
        r is Err ==> index_refused(ids@),
{
    Tensor::new(ids.as_slice(), device)
}

/// `r` can come of adding `values` to those entries of the vector `a` that `ids` names: a result,
/// or none where it is refused.
pub uninterp spec fn scatter_outcome(a: Array, ids: Array, values: Array, r: Option<Array>) -> bool;

/// `r` is what adding `values` to those entries of the vector `a` that `ids` names gave.
#[verifier::inline]
pub open spec fn scatter_result(a: Array, ids: Array, values: Array, r: Array) -> bool {
    scatter_outcome(a, ids, values, Some(r))
}

/// Adding `values` to those entries of the vector `a` that `ids` names can be refused.
#[verifier::inline]
pub open spec fn scatter_refused(a: Array, ids: Array, values: Array) -> bool {
    scatter_outcome(a, ids, values, None)
}

/// Entries that are not named stay as they are.
pub open spec fn kept_entries(a: Array, ids: Array, r: Array) -> bool {
    forall|k: int|
        0 <= k < a.elems.len() && !ids.elems.contains(k) ==> #[trigger] r.elems[k] == a.elems[k]
}

/// The bit pattern of minus infinity in single precision.
pub const MINUS_INFINITY: u32 = 0xFF80_0000;

/// Where minus infinity is added to entries that `ids` names, they become minus infinity, unless they
/// are plus infinity or no numbers. All of them are of single precision.
pub open spec fn lowered_entries(a: Array, ids: Array, values: Array, r: Array) -> bool {
    a.kind == single() && values.kind == single() && a.elems.len() <= u32::MAX && (forall|i: int|
        0 <= i < values.elems.len() ==> #[trigger] values.elems[i] == MINUS_INFINITY) ==> forall|k: int|
        0 <= k < a.elems.len() && ids.elems.contains(k) && is_number(single(), a.elems[k])
            && a.elems[k] != infinity_pattern(single()) ==> #[trigger] r.elems[k] == MINUS_INFINITY
}

/// `Tensor::scatter_add` along the first axis: values are added to the entries that `ids` names, and
/// the others stay as they are. An entry that minus infinity is added to becomes minus infinity, unless it
/// is plus infinity or no number. The indices are unsigned integers of 32 bits, and the values fractions: integers
/// can overflow.
#[verifier::external_body]
pub(crate) fn scatter_add(a: &Tensor, ids: &Tensor, values: &Tensor) -> (r: Result<Tensor, Error>)
    requires
        tensor_kind(*ids) == index_kind(),
        fractional(tensor_kind(*values)),
    ensures
        match r {
            Ok(t) => scatter_outcome(array(*a), array(*ids), array(*values), Some(array(t))),
            Err(_) => scatter_outcome(array(*a), array(*ids), array(*values), None),
        },
        r matches Ok(t) ==> like(array(t), array(*a)) && tensor_dims(*ids) == tensor_dims(*values),
        r matches Ok(t) ==> tensor_dims(*a).len() == 1 ==> kept_entries(
            array(*a),
            array(*ids),
            array(t),
        ) && lowered_entries(array(*a), array(*ids), array(*values), array(t)),
{
    a.scatter_add(ids, values, 0)
}

/// `r` can come of a softmax along the first axis of `a`: a result, or none where it is refused.
pub uninterp spec fn first_softmax_outcome(a: Array, r: Option<Array>) -> bool;

/// `r` is what a softmax along the first axis of `a` gave.
pub open spec fn first_softmax_result(a: Array, r: Array) -> bool {
    first_softmax_outcome(a, Some(r)) && like(r, a)
}

/// A softmax along the first axis of `a` can be refused; of integers it always is.
pub open spec fn first_softmax_refused(a: Array) -> bool {
    !fractional(a.kind) || first_softmax_outcome(a, None)
}

/// `candle_nn::ops::softmax` along the first axis, which panics on integers.
#[verifier::external_body]
fn raw_softmax_first(a: &Tensor) -> (r: Result<Tensor, Error>)
    requires
        fractional(tensor_kind(*a)),
    ensures
        match r {
            Ok(t) => first_softmax_outcome(array(*a), Some(array(t))),
            Err(_) => first_softmax_outcome(array(*a), None),
        },
        r matches Ok(t) ==> like(array(t), array(*a)),
{
    candle_nn::ops::softmax(a, 0)
}

/// A softmax along the first axis. Integers are refused.
pub(crate) fn softmax_first(a: &Tensor) -> (r: Result<Tensor, Error>)
    ensures
        r matches Ok(t) ==> first_softmax_result(array(*a), array(t)),
        r is Err ==> first_softmax_refused(array(*a)),
        r is Ok ==> fractional(tensor_kind(*a)),
        r matches Ok(t) ==> like(array(t), array(*a)),
{
    if holds_fractions(a) {
        raw_softmax_first(a)
    } else {
        refuse(a)
    }
}

/// Two arrays of the same shape with the same numbers.
pub open spec fn same_numbers(a: Array, b: Array) -> bool {
    &&& like(a, b)
    &&& forall|i: int|
        0 <= i < a.elems.len() ==> same_number(a.kind, #[trigger] b.elems[i], a.elems[i])
}

/// All numbers are zeros or finite, in full precision.
pub open spec fn all_ordinary(a: Array) -> bool {
    comparable(a.kind) && forall|i: int|
        0 <= i < a.elems.len() ==> ordinary(a.kind, #[trigger] a.elems[i])
}

/// A block gives nothing but zeros.
pub open spec fn gives_zeros(block: spec_fn(Array, Array) -> bool) -> bool {
    forall|a: Array, b: Array, i: int|
        #![trigger block(a, b), b.elems[i]]
        block(a, b) && 0 <= i < b.elems.len() ==> is_zero(b.kind, b.elems[i])
}


/// One block behind another: what the first one gives enters the second.
pub open spec fn in_turn(
    first: spec_fn(Array, Array) -> bool,
    second: spec_fn(Array, Array) -> bool,
) -> spec_fn(Array, Array) -> bool {
    |x: Array, y: Array| exists|m: Array| #[trigger] first(x, m) && second(m, y)
}

/// A block with a way around it: what the block gives is added to what entered it.
pub open spec fn with_way_around(block: spec_fn(Array, Array) -> bool) -> spec_fn(
    Array,
    Array,
) -> bool {
    |x: Array, y: Array| exists|b: Array| #[trigger] block(x, b) && add_result(x, b, y)
}

/// Past a block that gives zeros all numbers go on unchanged.
pub proof fn lemma_way_around_zeros(block: spec_fn(Array, Array) -> bool, x: Array, y: Array)
    requires
        with_way_around(block)(x, y),
        gives_zeros(block),
        all_ordinary(x),
        x.elems.len() == volume(x.dims),
    ensures
        same_numbers(x, y),
        all_ordinary(y),
        y.elems.len() == volume(y.dims),
{
    let b = choose|b: Array| #[trigger] block(x, b) && add_result(x, b, y);
    assert forall|i: int| 0 <= i < x.elems.len() implies same_number(
        x.kind,
        #[trigger] y.elems[i],
        x.elems[i],
    ) by {
        assert(is_zero(b.kind, b.elems[i]));
        assert(ordinary(x.kind, x.elems[i]));
    }
}

/// Arrays with the same numbers as a third have the same numbers as one another.
pub proof fn lemma_same_numbers(a: Array, b: Array, c: Array)
    requires
        same_numbers(a, b),
        same_numbers(b, c),
    ensures
        same_numbers(a, c),
{
    assert forall|i: int| 0 <= i < a.elems.len() implies same_number(
        a.kind,
        #[trigger] c.elems[i],
        a.elems[i],
    ) by {
        assert(same_number(b.kind, c.elems[i], b.elems[i]));
        assert(same_number(a.kind, b.elems[i], a.elems[i]));
    }
}

/// A part of the last axis: entry `k` of row `o` is entry `start + k` of that row.
pub proof fn lemma_last_axis(a: Array, start: int, len: int, o: int, k: int)
    requires
        a.dims.len() >= 1,
        0 <= start,
        0 <= k < len,
        start + len <= a.dims.last(),
        0 <= o < volume(a.dims.drop_last()),
    ensures
        narrow_array(a, a.dims.len() - 1, start, len).elems[o * len + k] == a.elems[o
            * a.dims.last() + start + k],
{
    let last = a.dims.len() - 1;
    let w = a.dims.last() as int;
    assert(a.dims.skip(last + 1) =~= Seq::<usize>::empty());
    assert(volume(Seq::<usize>::empty()) == 1);
    assert(a.dims.take(last) =~= a.dims.drop_last());
    assert(w * 1 == w && len * 1 == len && start * 1 == start);
    lemma_division(o, len, k);
    assert(0 <= o * len + k < volume(a.dims.drop_last()) * len) by (nonlinear_arith)
        requires
            0 <= o < volume(a.dims.drop_last()),
            0 <= k < len,
    ;
}

/// The place of an index of four axes.
pub proof fn lemma_offset_of_four(d: Seq<usize>, i: Seq<int>)
    requires
        d.len() == 4,
        i.len() == 4,
    ensures
        offset(d, i) == ((i[0] * d[1] + i[1]) * d[2] + i[2]) * d[3] + i[3],
{
    reveal_with_fuel(offset, 5);
    let d3 = d.drop_last();
    let d2 = d3.drop_last();
    let d1 = d2.drop_last();
    assert(d3.last() == d[2] && d2.last() == d[1]);
    let i3 = i.drop_last();
    let i2 = i3.drop_last();
    let i1 = i2.drop_last();
    assert(i3.last() == i[2] && i2.last() == i[1] && i1.last() == i[0]);
    assert(offset(d1.drop_last(), i1.drop_last()) == 0);
    assert(0 * d1.last() == 0);
    assert(offset(d1, i1) == i[0]);
}

/// The place of an index of three axes.
pub proof fn lemma_offset_of_three(d: Seq<usize>, i: Seq<int>)
    requires
        d.len() == 3,
        i.len() == 3,
    ensures
        offset(d, i) == (i[0] * d[1] + i[1]) * d[2] + i[2],
{
    reveal_with_fuel(offset, 4);
    let d2 = d.drop_last();
    let d1 = d2.drop_last();
    assert(d2.last() == d[1]);
    let i2 = i.drop_last();
    let i1 = i2.drop_last();
    assert(i2.last() == i[1] && i1.last() == i[0]);
    assert(offset(d1.drop_last(), i1.drop_last()) == 0);
    assert(0 * d1.last() == 0);
    assert(offset(d1, i1) == i[0]);
}

} // verus!
