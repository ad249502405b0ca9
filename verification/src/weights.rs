//! Model weights, found by their dotted names.
use crate::tensor::{
    array, contiguous, contiguous_refused, kind_of, row_major, tensor_device, Array,
};
use candle_core::{DType, Device, Error, Tensor};
use vstd::prelude::*;

verus! {

/// Tensors by name, with a prefix for the names that are asked for.
///
/// It holds a `candle_nn::VarBuilder` over a map of tensors.
#[verifier::external_body]
pub struct WeightStore {
    pub(crate) inner: candle_nn::VarBuilder<'static>,
}

/// The tensors of a store by their full names.
pub uninterp spec fn stored_weights(w: WeightStore) -> Map<Seq<char>, Array>;

/// The parts of the prefix of a store.
pub uninterp spec fn weight_prefix(w: WeightStore) -> Seq<Seq<char>>;

/// The number of the element type that a store hands tensors out with.
pub uninterp spec fn weight_kind(w: WeightStore) -> int;

/// Where a store hands tensors out.
pub uninterp spec fn weight_device(w: WeightStore) -> Device;

/// `r` can come of moving and converting the tensor `a` to a store's device and element type of
/// that number: a result, or none where it is refused.
pub uninterp spec fn conversion_outcome(a: Array, kind: int, r: Option<Array>) -> bool;

/// `r` is `a` moved and converted to the device and the element type of a store. Elements that have
/// the type already stay as they are.
pub open spec fn converted(w: WeightStore, a: Array, r: Array) -> bool {
    &&& conversion_outcome(a, weight_kind(w), Some(r))
    &&& r.dims == a.dims
    &&& r.kind == weight_kind(w)
    &&& a.kind == weight_kind(w) ==> r == a
}

/// The map that entries make; of two entries with one name the later one counts.
pub open spec fn entry_map(entries: Seq<(String, Tensor)>) -> Map<Seq<char>, Array>
    decreases entries.len(),
{
    if entries.len() == 0 {
        Map::empty()
    } else {
        entry_map(entries.drop_last()).insert(entries.last().0@, array(entries.last().1))
    }
}

/// The parts of a prefix and a name, with dots between them.
pub open spec fn dotted(prefix: Seq<Seq<char>>, name: Seq<char>) -> Seq<char>
    decreases prefix.len(),
{
    if prefix.len() == 0 {
        name
    } else {
        prefix[0] + seq!['.'] + dotted(prefix.skip(1), name)
    }
}

/// The tensor of that name is there and has these extents.
pub open spec fn has_weight(w: WeightStore, name: Seq<char>, dims: Seq<usize>) -> bool {
    let key = dotted(weight_prefix(w), name);
    stored_weights(w).contains_key(key) && stored_weights(w)[key].dims == dims
}

/// `t` is the tensor of that name, converted to the store's element type.
pub open spec fn weight_loaded(
    w: WeightStore,
    name: Seq<char>,
    dims: Seq<usize>,
    t: Tensor,
) -> bool {
    &&& has_weight(w, name, dims)
    &&& converted(w, stored_weights(w)[dotted(weight_prefix(w), name)], array(t))
    &&& tensor_device(t) == weight_device(w)
}

/// There is no tensor of that name with these extents, or it can be refused on its way to the
/// store's device and element type.
pub open spec fn weight_refused(w: WeightStore, name: Seq<char>, dims: Seq<usize>) -> bool {
    !has_weight(w, name, dims) || conversion_outcome(
        stored_weights(w)[dotted(weight_prefix(w), name)],
        weight_kind(w),
        None,
    )
}

/// A store with the same tensors under a longer prefix.
pub open spec fn narrowed(w: WeightStore, part: Seq<char>, r: WeightStore) -> bool {
    &&& stored_weights(r) == stored_weights(w)
    &&& weight_prefix(r) == weight_prefix(w).push(part)
    &&& weight_kind(r) == weight_kind(w)
    &&& weight_device(r) == weight_device(w)
}

/// `VarBuilder::from_tensors`: the given tensors, without a prefix. Tensors are handed out with
/// the given element type on the given device. They lie in row-major order, in which models read them.
#[verifier::external_body]
fn store_of(entries: Vec<(String, Tensor)>, dtype: DType, device: &Device) -> (r: WeightStore)
    requires
        forall|i: int| 0 <= i < entries@.len() ==> row_major((#[trigger] entries@[i]).1),
    ensures
        stored_weights(r) == entry_map(entries@),
        weight_prefix(r) == Seq::<Seq<char>>::empty(),
        weight_kind(r) == kind_of(dtype),
        weight_device(r) == *device,
{
    WeightStore {
        inner: candle_nn::VarBuilder::from_tensors(entries.into_iter().collect(), dtype, device),
    }
}

/// `VarBuilder::pp`: the same tensors with one more part to the prefix.
#[verifier::external_body]
fn with_part(w: &WeightStore, part: &str) -> (r: WeightStore)
    ensures
        stored_weights(r) == stored_weights(*w),
        weight_prefix(r) == weight_prefix(*w).push(part@),
        weight_kind(r) == weight_kind(*w),
        weight_device(r) == weight_device(*w),
{
    WeightStore { inner: w.inner.pp(part) }
}

/// `VarBuilder::get`: the tensor of that name, moved and converted to the device and the element type
/// of the store. It is refused where there is none or where its extents are others; moving and
/// converting it may fail too.
#[verifier::external_body]
fn fetch(w: &WeightStore, dims: Vec<usize>, name: &str) -> (r: Result<Tensor, Error>)
    ensures
        r is Ok ==> has_weight(*w, name@, dims@),
        has_weight(*w, name@, dims@) ==> conversion_outcome(
            stored_weights(*w)[dotted(weight_prefix(*w), name@)],
            weight_kind(*w),
            match r {
                Ok(t) => Some(array(t)),
                Err(_) => None,
            },
        ),
        r matches Ok(t) ==> weight_loaded(*w, name@, dims@, t),
{
    w.inner.get(dims, name)
}

impl WeightStore {
    /// A store of the given tensors, without a prefix. They are laid out in row-major order.
    pub fn from_tensors(
        entries: Vec<(String, Tensor)>,
        dtype: DType,
        device: &Device,
    ) -> (r: Result<WeightStore, Error>)
        ensures
            r matches Ok(s) ==> {
                &&& stored_weights(s) == entry_map(entries@)
                &&& weight_prefix(s) == Seq::<Seq<char>>::empty()
                &&& weight_kind(s) == kind_of(dtype)
                &&& weight_device(s) == *device
            },
            r is Err ==> exists|i: int|
                0 <= i < entries@.len() && contiguous_refused(array((#[trigger] entries@[i]).1)),
    {
        let mut laid: Vec<(String, Tensor)> = Vec::new();
        let mut i: usize = 0;
        while i < entries.len()
            invariant
                i <= entries@.len(),
                entry_map(laid@) == entry_map(entries@.take(i as int)),
                forall|k: int| 0 <= k < laid@.len() ==> row_major((#[trigger] laid@[k]).1),
            decreases entries@.len() - i,
        {
            let t = match contiguous(&entries[i].1) {
                Ok(t) => t,
                Err(e) => {
                    assert(contiguous_refused(array(entries@[i as int].1)));
                    return Err(e);
                },
            };
            let name = entries[i].0.clone();
            let ghost before = laid@;
            laid.push((name, t));
            proof {
                assert(laid@.drop_last() =~= before);
                assert(entries@.take(i + 1).drop_last() =~= entries@.take(i as int));
                assert(entries@.take(i + 1).last() == entries@[i as int]);
            }
            i += 1;
        }
        assert(entries@.take(entries@.len() as int) =~= entries@);
        Ok(store_of(laid, dtype, device))
    }

    /// The same store with one more part to its prefix.
    pub fn pp(&self, part: &str) -> (r: WeightStore)
        ensures
            narrowed(*self, part@, r),
    {
        with_part(self, part)
    }

    /// The tensor of that name with these extents.
    pub fn get(&self, dims: Vec<usize>, name: &str) -> (r: Result<Tensor, Error>)
        ensures
            r is Ok ==> has_weight(*self, name@, dims@),
            r matches Ok(t) ==> weight_loaded(*self, name@, dims@, t),
            r is Err ==> weight_refused(*self, name@, dims@),
    {
        fetch(self, dims, name)
    }
}

/// A part of a prefix is a part of the name: asking for a name under one more part is asking for the part, a
/// dot and the name.
pub proof fn law_parts_are_dotted(prefix: Seq<Seq<char>>, part: Seq<char>, name: Seq<char>)
    ensures
        dotted(prefix.push(part), name) == dotted(prefix, part + seq!['.'] + name),
        dotted(Seq::empty(), name) == name,
    decreases prefix.len(),
{
    let longer = prefix.push(part);
    if prefix.len() > 0 {
        law_parts_are_dotted(prefix.skip(1), part, name);
        assert(longer.skip(1) =~= prefix.skip(1).push(part));
        assert(longer[0] == prefix[0]);
    } else {
        assert(longer.skip(1) =~= Seq::<Seq<char>>::empty());
        assert(dotted(longer.skip(1), name) == name);
    }
}

/// The tensor that is loaded from a narrowed store is the one that the whole store has under the longer name.
pub proof fn law_narrowed_stores_find_the_same(
    w: WeightStore,
    part: Seq<char>,
    r: WeightStore,
    name: Seq<char>,
    dims: Seq<usize>,
    t: Tensor,
)
    requires
        narrowed(w, part, r),
    ensures
        weight_loaded(r, name, dims, t) <==> weight_loaded(w, part + seq!['.'] + name, dims, t),
        weight_refused(r, name, dims) <==> weight_refused(w, part + seq!['.'] + name, dims),
{
    law_parts_are_dotted(weight_prefix(w), part, name);
}

/// A later tensor of a name replaces an earlier one, and leaves those of other names as they are.
pub proof fn law_later_tensors_replace(entries: Seq<(String, Tensor)>, e: (String, Tensor))
    ensures
        entry_map(entries.push(e)).contains_key(e.0@),
        entry_map(entries.push(e))[e.0@] == array(e.1),
        forall|name: Seq<char>|
            name != e.0@ ==> (#[trigger] entry_map(entries.push(e)).contains_key(name)
                == entry_map(entries).contains_key(name)),
        forall|name: Seq<char>|
            name != e.0@ && entry_map(entries).contains_key(name) ==> #[trigger] entry_map(
                entries.push(e),
            )[name] == entry_map(entries)[name],
{
    assert(entries.push(e).drop_last() =~= entries);
}

} // verus!
