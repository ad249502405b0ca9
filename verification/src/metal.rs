//! Care for graphics processors of Apple: a trial before a model is loaded, and a rest between the
//! stages of a computation.
use crate::tensor::{
    array, bits_refused, from_bits, matmul, matmul_refused, matmul_result, single, single_precision,
    tensor_device, transpose, transposed, two, zeros, zeros_array, zeros_refused, Array,
};
use candle_core::scalar::Scalar;
use candle_core::{Device, Error, Tensor};
use vstd::prelude::*;

verus! {

/// A device is a graphics processor of Apple.
pub uninterp spec fn on_metal(d: Device) -> bool;

/// `Device::is_metal`.
#[verifier::external_body]
fn is_metal(d: &Device) -> (r: bool)
    ensures
        r == on_metal(*d),
{
    d.is_metal()
}

/// `done` can come of waiting for a device: it has done what it was given, or it is refused.
pub uninterp spec fn waiting_outcome(d: Device, done: bool) -> bool;

/// `Device::synchronize`: waits until the device has done what it was given. Whether it can depends on
/// the device.
#[verifier::external_body]
fn synchronize(d: &Device) -> (r: Result<(), Error>)
    ensures
        waiting_outcome(*d, r is Ok),
{
    d.synchronize()
}

/// `done` can come of reading the numbers of `a` from its device: they are read, or it is refused.
pub uninterp spec fn reading_outcome(a: Array, done: bool) -> bool;

/// `Tensor::to_vec2` with single-precision numbers, which are read from the device and dropped. Whether
/// they can be read depends on the device.
#[verifier::external_body]
fn read_back(t: &Tensor) -> (r: Result<(), Error>)
    ensures
        reading_outcome(array(*t), r is Ok),
{
    let rows: Vec<Vec<Scalar>> = t.to_vec2()?.into_iter().map(
        |r| r.into_iter().map(Scalar::F32).collect(),
    ).collect();
    drop(rows);
    Ok(())
}

/// One, as a bit pattern.
pub const ONE: u32 = 0x3F80_0000;

/// A half, as a bit pattern.
pub const HALF: u32 = 0x3F00_0000;

/// A tenth, as a bit pattern.
pub const TENTH: u32 = 0x3DCC_CCCD;

/// A matrix with the same number everywhere.
pub open spec fn uniform_array(bits: u32, rows: usize, cols: usize) -> Array {
    Array {
        dims: seq![rows, cols],
        elems: Seq::new((rows * cols) as nat, |k: int| bits as int),
        kind: single(),
    }
}

fn uniform(bits: u32, rows: usize, cols: usize, device: &Device) -> (r: Result<Tensor, Error>)
    requires
        rows * cols <= usize::MAX,
    ensures
        r matches Ok(t) ==> array(t) == uniform_array(bits, rows, cols) && tensor_device(t)
            == *device,
        r is Err ==> uniform_refused(bits, rows, cols),
{
    assert(0 <= rows * cols) by (nonlinear_arith);
    let n: usize = rows * cols;
    let mut all: Vec<u32> = Vec::new();
    let mut i: usize = 0;
    while i < n
        invariant
            i <= n,
            all@.len() == i,
            forall|k: int| 0 <= k < i ==> #[trigger] all@[k] == bits,
        decreases n - i,
    {
        all.push(bits);
        i += 1;
    }
    assert(all@ =~= uniform_bits(bits, rows, cols));
    let t = from_bits(all, &two(rows, cols), device)?;
    assert(array(t) =~= uniform_array(bits, rows, cols));
    Ok(t)
}

/// The stages of a trial.
#[derive(Debug, Clone, Copy, PartialEq, Eq, Structural)]
pub enum ProbeStage {
    /// A product of two small matrices.
    SmallProduct,
    /// Memory filled with zeros.
    Zeros,
    /// A product of the size of a layer.
    LargeProduct,
}

/// The steps of each stage.
#[derive(Debug, Clone, Copy, PartialEq, Eq, Structural)]
pub enum ProbeStep {
    /// The operands are made.
    Operands,
    /// The result is computed.
    Result,
    /// The device is waited for.
    Wait,
    /// The result is read.
    Read,
}

/// Where a trial failed, and why.
pub struct ProbeFailure {
    pub stage: ProbeStage,
    pub step: ProbeStep,
    pub error: Error,
}

/// The operands of the small product.
pub open spec fn small_operand() -> Array {
    uniform_array(ONE, 8, 8)
}

/// The left operand of the large product.
pub open spec fn large_left() -> Array {
    uniform_array(HALF, 1, 768)
}

/// The right operand of the large product.
pub open spec fn large_right() -> Array {
    transposed(uniform_array(TENTH, 768, 768))
}

/// The zeros of a trial.
pub open spec fn zero_block() -> Array {
    zeros_array(seq![8usize, 8], single())
}

/// The same number for each element of a matrix.
pub open spec fn uniform_bits(bits: u32, rows: usize, cols: usize) -> Seq<u32> {
    Seq::new((rows * cols) as nat, |k: int| bits)
}

/// Numbers of a matrix can be refused.
pub open spec fn uniform_refused(bits: u32, rows: usize, cols: usize) -> bool {
    bits_refused(uniform_bits(bits, rows, cols), seq![rows, cols])
}

/// A stage is over: its result was computed, and read back after the device was waited for.
pub open spec fn stage_passed(device: Device, stage: ProbeStage, result: Array) -> bool {
    &&& match stage {
        ProbeStage::SmallProduct => matmul_result(small_operand(), small_operand(), result),
        ProbeStage::Zeros => result == zero_block(),
        ProbeStage::LargeProduct => matmul_result(large_left(), large_right(), result),
    }
    &&& waiting_outcome(device, true)
    &&& reading_outcome(result, true)
}

/// The stages before one are over.
pub open spec fn earlier_passed(device: Device, stage: ProbeStage) -> bool {
    &&& !(stage is SmallProduct) ==> exists|a: Array| #[trigger]
        stage_passed(device, ProbeStage::SmallProduct, a)
    &&& stage is LargeProduct ==> exists|a: Array| #[trigger]
        stage_passed(device, ProbeStage::Zeros, a)
}

/// Making the operands of a stage or computing its result can be refused.
pub open spec fn making_stops(stage: ProbeStage, step: ProbeStep) -> bool {
    match stage {
        ProbeStage::SmallProduct => match step {
            ProbeStep::Operands => uniform_refused(ONE, 8, 8),
            ProbeStep::Result => matmul_refused(small_operand(), small_operand()),
            _ => false,
        },
        ProbeStage::Zeros => step is Result && zeros_refused(seq![8usize, 8], single()),
        ProbeStage::LargeProduct => match step {
            ProbeStep::Operands => uniform_refused(HALF, 1, 768) || uniform_refused(
                TENTH,
                768,
                768,
            ),
            ProbeStep::Result => matmul_refused(large_left(), large_right()),
            _ => false,
        },
    }
}

/// `result` was computed in a stage, and waiting for the device, or reading it back, can be refused.
pub open spec fn settling_stops(
    device: Device,
    stage: ProbeStage,
    step: ProbeStep,
    result: Array,
) -> bool {
    &&& match stage {
        ProbeStage::SmallProduct => matmul_result(small_operand(), small_operand(), result),
        ProbeStage::Zeros => result == zero_block(),
        ProbeStage::LargeProduct => matmul_result(large_left(), large_right(), result),
    }
    &&& match step {
        ProbeStep::Wait => waiting_outcome(device, false),
        ProbeStep::Read => waiting_outcome(device, true) && reading_outcome(result, false),
        _ => false,
    }
}

/// A trial can stop at this step of this stage: the stages before it are over, and the step is refused.
pub open spec fn probe_stops(device: Device, stage: ProbeStage, step: ProbeStep) -> bool {
    &&& earlier_passed(device, stage)
    &&& {
        ||| making_stops(stage, step)
        ||| exists|a: Array| #[trigger] settling_stops(device, stage, step, a)
    }
}

/// All stages of a trial are over.
pub open spec fn probe_passed(device: Device) -> bool {
    &&& earlier_passed(device, ProbeStage::LargeProduct)
    &&& exists|a: Array| #[trigger] stage_passed(device, ProbeStage::LargeProduct, a)
}

fn settle(t: &Tensor, device: &Device, stage: ProbeStage) -> (r: Result<(), ProbeFailure>)
    ensures
        r matches Err(e) ==> e.stage == stage && (e.step is Wait || e.step is Read),
        waiting_outcome(*device, !(r matches Err(e) && e.step is Wait)),
        r is Ok ==> reading_outcome(array(*t), true),
        r matches Err(e) ==> e.step is Read ==> reading_outcome(array(*t), false),
{
    match synchronize(device) {
        Ok(_) => {},
        Err(error) => {
            return Err(ProbeFailure { stage, step: ProbeStep::Wait, error });
        },
    }
    match read_back(t) {
        Ok(_) => Ok(()),
        Err(error) => Err(ProbeFailure { stage, step: ProbeStep::Read, error }),
    }
}

fn small_product(device: &Device) -> (r: Result<Tensor, ProbeFailure>)
    ensures
        r matches Ok(c) ==> matmul_result(small_operand(), small_operand(), array(c)),
        r matches Err(e) ==> e.stage is SmallProduct && making_stops(e.stage, e.step),
{
    let stage = ProbeStage::SmallProduct;
    let a = match uniform(ONE, 8, 8, device) {
        Ok(t) => t,
        Err(error) => {
            return Err(ProbeFailure { stage, step: ProbeStep::Operands, error });
        },
    };
    let b = match uniform(ONE, 8, 8, device) {
        Ok(t) => t,
        Err(error) => {
            return Err(ProbeFailure { stage, step: ProbeStep::Operands, error });
        },
    };
    match matmul(&a, &b) {
        Ok(c) => Ok(c),
        Err(error) => Err(ProbeFailure { stage, step: ProbeStep::Result, error }),
    }
}

fn large_product(device: &Device) -> (r: Result<Tensor, ProbeFailure>)
    ensures
        r matches Ok(y) ==> matmul_result(large_left(), large_right(), array(y)),
        r matches Err(e) ==> e.stage is LargeProduct && making_stops(e.stage, e.step),
{
    let stage = ProbeStage::LargeProduct;
    let x = match uniform(HALF, 1, 768, device) {
        Ok(t) => t,
        Err(error) => {
            return Err(ProbeFailure { stage, step: ProbeStep::Operands, error });
        },
    };
    let w = match uniform(TENTH, 768, 768, device) {
        Ok(t) => t,
        Err(error) => {
            return Err(ProbeFailure { stage, step: ProbeStep::Operands, error });
        },
    };
    let turned = match transpose(&w) {
        Ok(t) => t,
        Err(error) => {
            return Err(ProbeFailure { stage, step: ProbeStep::Operands, error });
        },
    };
    match matmul(&x, &turned) {
        Ok(y) => Ok(y),
        Err(error) => Err(ProbeFailure { stage, step: ProbeStep::Result, error }),
    }
}

fn zero_matrix(device: &Device) -> (r: Result<Tensor, ProbeFailure>)
    ensures
        r matches Ok(z) ==> array(z) == zero_block(),
        r matches Err(e) ==> e.stage is Zeros && making_stops(e.stage, e.step),
{
    let d = two(8, 8);
    match zeros(d, single_precision(), device) {
        Ok(z) => Ok(z),
        Err(error) => Err(ProbeFailure { stage: ProbeStage::Zeros, step: ProbeStep::Result, error }),
    }
}

/// Tries a graphics processor of Apple: products of matrices, memory of zeros, and reading results.
/// Other devices pass.
pub fn metal_probe(device: &Device) -> (r: Result<(), ProbeFailure>)
    ensures
        !on_metal(*device) ==> r is Ok,
        on_metal(*device) && r is Ok ==> probe_passed(*device),
        r matches Err(e) ==> probe_stops(*device, e.stage, e.step),
{
    if !is_metal(device) {
        return Ok(());
    }
    let c = small_product(device)?;
    match settle(&c, device, ProbeStage::SmallProduct) {
        Ok(_) => {},
        Err(e) => {
            assert(settling_stops(*device, e.stage, e.step, array(c)));
            return Err(e);
        },
    }
    assert(stage_passed(*device, ProbeStage::SmallProduct, array(c)));
    let z = zero_matrix(device)?;
    match settle(&z, device, ProbeStage::Zeros) {
        Ok(_) => {},
        Err(e) => {
            assert(settling_stops(*device, e.stage, e.step, array(z)));
            return Err(e);
        },
    }
    assert(stage_passed(*device, ProbeStage::Zeros, array(z)));
    let y = large_product(device)?;
    match settle(&y, device, ProbeStage::LargeProduct) {
        Ok(_) => {},
        Err(e) => {
            assert(settling_stops(*device, e.stage, e.step, array(y)));
            return Err(e);
        },
    }
    assert(stage_passed(*device, ProbeStage::LargeProduct, array(y)));
    Ok(())
}

/// Waits until a graphics processor of Apple has done what it was given. Other devices need no rest.
pub fn metal_sync(device: &Device) -> (r: Result<(), Error>)
    ensures
        !on_metal(*device) ==> r is Ok,
        on_metal(*device) ==> waiting_outcome(*device, r is Ok),
{
    if is_metal(device) {
        synchronize(device)
    } else {
        Ok(())
    }
}

} // verus!
