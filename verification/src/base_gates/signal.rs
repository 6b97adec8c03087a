use vstd::prelude::*;
use crate::base_gates::gate_type::GateType;

verus! {

/// The widest bus a gate can carry.
pub const MAX_BUS_WIDTH: u64 = 64;

/// The value with the low `bus_width` bits set: `(1 << bus_width) - 1`, and
/// all ones for a full 64-bit bus.
pub open spec fn mask(bus_width: u64) -> u64 {
    if bus_width >= 64 {
        u64::MAX
    } else {
        ((1u64 << bus_width) - 1) as u64
    }
}

/// Whether `value` has no bit set at or above `bus_width`.
pub open spec fn fits(value: u64, bus_width: u64) -> bool {
    value & mask(bus_width) == value
}

/// The operation folded over `inputs` from the left, starting at `inputs[0]`.
pub open spec fn fold_inputs(gate_type: GateType, inputs: Seq<u64>) -> u64
    decreases inputs.len(),
{
    if inputs.len() == 0 {
        0
    } else if inputs.len() == 1 {
        inputs[0]
    } else {
        gate_type.combine(fold_inputs(gate_type, inputs.drop_last()), inputs.last())
    }
}

/// The output of a gate: the complement of its one input for `Not`, the
/// fold of its inputs otherwise, cut to the bus width.
pub open spec fn evaluate(gate_type: GateType, inputs: Seq<u64>, bus_width: u64) -> u64 {
    if gate_type == GateType::Not {
        !inputs[0] & mask(bus_width)
    } else {
        fold_inputs(gate_type, inputs) & mask(bus_width)
    }
}

/// Computes the mask of a bus.
pub fn bus_mask(bus_width: u64) -> (m: u64)
    requires
        bus_width <= MAX_BUS_WIDTH,
    ensures
        m == mask(bus_width),
{
    if bus_width >= 64 {
        u64::MAX
    } else {
        assert((1u64 << bus_width) >= 1) by (bit_vector)
            requires
                bus_width < 64,
        ;
        (1u64 << bus_width) - 1
    }
}

/// Cutting a value to a bus width twice is the same as cutting it once.
pub proof fn lemma_mask_idempotent(value: u64, bus_width: u64)
    ensures
        fits(value & mask(bus_width), bus_width),
{
    let m = mask(bus_width);
    assert((value & m) & m == value & m) by (bit_vector);
}

/// No gate output has a bit set at or above the bus width.
pub proof fn lemma_evaluate_fits(gate_type: GateType, inputs: Seq<u64>, bus_width: u64)
    ensures
        fits(evaluate(gate_type, inputs, bus_width), bus_width),
{
    if gate_type == GateType::Not {
        lemma_mask_idempotent(!inputs[0], bus_width);
    } else {
        lemma_mask_idempotent(fold_inputs(gate_type, inputs), bus_width);
    }
}

/// Folding any two-input operation over zeros gives zero.
pub proof fn lemma_fold_zeros(gate_type: GateType, inputs: Seq<u64>)
    requires
        forall|i: int| 0 <= i < inputs.len() ==> inputs[i] == 0,
    ensures
        fold_inputs(gate_type, inputs) == 0,
    decreases inputs.len(),
{
    if inputs.len() >= 2 {
        lemma_fold_zeros(gate_type, inputs.drop_last());
        assert(0u64 & 0u64 == 0u64) by (bit_vector);
        assert(0u64 | 0u64 == 0u64) by (bit_vector);
        assert(0u64 ^ 0u64 == 0u64) by (bit_vector);
    }
}

/// A gate whose inputs are all zero puts out all ones under the mask when it
/// is a `Not` gate, and zero otherwise.
pub proof fn lemma_evaluate_zeros(gate_type: GateType, inputs: Seq<u64>, bus_width: u64)
    requires
        inputs.len() >= 1,
        forall|i: int| 0 <= i < inputs.len() ==> inputs[i] == 0,
    ensures
        evaluate(gate_type, inputs, bus_width) == if gate_type == GateType::Not {
            mask(bus_width)
        } else {
            0
        },
{
    let m = mask(bus_width);
    if gate_type == GateType::Not {
        assert(!0u64 & m == m) by (bit_vector);
    } else {
        lemma_fold_zeros(gate_type, inputs);
        assert(0u64 & m == 0) by (bit_vector);
    }
}

} // verus!
