use vstd::prelude::*;
use crate::base_gates::gate_error::GateError;
use crate::base_gates::gate_type::GateType;
use crate::base_gates::signal::{
    bus_mask, evaluate, fits, fold_inputs, lemma_evaluate_fits, lemma_evaluate_zeros,
    lemma_mask_idempotent, mask, MAX_BUS_WIDTH,
};

verus! {

/// A combinational unit: a fixed operation over a fixed number of input
/// slots on a bus of fixed width, with its output kept in step.
#[derive(Debug, PartialEq, Eq)]
pub struct Gate {
    gate_type: GateType,
    bus_width: u64,
    inputs: Vec<u64>,
    output: u64,
}

/// What a gate is, as plain values.
pub struct GateModel {
    pub gate_type: GateType,
    pub bus_width: u64,
    pub inputs: Seq<u64>,
    pub output: u64,
}

/// The value of the last update in `updates` that names `slot`, if any does.
pub open spec fn last_update(updates: Seq<(usize, u64)>, slot: int) -> Option<u64>
    decreases updates.len(),
{
    if updates.len() == 0 {
        None
    } else if updates.last().0 == slot {
        Some(updates.last().1)
    } else {
        last_update(updates.drop_last(), slot)
    }
}

/// The slot named by the first update that no gate of `arity` slots has.
pub open spec fn first_stray_slot(updates: Seq<(usize, u64)>, arity: nat) -> Option<usize>
    decreases updates.len(),
{
    if updates.len() == 0 {
        None
    } else {
        match first_stray_slot(updates.drop_last(), arity) {
            Some(slot) => Some(slot),
            None => if updates.last().0 >= arity {
                Some(updates.last().0)
            } else {
                None
            },
        }
    }
}

/// Why a gate of this type, arity and bus width cannot be built, if it cannot.
pub open spec fn construction_error(gate_type: GateType, arity: usize, bus_width: u64) -> Option<
    GateError,
> {
    if bus_width > MAX_BUS_WIDTH {
        Some(GateError::BusTooBig(bus_width))
    } else if gate_type == GateType::Not && arity != 1 {
        Some(GateError::NotGateArityViolation(arity))
    } else if gate_type != GateType::Not && arity < 2 {
        Some(GateError::MultiInputGateArityViolation(gate_type, arity))
    } else {
        None
    }
}

impl GateModel {
    /// The number of input slots.
    pub open spec fn arity(self) -> nat {
        self.inputs.len()
    }

    /// The shape is one that can be built and every input fits the bus.
    pub open spec fn shaped(self) -> bool {
        &&& self.arity() <= usize::MAX
        &&& construction_error(self.gate_type, self.arity() as usize, self.bus_width) is None
        &&& forall|i: int| 0 <= i < self.inputs.len() ==> fits(#[trigger] self.inputs[i], self.bus_width)
    }

    /// The shape is valid and the output is what the inputs give.
    pub open spec fn wf(self) -> bool {
        &&& self.shaped()
        &&& self.output == evaluate(self.gate_type, self.inputs, self.bus_width)
    }

    /// A gate as it is built: every input zero.
    pub open spec fn fresh(gate_type: GateType, arity: usize, bus_width: u64) -> GateModel {
        let inputs = Seq::new(arity as nat, |i: int| 0u64);
        GateModel { gate_type, bus_width, inputs, output: evaluate(gate_type, inputs, bus_width) }
    }

    /// Why `updates` cannot be applied to this gate, if they cannot.
    pub open spec fn update_error(self, updates: Seq<(usize, u64)>) -> Option<GateError> {
        if updates.len() > self.arity() {
            Some(
                GateError::TooManyInputsGiven {
                    arity: self.arity() as usize,
                    given: updates.len() as usize,
                },
            )
        } else {
            match first_stray_slot(updates, self.arity()) {
                Some(index) => Some(
                    GateError::InputIndexOutOfRange { index, arity: self.arity() as usize },
                ),
                None => None,
            }
        }
    }

    /// The inputs after `updates`: a slot that an update names holds the
    /// value of the last such update, cut to the bus; any other slot keeps
    /// its value.
    pub open spec fn updated_inputs(self, updates: Seq<(usize, u64)>) -> Seq<u64> {
        Seq::new(
            self.inputs.len(),
            |slot: int|
                match last_update(updates, slot) {
                    Some(value) => value & mask(self.bus_width),
                    None => self.inputs[slot],
                },
        )
    }

    /// This gate after `updates`, its output recomputed.
    pub open spec fn with_updates(self, updates: Seq<(usize, u64)>) -> GateModel {
        let inputs = self.updated_inputs(updates);
        GateModel { inputs, output: evaluate(self.gate_type, inputs, self.bus_width), ..self }
    }

    /// This gate after `updates` are offered to it: changed when they can be
    /// applied, as it was when they cannot.
    pub open spec fn offer(self, updates: Seq<(usize, u64)>) -> GateModel {
        if self.update_error(updates) is None {
            self.with_updates(updates)
        } else {
            self
        }
    }
}

impl View for Gate {
    type V = GateModel;

    closed spec fn view(&self) -> GateModel {
        GateModel {
            gate_type: self.gate_type,
            bus_width: self.bus_width,
            inputs: self.inputs@,
            output: self.output,
        }
    }
}

impl Gate {
    /// The invariant of a gate: a valid shape, masked inputs, and an output that
    /// equals the operation applied to the inputs.
    pub open spec fn wf(&self) -> bool {
        self@.wf()
    }

    /// Builds a gate with every input at zero and the output computed.
    pub fn new(gate_type: GateType, input_size: usize, bus_size: u64) -> (r: Result<Gate, GateError>)
        ensures
            match r {
                Ok(g) => {
                    &&& construction_error(gate_type, input_size, bus_size) is None
                    &&& g.wf()
                    &&& g@ == GateModel::fresh(gate_type, input_size, bus_size)
                    &&& g@.output == if gate_type == GateType::Not {
                        mask(bus_size)
                    } else {
                        0
                    }
                },
                Err(e) => construction_error(gate_type, input_size, bus_size) == Some(e),
            },
    {
        if bus_size > MAX_BUS_WIDTH {
            return Err(GateError::BusTooBig(bus_size));
        }
        if gate_type == GateType::Not && input_size != 1 {
            return Err(GateError::NotGateArityViolation(input_size));
        }
        if gate_type != GateType::Not && input_size < 2 {
            return Err(GateError::MultiInputGateArityViolation(gate_type, input_size));
        }
        let inputs = vec![0u64; input_size];
        let mut g = Gate { gate_type, bus_width: bus_size, inputs, output: 0 };
        proof {
            assert(g.inputs@ =~= Seq::new(input_size as nat, |i: int| 0u64));
            assert forall|i: int| 0 <= i < g.inputs@.len() implies fits(
                #[trigger] g.inputs@[i],
                bus_size,
            ) by {
                assert(0u64 & mask(bus_size) == 0) by (bit_vector);
            }
            lemma_evaluate_zeros(gate_type, g.inputs@, bus_size);
        }
        g.logic();
        Ok(g)
    }

    /// Recomputes the output from the inputs.
    fn logic(&mut self)
        requires
            old(self)@.shaped(),
        ensures
            final(self)@ == (GateModel {
                output: evaluate(old(self)@.gate_type, old(self)@.inputs, old(self)@.bus_width),
                ..old(self)@
            }),
            final(self).wf(),
    {
        let m = bus_mask(self.bus_width);
        if self.gate_type == GateType::Not {
            self.output = !self.inputs[0] & m;
        } else {
            let n = self.inputs.len();
            let mut acc: u64 = self.inputs[0];
            let mut i: usize = 1;
            assert(self.inputs@.take(1) =~= seq![self.inputs@[0]]);
            while i < n
                invariant
                    1 <= i <= n,
                    n == self.inputs@.len(),
                    self.inputs@ == old(self).inputs@,
                    self.gate_type == old(self).gate_type,
                    self.gate_type != GateType::Not,
                    acc == fold_inputs(self.gate_type, self.inputs@.take(i as int)),
                decreases n - i,
            {
                let next = self.inputs[i];
                assert(self.inputs@.take(i + 1).drop_last() =~= self.inputs@.take(i as int));
                acc = self.gate_type.apply(acc, next);
                i = i + 1;
            }
            assert(self.inputs@.take(n as int) =~= self.inputs@);
            self.output = acc & m;
        }
    }

    /// Overwrites the named input slots, in order, and recomputes the output
    /// once. Slots that no update names keep their value. Nothing changes
    /// when any update is refused.
    pub fn set_inputs(&mut self, updates: Vec<(usize, u64)>) -> (r: Result<(), GateError>)
        requires
            old(self).wf(),
        ensures
            final(self).wf(),
            final(self)@ == old(self)@.offer(updates@),
            match r {
                Ok(_) => old(self)@.update_error(updates@) is None,
                Err(e) => old(self)@.update_error(updates@) == Some(e),
            },
    {
        let arity = self.inputs.len();
        let given = updates.len();
        if given > arity {
            return Err(GateError::TooManyInputsGiven { arity, given });
        }
        let mut i: usize = 0;
        while i < given
            invariant
                i <= given,
                given == updates@.len(),
                given <= arity,
                arity == self.inputs@.len(),
                self@ == old(self)@,
                old(self).wf(),
                first_stray_slot(updates@.take(i as int), arity as nat) is None,
            decreases given - i,
        {
            let slot = updates[i].0;
            assert(updates@.take(i + 1).drop_last() =~= updates@.take(i as int));
            if slot >= arity {
                proof {
                    lemma_first_stray_slot_prefix(updates@, i + 1, arity as nat);
                }
                return Err(GateError::InputIndexOutOfRange { index: slot, arity });
            }
            i = i + 1;
        }
        assert(updates@.take(given as int) =~= updates@);
        let m = bus_mask(self.bus_width);
        let mut j: usize = 0;
        assert(self.inputs@ =~= old(self)@.updated_inputs(updates@.take(0)));
        while j < given
            invariant
                j <= given,
                given == updates@.len(),
                arity == self.inputs@.len(),
                arity == old(self)@.inputs.len(),
                first_stray_slot(updates@, arity as nat) is None,
                m == mask(old(self)@.bus_width),
                self.gate_type == old(self).gate_type,
                self.bus_width == old(self).bus_width,
                old(self)@.shaped(),
                self.inputs@ == old(self)@.updated_inputs(updates@.take(j as int)),
            decreases given - j,
        {
            let slot = updates[j].0;
            let value = updates[j].1;
            proof {
                lemma_no_stray_slot(updates@, arity as nat, j as int);
                assert(updates@.take(j + 1).drop_last() =~= updates@.take(j as int));
            }
            self.inputs[slot] = value & m;
            assert(self.inputs@ =~= old(self)@.updated_inputs(updates@.take(j + 1)));
            j = j + 1;
        }
        assert(updates@.take(given as int) =~= updates@);
        proof {
            lemma_offer_wf(old(self)@, updates@);
        }
        self.logic();
        Ok(())
    }

    /// The operation this gate performs.
    pub fn gate_type(&self) -> (t: GateType)
        ensures
            t == self@.gate_type,
    {
        self.gate_type
    }

    /// The number of input slots.
    pub fn arity(&self) -> (n: usize)
        ensures
            n == self@.arity(),
    {
        self.inputs.len()
    }

    /// The number of significant low-order bits.
    pub fn bus_width(&self) -> (w: u64)
        ensures
            w == self@.bus_width,
    {
        self.bus_width
    }

    /// The mask that cuts a value to this gate's bus.
    pub fn bus_mask(&self) -> (m: u64)
        requires
            self.wf(),
        ensures
            m == mask(self@.bus_width),
    {
        bus_mask(self.bus_width)
    }

    /// The current value of every input slot.
    pub fn inputs(&self) -> (v: &Vec<u64>)
        ensures
            v@ == self@.inputs,
    {
        &self.inputs
    }

    /// The current output. No bit at or above the bus width is set in it.
    pub fn get_output(&self) -> (value: u64)
        requires
            self.wf(),
        ensures
            value == self@.output,
            value == evaluate(self@.gate_type, self@.inputs, self@.bus_width),
            value & mask(self@.bus_width) == value,
    {
        proof {
            lemma_evaluate_fits(self@.gate_type, self@.inputs, self@.bus_width);
        }
        self.output
    }
}

/// When a prefix of the updates holds a stray slot, the first stray slot of
/// the whole is that of the prefix.
proof fn lemma_first_stray_slot_prefix(updates: Seq<(usize, u64)>, n: int, arity: nat)
    requires
        0 <= n <= updates.len(),
        first_stray_slot(updates.take(n), arity) is Some,
    ensures
        first_stray_slot(updates, arity) == first_stray_slot(updates.take(n), arity),
    decreases updates.len() - n,
{
    if n < updates.len() {
        assert(updates.take(n + 1).drop_last() =~= updates.take(n));
        lemma_first_stray_slot_prefix(updates, n + 1, arity);
    } else {
        assert(updates.take(n) =~= updates);
    }
}

/// When no update names a stray slot, each one names a slot that exists.
proof fn lemma_no_stray_slot(updates: Seq<(usize, u64)>, arity: nat, i: int)
    requires
        first_stray_slot(updates, arity) is None,
        0 <= i < updates.len(),
    ensures
        updates[i].0 < arity,
    decreases updates.len(),
{
    if i < updates.len() - 1 {
        lemma_no_stray_slot(updates.drop_last(), arity, i);
    }
}

/// Every output of a well-formed gate equals itself cut to the bus width.
pub proof fn lemma_output_masked(gate: GateModel)
    requires
        gate.wf(),
    ensures
        gate.output & mask(gate.bus_width) == gate.output,
{
    lemma_evaluate_fits(gate.gate_type, gate.inputs, gate.bus_width);
}

/// Offering the same updates a second time changes nothing: a gate, and so
/// its output, is as after the first time.
pub proof fn lemma_set_inputs_idempotent(gate: GateModel, updates: Seq<(usize, u64)>)
    ensures
        gate.offer(updates).offer(updates) == gate.offer(updates),
        gate.offer(updates).offer(updates).output == gate.offer(updates).output,
{
    let once = gate.offer(updates);
    if gate.update_error(updates) is None {
        assert(once.arity() == gate.arity());
        assert(once.update_error(updates) is None);
        assert(once.updated_inputs(updates) =~= gate.updated_inputs(updates));
    }
}

/// A fresh `Not` gate puts out the mask of its bus: the complement of zero.
pub proof fn lemma_fresh_not_output(bus_width: u64)
    ensures
        GateModel::fresh(GateType::Not, 1, bus_width).output == mask(bus_width),
{
    lemma_evaluate_zeros(GateType::Not, Seq::new(1, |i: int| 0u64), bus_width);
}

/// Offering updates keeps a well-formed gate well formed, with its type,
/// arity and bus width.
pub proof fn lemma_offer_wf(gate: GateModel, updates: Seq<(usize, u64)>)
    requires
        gate.wf(),
    ensures
        gate.offer(updates).wf(),
        gate.offer(updates).gate_type == gate.gate_type,
        gate.offer(updates).bus_width == gate.bus_width,
        gate.offer(updates).arity() == gate.arity(),
{
    if gate.update_error(updates) is None {
        let after = gate.with_updates(updates);
        assert forall|k: int| 0 <= k < after.inputs.len() implies fits(
            #[trigger] after.inputs[k],
            after.bus_width,
        ) by {
            match last_update(updates, k) {
                Some(value) => {
                    lemma_mask_idempotent(value, gate.bus_width);
                },
                None => {},
            }
        }
    }
}

} // verus!
