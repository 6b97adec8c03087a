use vstd::prelude::*;
use crate::base_gates::gate::{Gate, GateModel};
use crate::base_gates::gate_error::GateError;

verus! {

/// A wire of fixed width that carries the output of at most one gate to any
/// number of input slots. It names gates by identifier and owns none.
#[derive(Debug, PartialEq, Eq)]
pub struct Cable {
    bus_width: usize,
    source: Option<usize>,
    sinks: Vec<(usize, usize)>,
    cached_value: u64,
}

/// What a cable is, as plain values.
pub struct CableModel {
    pub bus_width: usize,
    /// Which gate's output the cable carries, if it has a source.
    pub source: Option<usize>,
    /// The input slots the cable feeds, each a gate and a slot index, in the
    /// order in which they were connected.
    pub sinks: Seq<(usize, usize)>,
    /// The value last taken from the source; zero while there is none.
    pub value: u64,
}

impl CableModel {
    /// No input slot is recorded twice, and a cable without a source
    /// carries zero.
    pub open spec fn wf(self) -> bool {
        &&& self.sinks.no_duplicates()
        &&& self.source is None ==> self.value == 0
    }

    /// The cable as it is built: no source, no sinks, carrying zero.
    pub open spec fn fresh(bus_width: usize) -> CableModel {
        CableModel { bus_width, source: None, sinks: Seq::empty(), value: 0 }
    }

    /// Whether the cable feeds input slot `slot` of gate `gate`.
    pub open spec fn feeds(self, gate: usize, slot: usize) -> bool {
        self.sinks.contains((gate, slot))
    }

    /// The input slots of gate `gate` that the cable feeds.
    pub open spec fn slots_of(self, gate: usize) -> Set<usize> {
        Set::new(|slot: usize| self.feeds(gate, slot))
    }

    /// Why gate `id` cannot become the source, if it cannot.
    pub open spec fn output_error(self, id: usize, gate: GateModel) -> Option<GateError> {
        if gate.bus_width != self.bus_width {
            Some(GateError::BusWidthMismatch { cable: self.bus_width, gate: gate.bus_width })
        } else {
            match self.source {
                Some(driver) if driver != id => Some(GateError::CableAlreadyDriven(driver)),
                _ => None,
            }
        }
    }

    /// The cable after gate `id` was offered as its source: bound to it and
    /// carrying its output when the cable had no source; as it was when the
    /// gate is refused or is the source already.
    pub open spec fn driven_by(self, id: usize, gate: GateModel) -> CableModel {
        if self.output_error(id, gate) is None && self.source is None {
            CableModel { source: Some(id), value: gate.output, ..self }
        } else {
            self
        }
    }

    /// Why the cable cannot feed input slot `slot` of this gate, if it cannot.
    pub open spec fn input_error(self, gate: GateModel, slot: usize) -> Option<GateError> {
        if gate.bus_width != self.bus_width {
            Some(GateError::BusWidthMismatch { cable: self.bus_width, gate: gate.bus_width })
        } else if slot >= gate.arity() {
            Some(GateError::InputIndexOutOfRange { index: slot, arity: gate.arity() as usize })
        } else {
            None
        }
    }

    /// The cable with input slot `slot` of gate `id` among its sinks: added
    /// at the end when it is new, nothing changed when it is there already.
    pub open spec fn feeding(self, id: usize, slot: usize) -> CableModel {
        if self.feeds(id, slot) {
            self
        } else {
            CableModel { sinks: self.sinks.push((id, slot)), ..self }
        }
    }
}

/// Recording a sink adds its slot to the slots of its gate, and recording
/// it a second time changes nothing.
pub proof fn lemma_feeding_idempotent(cable: CableModel, id: usize, slot: usize)
    ensures
        cable.feeding(id, slot).feeds(id, slot),
        cable.feeding(id, slot).slots_of(id) == cable.slots_of(id).insert(slot),
        cable.feeding(id, slot).feeding(id, slot) == cable.feeding(id, slot),
{
    let fed = cable.feeding(id, slot);
    if !cable.feeds(id, slot) {
        assert(fed.sinks[cable.sinks.len() as int] == (id, slot));
    }
    assert(fed.feeds(id, slot));
    assert forall|other: usize| fed.feeds(id, other) <==> (other == slot || cable.feeds(
        id,
        other,
    )) by {
        if cable.feeds(id, other) {
            let k = choose|k: int| 0 <= k < cable.sinks.len() && cable.sinks[k] == (id, other);
            assert(fed.sinks[k] == (id, other));
        }
        if fed.feeds(id, other) && other != slot {
            let k = choose|k: int| 0 <= k < fed.sinks.len() && fed.sinks[k] == (id, other);
            assert(cable.sinks[k] == (id, other));
        }
    }
    assert(fed.slots_of(id) =~= cable.slots_of(id).insert(slot));
}

impl View for Cable {
    type V = CableModel;

    closed spec fn view(&self) -> CableModel {
        CableModel {
            bus_width: self.bus_width,
            source: self.source,
            sinks: self.sinks@,
            value: self.cached_value,
        }
    }
}

impl Cable {
    /// The cable's invariant: no input slot is recorded twice, and a cable
    /// without a source carries zero.
    pub open spec fn wf(&self) -> bool {
        self@.wf()
    }

    /// Builds a cable with no source and no sinks, carrying zero.
    pub fn new(size: usize) -> (cable: Cable)
        ensures
            cable.wf(),
            cable@ == CableModel::fresh(size),
    {
        Cable { bus_width: size, source: None, sinks: Vec::new(), cached_value: 0 }
    }

    /// Whether input slot `slot` of gate `id` is among the sinks.
    fn has_sink(&self, id: usize, slot: usize) -> (found: bool)
        ensures
            found == self@.feeds(id, slot),
    {
        let n = self.sinks.len();
        let mut i: usize = 0;
        while i < n
            invariant
                i <= n,
                n == self.sinks@.len(),
                forall|k: int| 0 <= k < i ==> self.sinks@[k] != (id, slot),
            decreases n - i,
        {
            if self.sinks[i].0 == id && self.sinks[i].1 == slot {
                assert(self.sinks@[i as int] == (id, slot));
                return true;
            }
            i = i + 1;
        }
        false
    }

    /// Tells whether gate `id` can become the source, and why not if it
    /// cannot. Nothing changes.
    pub fn check_output(&self, id: usize, gate_to_connect: &Gate) -> (r: Result<(), GateError>)
        ensures
            match r {
                Ok(_) => self@.output_error(id, gate_to_connect@) is None,
                Err(e) => self@.output_error(id, gate_to_connect@) == Some(e),
            },
    {
        let gate_width = gate_to_connect.bus_width();
        if gate_width != self.bus_width as u64 {
            return Err(GateError::BusWidthMismatch { cable: self.bus_width, gate: gate_width });
        }
        match self.source {
            Some(driver) => {
                if driver != id {
                    return Err(GateError::CableAlreadyDriven(driver));
                }
            },
            None => {},
        }
        Ok(())
    }

    /// Tells whether the cable can feed input slot `input_to_connect` of the
    /// gate, and why not if it cannot. Nothing changes.
    pub fn check_input(&self, gate_to_connect: &Gate, input_to_connect: usize) -> (r: Result<
        (),
        GateError,
    >)
        ensures
            match r {
                Ok(_) => self@.input_error(gate_to_connect@, input_to_connect) is None,
                Err(e) => self@.input_error(gate_to_connect@, input_to_connect) == Some(e),
            },
    {
        let gate_width = gate_to_connect.bus_width();
        if gate_width != self.bus_width as u64 {
            return Err(GateError::BusWidthMismatch { cable: self.bus_width, gate: gate_width });
        }
        let arity = gate_to_connect.arity();
        if input_to_connect >= arity {
            return Err(GateError::InputIndexOutOfRange { index: input_to_connect, arity });
        }
        Ok(())
    }

    /// Makes gate `id` the source of the cable and takes over its output.
    /// Offering a gate that is the source already changes nothing. The
    /// value is not passed on to the sinks.
    pub fn connect_output(&mut self, id: usize, gate_to_connect: &Gate) -> (r: Result<
        (),
        GateError,
    >)
        requires
            old(self).wf(),
            gate_to_connect.wf(),
        ensures
            final(self).wf(),
            final(self)@ == old(self)@.driven_by(id, gate_to_connect@),
            match r {
                Ok(_) => old(self)@.output_error(id, gate_to_connect@) is None,
                Err(e) => old(self)@.output_error(id, gate_to_connect@) == Some(e),
            },
    {
        match self.check_output(id, gate_to_connect) {
            Err(e) => {
                return Err(e);
            },
            Ok(_) => {},
        }
        if self.source.is_none() {
            self.source = Some(id);
            self.cached_value = gate_to_connect.get_output();
        }
        Ok(())
    }

    /// Records input slot `input_to_connect` of gate `id` as a sink and sets
    /// that slot to the value the cable carries. Recording a sink a second
    /// time leaves the sinks as they are.
    pub fn connect_input(
        &mut self,
        id: usize,
        gate_to_connect: &mut Gate,
        input_to_connect: usize,
    ) -> (r: Result<(), GateError>)
        requires
            old(self).wf(),
            old(gate_to_connect).wf(),
        ensures
            final(self).wf(),
            final(gate_to_connect).wf(),
            match r {
                Ok(_) => {
                    &&& old(self)@.input_error(old(gate_to_connect)@, input_to_connect) is None
                    &&& final(self)@ == old(self)@.feeding(id, input_to_connect)
                    &&& final(gate_to_connect)@ == old(gate_to_connect)@.with_updates(
                        seq![(input_to_connect, old(self)@.value)],
                    )
                },
                Err(e) => {
                    &&& old(self)@.input_error(old(gate_to_connect)@, input_to_connect) == Some(e)
                    &&& final(self)@ == old(self)@
                    &&& final(gate_to_connect)@ == old(gate_to_connect)@
                },
            },
    {
        match self.check_input(gate_to_connect, input_to_connect) {
            Err(e) => {
                return Err(e);
            },
            Ok(_) => {},
        }
        let ghost updates = seq![(input_to_connect, self.cached_value)];
        proof {
            assert(updates.drop_last() =~= Seq::<(usize, u64)>::empty());
            reveal_with_fuel(crate::base_gates::gate::first_stray_slot, 2);
            assert(old(gate_to_connect)@.update_error(updates) is None);
        }
        let update = vec![(input_to_connect, self.cached_value)];
        assert(update@ =~= updates);
        let set = gate_to_connect.set_inputs(update);
        assert(set is Ok);
        if !self.has_sink(id, input_to_connect) {
            self.sinks.push((id, input_to_connect));
            proof {
                let before = old(self)@.sinks;
                let after = self.sinks@;
                assert forall|i: int, j: int|
                    0 <= i < after.len() && 0 <= j < after.len() && i != j implies after[i]
                    != after[j] by {
                    if i < before.len() && j < before.len() {
                    } else if i < before.len() {
                        assert(before.contains(before[i]));
                    } else {
                        assert(before.contains(before[j]));
                    }
                }
            }
        }
        Ok(())
    }

    /// Takes over `value` as the value the cable carries. The value is not
    /// passed on to the sinks.
    pub(crate) fn carry(&mut self, value: u64)
        requires
            old(self).wf(),
            old(self)@.source is Some,
        ensures
            final(self).wf(),
            final(self)@ == (CableModel { value, ..old(self)@ }),
    {
        self.cached_value = value;
    }

    /// The width of the bus the cable carries.
    pub fn bus_width(&self) -> (w: usize)
        ensures
            w == self@.bus_width,
    {
        self.bus_width
    }

    /// Which gate's output the cable carries, if it has a source.
    pub fn source(&self) -> (s: Option<usize>)
        ensures
            s == self@.source,
    {
        self.source
    }

    /// The input slots the cable feeds, each a gate and a slot index.
    pub fn sinks(&self) -> (v: &Vec<(usize, usize)>)
        ensures
            v@ == self@.sinks,
    {
        &self.sinks
    }

    /// The value the cable carries.
    pub fn value(&self) -> (v: u64)
        ensures
            v == self@.value,
    {
        self.cached_value
    }
}

} // verus!
