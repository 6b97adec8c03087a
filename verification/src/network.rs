//! Gates and cables held together, wired with validation and settled on
//! demand.

pub mod settle;
pub mod wiring;

use std::collections::VecDeque;
use vstd::prelude::*;
use crate::base_gates::gate::{Gate, GateModel};
use crate::base_gates::gate_error::GateError;
use crate::connectors::cable::{Cable, CableModel};
use crate::network::wiring::{Wire, Wiring};

verus! {

/// The owner of a circuit's gates and cables. Gates and cables are named by
/// the number they were given when they were added; none is ever removed.
#[derive(Debug)]
pub struct Network {
    gates: Vec<Gate>,
    cables: Vec<Cable>,
    iteration_bound: usize,
}

/// What a network is, as plain values.
pub struct NetworkModel {
    pub gates: Seq<GateModel>,
    pub cables: Seq<CableModel>,
    /// The most gates one propagation may evaluate.
    pub iteration_bound: usize,
}

/// The connections of a cable.
pub open spec fn wire_of(cable: CableModel) -> Wire {
    Wire { source: cable.source, sinks: cable.sinks }
}

impl NetworkModel {
    /// The connections of the network, cable by cable.
    pub open spec fn wiring(self) -> Wiring {
        Wiring { wires: Seq::new(self.cables.len(), |c: int| wire_of(self.cables[c])) }
    }

    /// Whether `gate` names a gate of the network.
    pub open spec fn has_gate(self, gate: usize) -> bool {
        gate < self.gates.len()
    }

    /// Whether `cable` names a cable of the network.
    pub open spec fn has_cable(self, cable: usize) -> bool {
        cable < self.cables.len()
    }

    /// Cable `c` is well formed, and every terminal it touches is a gate of
    /// the network, of the cable's bus width, and a slot that this gate has.
    pub open spec fn cable_fits(self, c: int) -> bool {
        let cable = self.cables[c];
        &&& cable.wf()
        &&& match cable.source {
            Some(s) => self.has_gate(s) && self.gates[s as int].bus_width == cable.bus_width,
            None => true,
        }
        &&& forall|k: int|
            0 <= k < cable.sinks.len() ==> {
                let (gate, slot) = #[trigger] cable.sinks[k];
                &&& self.has_gate(gate)
                &&& slot < self.gates[gate as int].arity()
                &&& self.gates[gate as int].bus_width == cable.bus_width
            }
    }

    /// Every gate is well formed, every cable fits, and no output finds its
    /// way back to its own gate.
    pub open spec fn wf(self) -> bool {
        &&& forall|g: int| 0 <= g < self.gates.len() ==> (#[trigger] self.gates[g]).wf()
        &&& forall|c: int| 0 <= c < self.cables.len() ==> #[trigger] self.cable_fits(c)
        &&& self.wiring().acyclic()
    }

    /// The network as it is built: no gates, no cables.
    pub open spec fn fresh(iteration_bound: usize) -> NetworkModel {
        NetworkModel { gates: Seq::empty(), cables: Seq::empty(), iteration_bound }
    }

    /// Whether feeding gate `gate` from cable `cable` would lead the output
    /// of the cable's source back into that source.
    pub open spec fn closes_loop_at_input(self, cable: usize, gate: usize) -> bool {
        match self.cables[cable as int].source {
            Some(s) => self.wiring().reaches(gate, s),
            None => false,
        }
    }

    /// Why cable `cable` cannot feed input slot `slot` of gate `gate`, if it
    /// cannot.
    pub open spec fn input_error(self, cable: usize, gate: usize, slot: usize) -> Option<
        GateError,
    > {
        match self.cables[cable as int].input_error(self.gates[gate as int], slot) {
            Some(e) => Some(e),
            None => if self.closes_loop_at_input(cable, gate) {
                Some(GateError::FeedbackLoopDetected(gate))
            } else {
                None
            },
        }
    }

    /// The network after cable `cable` was made to feed input slot `slot` of
    /// gate `gate`: the sink recorded, the slot set to the cable's value and
    /// that gate's output recomputed.
    pub open spec fn with_input(self, cable: usize, gate: usize, slot: usize) -> NetworkModel {
        NetworkModel {
            gates: self.gates.update(
                gate as int,
                self.gates[gate as int].with_updates(seq![(slot, self.cables[cable as int].value)]),
            ),
            cables: self.cables.update(
                cable as int,
                self.cables[cable as int].feeding(gate, slot),
            ),
            ..self
        }
    }

    /// Whether driving cable `cable` from gate `gate` would lead the output
    /// of `gate` back into `gate`.
    pub open spec fn closes_loop_at_output(self, cable: usize, gate: usize) -> bool {
        exists|k: int|
            0 <= k < self.cables[cable as int].sinks.len() && #[trigger] self.wiring().reaches(
                self.cables[cable as int].sinks[k].0,
                gate,
            )
    }

    /// Why gate `gate` cannot become the source of cable `cable`, if it
    /// cannot.
    pub open spec fn output_error(self, cable: usize, gate: usize) -> Option<GateError> {
        match self.cables[cable as int].output_error(gate, self.gates[gate as int]) {
            Some(e) => Some(e),
            None => if self.closes_loop_at_output(cable, gate) {
                Some(GateError::FeedbackLoopDetected(gate))
            } else {
                None
            },
        }
    }

    /// The network after gate `gate` was made the source of cable `cable`.
    pub open spec fn with_output(self, cable: usize, gate: usize) -> NetworkModel {
        NetworkModel {
            cables: self.cables.update(
                cable as int,
                self.cables[cable as int].driven_by(gate, self.gates[gate as int]),
            ),
            ..self
        }
    }

    /// Where a cable carries the output of gate `a` into gate `b`, a cable
    /// that `b` drives cannot be made to feed `a`: the request is refused as
    /// a feedback loop, unless it is refused for the width or the slot.
    pub proof fn lemma_feedback_input_refused(
        self,
        forth: usize,
        back: usize,
        a: usize,
        b: usize,
        slot: usize,
    )
        requires
            self.has_cable(forth),
            self.has_cable(back),
            self.cables[forth as int].source == Some(a),
            exists|s: usize| self.cables[forth as int].feeds(b, s),
            self.cables[back as int].source == Some(b),
            self.cables[back as int].input_error(self.gates[a as int], slot) is None,
        ensures
            self.input_error(back, a, slot) == Some(GateError::FeedbackLoopDetected(a)),
    {
        let w = self.wiring();
        let s = choose|s: usize| self.cables[forth as int].feeds(b, s);
        let sinks = self.cables[forth as int].sinks;
        let k = choose|k: int| 0 <= k < sinks.len() && sinks[k] == (b, s);
        assert(w.joins(forth as int, k, a, b));
        w.lemma_reaches_self(a);
        w.lemma_reaches_edge(a, a, b);
    }

    /// Where a cable carries the output of gate `a` into gate `b`, a cable
    /// that feeds `a` cannot be given `b` as its source: the request is
    /// refused as a feedback loop, unless it is refused for the width or
    /// because the cable has another source.
    pub proof fn lemma_feedback_output_refused(
        self,
        forth: usize,
        back: usize,
        a: usize,
        b: usize,
    )
        requires
            self.has_cable(forth),
            self.has_cable(back),
            self.cables[forth as int].source == Some(a),
            exists|s: usize| self.cables[forth as int].feeds(b, s),
            exists|s: usize| self.cables[back as int].feeds(a, s),
            self.cables[back as int].output_error(b, self.gates[b as int]) is None,
        ensures
            self.output_error(back, b) == Some(GateError::FeedbackLoopDetected(b)),
    {
        let w = self.wiring();
        let s = choose|s: usize| self.cables[forth as int].feeds(b, s);
        let sinks = self.cables[forth as int].sinks;
        let k = choose|k: int| 0 <= k < sinks.len() && sinks[k] == (b, s);
        assert(w.joins(forth as int, k, a, b));
        w.lemma_reaches_self(a);
        w.lemma_reaches_edge(a, a, b);
        let t = choose|t: usize| self.cables[back as int].feeds(a, t);
        let back_sinks = self.cables[back as int].sinks;
        let j = choose|j: int| 0 <= j < back_sinks.len() && back_sinks[j] == (a, t);
        assert(w.reaches(self.cables[back as int].sinks[j].0, b));
    }

    /// The network after `updates` were offered to gate `gate`.
    pub open spec fn with_updates(self, gate: usize, updates: Seq<(usize, u64)>) -> NetworkModel {
        NetworkModel {
            gates: self.gates.update(gate as int, self.gates[gate as int].offer(updates)),
            ..self
        }
    }
}

impl View for Network {
    type V = NetworkModel;

    closed spec fn view(&self) -> NetworkModel {
        NetworkModel {
            gates: Seq::new(self.gates@.len(), |g: int| self.gates@[g]@),
            cables: Seq::new(self.cables@.len(), |c: int| self.cables@[c]@),
            iteration_bound: self.iteration_bound,
        }
    }
}

impl Network {
    /// The network's invariant: every gate is well formed, every cable
    /// touches only gates of its own width, and the wiring is acyclic.
    pub open spec fn wf(&self) -> bool {
        self@.wf()
    }

    /// Builds a network without gates or cables. One propagation evaluates
    /// at most `iteration_bound` gates.
    pub fn new(iteration_bound: usize) -> (network: Network)
        ensures
            network.wf(),
            network@ == NetworkModel::fresh(iteration_bound),
    {
        let network = Network { gates: Vec::new(), cables: Vec::new(), iteration_bound };
        proof {
            assert(network@.gates =~= Seq::empty());
            assert(network@.cables =~= Seq::empty());
            let levels = |g: usize| 0nat;
            assert(network@.wiring().downhill(levels));
        }
        network
    }

    /// Takes `gate` into the network and gives back its number.
    pub fn add_gate(&mut self, gate: Gate) -> (id: usize)
        requires
            old(self).wf(),
            gate.wf(),
        ensures
            final(self).wf(),
            id == old(self)@.gates.len(),
            final(self)@ == (NetworkModel { gates: old(self)@.gates.push(gate@), ..old(self)@ }),
    {
        let id = self.gates.len();
        self.gates.push(gate);
        proof {
            assert(self@.gates =~= old(self)@.gates.push(gate@));
            assert(self@.cables =~= old(self)@.cables);
            assert forall|c: int| 0 <= c < self@.cables.len() implies #[trigger] self@.cable_fits(
                c,
            ) by {
                assert(old(self)@.cable_fits(c));
            }
        }
        id
    }

    /// Adds a cable of the given width, with no source and no sinks, and
    /// gives back its number.
    pub fn add_cable(&mut self, bus_width: usize) -> (id: usize)
        requires
            old(self).wf(),
        ensures
            final(self).wf(),
            id == old(self)@.cables.len(),
            final(self)@ == (NetworkModel {
                cables: old(self)@.cables.push(CableModel::fresh(bus_width)),
                ..old(self)@
            }),
    {
        let id = self.cables.len();
        self.cables.push(Cable::new(bus_width));
        proof {
            assert(self@.gates =~= old(self)@.gates);
            assert(self@.cables =~= old(self)@.cables.push(CableModel::fresh(bus_width)));
            assert forall|c: int| 0 <= c < self@.cables.len() implies #[trigger] self@.cable_fits(
                c,
            ) by {
                if c < id {
                    assert(old(self)@.cable_fits(c));
                }
            }
            let before = old(self)@.wiring();
            let after = self@.wiring();
            let levels = choose|levels: spec_fn(usize) -> nat| #[trigger] before.downhill(levels);
            assert forall|c: int, k: int| #[trigger] after.plugged(c, k) implies match after.wires[c].source {
                Some(s) => levels(after.wires[c].sinks[k].0) < levels(s),
                None => true,
            } by {
                assert(before.plugged(c, k));
            }
            assert(after.downhill(levels));
        }
        id
    }

    /// The number of gates.
    pub fn gate_count(&self) -> (n: usize)
        ensures
            n == self@.gates.len(),
    {
        self.gates.len()
    }

    /// The number of cables.
    pub fn cable_count(&self) -> (n: usize)
        ensures
            n == self@.cables.len(),
    {
        self.cables.len()
    }

    /// The most gates one propagation may evaluate.
    pub fn iteration_bound(&self) -> (bound: usize)
        ensures
            bound == self@.iteration_bound,
    {
        self.iteration_bound
    }

    /// Sets the most gates one propagation may evaluate.
    pub fn set_iteration_bound(&mut self, bound: usize)
        ensures
            final(self)@ == (NetworkModel { iteration_bound: bound, ..old(self)@ }),
            old(self).wf() ==> final(self).wf(),
    {
        self.iteration_bound = bound;
        proof {
            assert(self@.gates =~= old(self)@.gates);
            assert(self@.cables =~= old(self)@.cables);
            if old(self).wf() {
                assert forall|c: int| 0 <= c < self@.cables.len() implies #[trigger] self@.cable_fits(
                    c,
                ) by {
                    assert(old(self)@.cable_fits(c));
                }
            }
        }
    }

    /// Gate number `gate`.
    pub fn gate(&self, gate: usize) -> (g: &Gate)
        requires
            self@.has_gate(gate),
        ensures
            g@ == self@.gates[gate as int],
    {
        &self.gates[gate]
    }

    /// The cable with number `cable`.
    pub fn cable(&self, cable: usize) -> (c: &Cable)
        requires
            self@.has_cable(cable),
        ensures
            c@ == self@.cables[cable as int],
    {
        &self.cables[cable]
    }

    /// The current output of gate `gate`.
    pub fn get_output(&self, gate: usize) -> (value: u64)
        requires
            self.wf(),
            self@.has_gate(gate),
        ensures
            value == self@.gates[gate as int].output,
    {
        assert(self@.gates[gate as int].wf());
        self.gates[gate].get_output()
    }

    /// Offers `updates` to gate `gate`, as `Gate::set_inputs` does. The new
    /// output is not passed on; that is left to `propagate`.
    pub fn set_inputs(&mut self, gate: usize, updates: Vec<(usize, u64)>) -> (r: Result<
        (),
        GateError,
    >)
        requires
            old(self).wf(),
            old(self)@.has_gate(gate),
        ensures
            final(self).wf(),
            final(self)@ == old(self)@.with_updates(gate, updates@),
            match r {
                Ok(_) => old(self)@.gates[gate as int].update_error(updates@) is None,
                Err(e) => old(self)@.gates[gate as int].update_error(updates@) == Some(e),
            },
    {
        assert(old(self)@.gates[gate as int].wf());
        let r = self.gates[gate].set_inputs(updates);
        proof {
            assert(self@.gates =~= old(self)@.gates.update(
                gate as int,
                old(self)@.gates[gate as int].offer(updates@),
            ));
            assert(self@.cables =~= old(self)@.cables);
            crate::base_gates::gate::lemma_offer_wf(old(self)@.gates[gate as int], updates@);
            assert forall|c: int| 0 <= c < self@.cables.len() implies #[trigger] self@.cable_fits(
                c,
            ) by {
                assert(old(self)@.cable_fits(c));
            }
        }
        r
    }

    /// Makes cable `cable` feed input slot `slot` of gate `gate`, and sets
    /// that slot to the value the cable carries. Refused, with nothing
    /// changed, when the widths differ, when `gate` has no such slot, or
    /// when the output of the cable's source would come back to the source.
    pub fn connect_input(&mut self, cable: usize, gate: usize, slot: usize) -> (r: Result<
        (),
        GateError,
    >)
        requires
            old(self).wf(),
            old(self)@.has_cable(cable),
            old(self)@.has_gate(gate),
        ensures
            final(self).wf(),
            match r {
                Ok(_) => {
                    &&& old(self)@.input_error(cable, gate, slot) is None
                    &&& final(self)@ == old(self)@.with_input(cable, gate, slot)
                },
                Err(e) => {
                    &&& old(self)@.input_error(cable, gate, slot) == Some(e)
                    &&& final(self)@ == old(self)@
                },
            },
    {
        let ghost before = self@;
        let ghost w = before.wiring();
        assert(before.cable_fits(cable as int));
        assert(before.gates[gate as int].wf());
        match self.cables[cable].check_input(&self.gates[gate], slot) {
            Err(e) => {
                return Err(e);
            },
            Ok(_) => {},
        }
        let ghost mut marks: Seq<bool> = Seq::empty();
        match self.cables[cable].source() {
            Some(s) => {
                let mut roots: Vec<usize> = Vec::new();
                roots.push(gate);
                let seen = self.downstream(&roots);
                proof {
                    marks = seen@;
                    assert(roots@[0] == gate);
                    w.lemma_reaches_self(gate);
                    assert(w.reaches(roots@[0], gate));
                    assert(w.reached_from(roots@, gate));
                    if w.reaches(gate, s) {
                        assert(w.reaches(roots@[0], s));
                        assert(w.reached_from(roots@, s));
                    }
                    if w.reached_from(roots@, s) {
                        let i = choose|i: int|
                            0 <= i < roots@.len() && #[trigger] w.reaches(roots@[i], s);
                        assert(roots@[i] == gate);
                    }
                }
                if seen[s] {
                    proof {
                        assert(Wiring::lit(seen@, s));
                        assert(w.reached_from(roots@, s));
                        assert(w.reaches(gate, s));
                        assert(before.closes_loop_at_input(cable, gate));
                    }
                    return Err(GateError::FeedbackLoopDetected(gate));
                }
                proof {
                    assert(!Wiring::lit(seen@, s));
                    assert(!w.reached_from(roots@, s));
                    assert(!before.closes_loop_at_input(cable, gate));
                    assert(Wiring::lit(seen@, gate));
                }
            },
            None => {},
        }
        let r = self.cables[cable].connect_input(gate, &mut self.gates[gate], slot);
        proof {
            let after = self@;
            assert(after.gates =~= before.with_input(cable, gate, slot).gates);
            assert(after.cables =~= before.with_input(cable, gate, slot).cables);
            lemma_with_input_wf(before, cable, gate, slot, marks);
        }
        r
    }

    /// Makes gate `gate` the source of cable `cable`; the cable takes over
    /// that output and does not pass it on. Refused, with nothing
    /// changed, when the widths differ, when another gate drives the cable,
    /// or when the output of `gate` would come back to `gate`.
    pub fn connect_output(&mut self, cable: usize, gate: usize) -> (r: Result<(), GateError>)
        requires
            old(self).wf(),
            old(self)@.has_cable(cable),
            old(self)@.has_gate(gate),
        ensures
            final(self).wf(),
            match r {
                Ok(_) => {
                    &&& old(self)@.output_error(cable, gate) is None
                    &&& final(self)@ == old(self)@.with_output(cable, gate)
                },
                Err(e) => {
                    &&& old(self)@.output_error(cable, gate) == Some(e)
                    &&& final(self)@ == old(self)@
                },
            },
    {
        let ghost before = self@;
        let ghost w = before.wiring();
        assert(before.cable_fits(cable as int));
        assert(before.gates[gate as int].wf());
        match self.cables[cable].check_output(gate, &self.gates[gate]) {
            Err(e) => {
                return Err(e);
            },
            Ok(_) => {},
        }
        let sinks = self.cables[cable].sinks();
        let mut roots: Vec<usize> = Vec::new();
        let mut k: usize = 0;
        while k < sinks.len()
            invariant
                k <= sinks@.len(),
                roots@.len() == k,
                before.has_cable(cable),
                sinks@ == before.cables[cable as int].sinks,
                before.cable_fits(cable as int),
                forall|i: int| 0 <= i < k ==> #[trigger] roots@[i] == sinks@[i].0,
            decreases sinks@.len() - k,
        {
            roots.push(sinks[k].0);
            k = k + 1;
        }
        assert forall|i: int| 0 <= i < roots@.len() implies before.has_gate(#[trigger] roots@[i]) by {
            assert(before.has_gate(sinks@[i].0));
        }
        let seen = self.downstream(&roots);
        proof {
            if before.closes_loop_at_output(cable, gate) {
                let i = choose|i: int|
                    0 <= i < before.cables[cable as int].sinks.len() && #[trigger] w.reaches(
                        before.cables[cable as int].sinks[i].0,
                        gate,
                    );
                assert(w.reaches(roots@[i], gate));
                assert(w.reached_from(roots@, gate));
            }
            if w.reached_from(roots@, gate) {
                let i = choose|i: int| 0 <= i < roots@.len() && #[trigger] w.reaches(roots@[i], gate);
                assert(w.reaches(before.cables[cable as int].sinks[i].0, gate));
            }
            assert forall|i: int| 0 <= i < roots@.len() implies Wiring::lit(
                seen@,
                before.cables[cable as int].sinks[i].0,
            ) by {
                w.lemma_reaches_self(roots@[i]);
                assert(w.reaches(roots@[i], roots@[i]));
                assert(w.reached_from(roots@, roots@[i]));
            }
        }
        if seen[gate] {
            proof {
                assert(Wiring::lit(seen@, gate));
                assert(w.reached_from(roots@, gate));
                assert(before.closes_loop_at_output(cable, gate));
            }
            return Err(GateError::FeedbackLoopDetected(gate));
        }
        proof {
            assert(!Wiring::lit(seen@, gate));
            assert(!w.reached_from(roots@, gate));
            assert(!before.closes_loop_at_output(cable, gate));
        }
        let r = self.cables[cable].connect_output(gate, &self.gates[gate]);
        proof {
            let after = self@;
            assert(after.gates =~= before.gates);
            assert(after.cables =~= before.with_output(cable, gate).cables);
            lemma_with_output_wf(before, cable, gate, seen@);
        }
        r
    }

    /// Passes the output of gate `gate` on through the cables it drives, and
    /// the outputs of the gates that change with it, until nothing changes
    /// any more. Gates wait in a queue to be evaluated; the propagation
    /// fails, with the network left well formed, when more gates come up
    /// for evaluation than the iteration bound allows.
    pub fn propagate(&mut self, gate: usize) -> (r: Result<(), GateError>)
        requires
            old(self).wf(),
            old(self)@.has_gate(gate),
        ensures
            (final(self)@, r) == old(self)@.propagated(gate),
            final(self).wf(),
            final(self)@.same_shape(old(self)@),
            final(self)@.touched_below(old(self)@, gate),
            match r {
                Ok(_) => final(self)@.settled_after(old(self)@, gate),
                Err(e) => {
                    &&& e matches GateError::FeedbackLoopDetected(g)
                    &&& old(self)@.wiring().reaches(gate, g)
                    &&& !old(self)@.within_bound(gate)
                    &&& !(old(self)@.quiescent() && old(self)@.iteration_bound >= 1)
                },
            },
            old(self)@.quiescent() ==> final(self)@ == old(self)@,
    {
        let ghost before = self@;
        let ghost w = before.wiring();
        let ghost levels = choose|levels: spec_fn(usize) -> nat| #[trigger] w.downhill(levels);
        let ghost total = w.routes(gate, levels(gate) + 1);
        let cables = self.cables.len();
        let bound = self.iteration_bound;
        let mut queue: VecDeque<usize> = VecDeque::new();
        queue.push_back(gate);
        let mut steps: usize = 0;
        proof {
            w.lemma_reaches_self(gate);
            assert(queue@ =~= Seq::<usize>::empty().push(gate));
            assert(queue@ =~= seq![gate]);
            w.lemma_load_push(levels, Seq::<usize>::empty(), gate);
            assert(queue@[0] == gate);
            assert(queue@.contains(gate));
        }
        while queue.len() > 0
            invariant
                before == old(self)@,
                before.wf(),
                before.has_gate(gate),
                w == before.wiring(),
                w.downhill(levels),
                total == w.routes(gate, levels(gate) + 1),
                cables == before.cables.len(),
                bound == before.iteration_bound,
                self.wf(),
                self@.same_shape(before),
                steps <= bound,
                forall|i: int|
                    0 <= i < queue@.len() ==> w.reaches(gate, #[trigger] queue@[i])
                        && before.has_gate(queue@[i]),
                self@.touched_below(before, gate),
                self@.settling(before, gate, queue@, None),
                before.within_bound(gate) ==> steps + w.load(levels, queue@) <= total,
                before.quiescent() ==> self@ == before && steps + queue@.len() <= 1,
                self@.run(queue@, (bound - steps) as nat) == before.propagated(gate),
            decreases bound - steps,
        {
            let ghost waiting = queue@;
            let ghost popped = self@;
            let x = queue.pop_front().unwrap();
            let ghost rest = queue@;
            let ghost depth = levels(x) + 1;
            proof {
                self@.lemma_settling_pop(before, gate, waiting);
                w.lemma_load_front(levels, waiting);
                assert(w.reaches(gate, waiting[0]));
                assert forall|i: int| 0 <= i < queue@.len() implies w.reaches(
                    gate,
                    #[trigger] queue@[i],
                ) && before.has_gate(queue@[i]) by {
                    assert(queue@[i] == waiting[i + 1]);
                }
            }
            if steps >= bound {
                proof {
                    if before.within_bound(gate) {
                        assert(w.routes(gate, levels(gate) + 1) <= before.iteration_bound);
                    }
                }
                return Err(GateError::FeedbackLoopDetected(x));
            }
            steps = steps + 1;
            assert(self@.gates[x as int].wf());
            let value = self.gates[x].get_output();
            let mut c: usize = 0;
            while c < cables
                invariant
                    before.wf(),
                    before.has_gate(gate),
                    before.has_gate(x),
                    w == before.wiring(),
                    w.downhill(levels),
                    w.reaches(gate, x),
                    depth == levels(x) + 1,
                    cables == before.cables.len(),
                    c <= cables,
                    self.wf(),
                    self@.same_shape(before),
                    forall|i: int|
                        0 <= i < queue@.len() ==> w.reaches(gate, #[trigger] queue@[i])
                            && before.has_gate(queue@[i]),
                    self@.touched_below(before, gate),
                    self@.settling(before, gate, queue@, Some(x)),
                    self@.serving(before, x, value, c as int, c as int, 0),
                    before.within_bound(gate) ==> steps + w.load(levels, queue@) + w.fan(
                        x,
                        depth,
                        cables as nat,
                    ) <= total + w.fan(x, depth, c as nat),
                    before.quiescent() ==> self@ == before && queue@.len() == 0,
                    (self@, queue@) == popped.cables_served(rest, x, value, c as nat),
                decreases cables - c,
            {
                let driven = match self.cables[c].source() {
                    Some(s) => s == x,
                    None => false,
                };
                proof {
                    w.lemma_fan_next(x, depth, c as nat);
                    assert(self@.cables[c as int].source == before.cables[c as int].source);
                    assert(w.wires[c as int].source == before.cables[c as int].source);
                }
                if driven {
                    self.serve(
                        Ghost(before),
                        Ghost(levels),
                        gate,
                        x,
                        value,
                        c,
                        &mut queue,
                        Ghost(steps as int),
                        Ghost(total as int),
                    );
                } else {
                    proof {
                        self@.lemma_serving_skip(before, x, value, c as int);
                    }
                }
                c = c + 1;
            }
            proof {
                self@.lemma_served(before, gate, queue@, x, value);
            }
        }
        proof {
            assert(queue@ =~= Seq::<usize>::empty());
            self@.lemma_settled(before, gate);
        }
        Ok(())
    }

    /// Passes `value`, the output of gate `x`, on through cable `c`, which
    /// `x` drives: the cable takes the value over, each sink is set to it,
    /// and each gate whose output changes with that is put in the queue.
    fn serve(
        &mut self,
        Ghost(before): Ghost<NetworkModel>,
        Ghost(levels): Ghost<spec_fn(usize) -> nat>,
        gate: usize,
        x: usize,
        value: u64,
        c: usize,
        queue: &mut VecDeque<usize>,
        Ghost(steps): Ghost<int>,
        Ghost(total): Ghost<int>,
    )
        requires
            before.wf(),
            before.has_gate(gate),
            before.has_gate(x),
            before.wiring().downhill(levels),
            before.wiring().reaches(gate, x),
            c < before.cables.len(),
            before.cables[c as int].source == Some(x),
            old(self).wf(),
            old(self)@.same_shape(before),
            forall|i: int|
                0 <= i < old(queue)@.len() ==> before.wiring().reaches(gate, #[trigger] old(queue)@[i])
                    && before.has_gate(old(queue)@[i]),
            old(self)@.touched_below(before, gate),
            old(self)@.settling(before, gate, old(queue)@, Some(x)),
            old(self)@.serving(before, x, value, c as int, c as int, 0),
            before.within_bound(gate) ==> steps + before.wiring().load(levels, old(queue)@)
                + before.wiring().fan(x, levels(x) + 1, before.cables.len()) <= total
                + before.wiring().fan(x, levels(x) + 1, c as nat),
        ensures
            final(self).wf(),
            final(self)@.same_shape(before),
            forall|i: int|
                0 <= i < final(queue)@.len() ==> before.wiring().reaches(
                    gate,
                    #[trigger] final(queue)@[i],
                ) && before.has_gate(final(queue)@[i]),
            final(self)@.touched_below(before, gate),
            final(self)@.settling(before, gate, final(queue)@, Some(x)),
            final(self)@.serving(before, x, value, c + 1, c + 1, 0),
            before.within_bound(gate) ==> steps + before.wiring().load(levels, final(queue)@)
                + before.wiring().fan(x, levels(x) + 1, before.cables.len()) <= total
                + before.wiring().fan(x, levels(x) + 1, (c + 1) as nat),
            old(self)@ == before && before.quiescent() ==> final(self)@ == before && final(queue)@
                == old(queue)@,
            (final(self)@, final(queue)@) == old(self)@.cable_served(old(queue)@, c as int, value),
    {
        let ghost w = before.wiring();
        let ghost depth = levels(x) + 1;
        let ghost taken = self@;
        proof {
            taken.lemma_carry(before, gate, queue@, x, value, c as int);
            assert(taken.cable_fits(c as int));
            assert(taken.cables[c as int].source == before.cables[c as int].source);
            w.lemma_fan_next(x, depth, c as nat);
        }
        self.cables[c].carry(value);
        proof {
            assert(self@.cables =~= taken.carried(c as int, value).cables);
            assert(self@.gates =~= taken.gates);
        }
        let count = self.cables[c].sinks().len();
        assert(self@.cables[c as int].sinks == before.cables[c as int].sinks);
        let mut k: usize = 0;
        while k < count
            invariant
                before.wf(),
                before.has_gate(gate),
                before.has_gate(x),
                w == before.wiring(),
                w.downhill(levels),
                w.reaches(gate, x),
                depth == levels(x) + 1,
                c < before.cables.len(),
                before.cables[c as int].source == Some(x),
                k <= count,
                count == before.cables[c as int].sinks.len(),
                self.wf(),
                self@.same_shape(before),
                forall|i: int|
                    0 <= i < queue@.len() ==> w.reaches(gate, #[trigger] queue@[i])
                        && before.has_gate(queue@[i]),
                self@.touched_below(before, gate),
                self@.settling(before, gate, queue@, Some(x)),
                self@.serving(before, x, value, c + 1, c as int, k as int),
                before.within_bound(gate) ==> steps + w.load(levels, queue@) + w.fan(
                    x,
                    depth,
                    before.cables.len(),
                ) <= total + w.fan(x, depth, c as nat) + w.wire_fan(c as int, depth, k as nat),
                old(self)@ == before && before.quiescent() ==> self@ == before && queue@ == old(
                    queue,
                )@,
                (self@, queue@) == taken.carried(c as int, value).sinks_served(
                    old(queue)@,
                    c as int,
                    value,
                    k as nat,
                ),
            decreases count - k,
        {
            let ghost fed = self@;
            assert(fed.cables[c as int].sinks == before.cables[c as int].sinks);
            let sink = self.cables[c].sinks()[k];
            let y = sink.0;
            let slot = sink.1;
            proof {
                assert(w.plugged(c as int, k as int));
                assert(before.cables[c as int].sinks[k as int] == (y, slot));
                fed.lemma_push(before, gate, queue@, x, value, c as int, k as int);
                assert(fed.gates[y as int].wf());
                w.lemma_wire_fan_next(c as int, depth, k as nat);
                let (c0, k0) = choose|c0: int, k0: int| #[trigger] w.joins(c0, k0, x, y);
                assert(w.plugged(c0, k0));
                assert(levels(y) < levels(x));
                w.lemma_routes_monotone(y, levels(y) + 1, (depth - 1) as nat);
                w.lemma_load_push(levels, queue@, y);
            }
            let was = self.gates[y].get_output();
            let update = vec![(slot, value)];
            assert(update@ =~= seq![(slot, value)]);
            let set = self.gates[y].set_inputs(update);
            proof {
                assert(set is Ok);
                assert(self@.gates =~= fed.with_updates(y, seq![(slot, value)]).gates);
                assert(self@.cables =~= fed.cables);
            }
            let now = self.gates[y].get_output();
            if now != was {
                queue.push_back(y);
            }
            k = k + 1;
        }
        proof {
            self@.lemma_serving_cable(before, x, value, c as int);
        }
    }

    /// Marks every gate that is one of `roots` or lies downstream of one.
    fn downstream(&self, roots: &Vec<usize>) -> (seen: Vec<bool>)
        requires
            self.wf(),
            forall|i: int| 0 <= i < roots@.len() ==> self@.has_gate(#[trigger] roots@[i]),
        ensures
            seen@.len() == self@.gates.len(),
            self@.wiring().sealed(seen@),
            forall|g: usize| Wiring::lit(seen@, g) <==> self@.wiring().reached_from(roots@, g),
    {
        let n = self.gates.len();
        let cables = self.cables.len();
        let ghost w = self@.wiring();
        let mut seen: Vec<bool> = vec![false; n];
        let mut stack: Vec<usize> = Vec::new();
        let mut r: usize = 0;
        while r < roots.len()
            invariant
                r <= roots@.len(),
                seen@.len() == n,
                n == self@.gates.len(),
                w == self@.wiring(),
                forall|i: int| 0 <= i < roots@.len() ==> self@.has_gate(#[trigger] roots@[i]),
                forall|i: int| 0 <= i < r ==> Wiring::lit(seen@, #[trigger] roots@[i]),
                w.searching(roots@, seen@, stack@, Set::empty(), None),
            decreases roots@.len() - r,
        {
            let root = roots[r];
            if !seen[root] {
                proof {
                    w.lemma_search_root(roots@, seen@, stack@, r as int);
                }
                seen[root] = true;
                stack.push(root);
            }
            r = r + 1;
        }
        let ghost mut done: Set<usize> = Set::empty();
        while stack.len() > 0
            invariant
                seen@.len() == n,
                n == self@.gates.len(),
                cables == self@.cables.len(),
                self.wf(),
                w == self@.wiring(),
                forall|i: int| 0 <= i < roots@.len() ==> Wiring::lit(seen@, #[trigger] roots@[i]),
                w.searching(roots@, seen@, stack@, done, None),
            decreases 2 * Wiring::unseen(seen@) + stack@.len(),
        {
            let ghost budget = 2 * Wiring::unseen(seen@) + stack@.len();
            proof {
                w.lemma_search_pop(roots@, seen@, stack@, done);
            }
            let x = stack.pop().unwrap();
            let mut c: usize = 0;
            while c < cables
                invariant
                    c <= cables,
                    seen@.len() == n,
                    n == self@.gates.len(),
                    cables == self@.cables.len(),
                    self.wf(),
                    w == self@.wiring(),
                    forall|i: int|
                        0 <= i < roots@.len() ==> Wiring::lit(seen@, #[trigger] roots@[i]),
                    w.searching(roots@, seen@, stack@, done, Some(x)),
                    w.reached_from(roots@, x),
                    2 * Wiring::unseen(seen@) + stack@.len() < budget,
                    forall|c2: int, k: int| #[trigger]
                        w.plugged(c2, k) && c2 < c && w.wires[c2].source == Some(x)
                            ==> Wiring::lit(seen@, w.wires[c2].sinks[k].0),
                decreases cables - c,
            {
                let cable = &self.cables[c];
                let driven = match cable.source() {
                    Some(s) => s == x,
                    None => false,
                };
                if driven {
                    let sinks = cable.sinks();
                    let mut k: usize = 0;
                    assert(self@.cable_fits(c as int));
                    while k < sinks.len()
                        invariant
                            k <= sinks@.len(),
                            c < cables,
                            seen@.len() == n,
                            n == self@.gates.len(),
                            cables == self@.cables.len(),
                            self@.cable_fits(c as int),
                            w == self@.wiring(),
                            sinks@ == w.wires[c as int].sinks,
                            w.wires[c as int].source == Some(x),
                            forall|i: int|
                                0 <= i < roots@.len() ==> Wiring::lit(seen@, #[trigger] roots@[i]),
                            w.searching(roots@, seen@, stack@, done, Some(x)),
                            w.reached_from(roots@, x),
                            2 * Wiring::unseen(seen@) + stack@.len() < budget,
                            forall|c2: int, k2: int| #[trigger]
                                w.plugged(c2, k2) && c2 < c && w.wires[c2].source == Some(x)
                                    ==> Wiring::lit(seen@, w.wires[c2].sinks[k2].0),
                            forall|k2: int|
                                0 <= k2 < k ==> Wiring::lit(seen@, (#[trigger] sinks@[k2]).0),
                        decreases sinks@.len() - k,
                    {
                        let y = sinks[k].0;
                        assert(w.plugged(c as int, k as int));
                        assert(self@.cables[c as int].sinks[k as int] == sinks@[k as int]);
                        if !seen[y] {
                            proof {
                                w.lemma_search_mark(
                                    roots@,
                                    seen@,
                                    stack@,
                                    done,
                                    x,
                                    c as int,
                                    k as int,
                                );
                                Wiring::lemma_unseen_mark(seen@, y as int);
                            }
                            seen[y] = true;
                            stack.push(y);
                        }
                        k = k + 1;
                    }
                }
                c = c + 1;
            }
            proof {
                w.lemma_search_done(roots@, seen@, stack@, done, x);
                done = done.insert(x);
            }
        }
        proof {
            assert(stack@ =~= Seq::empty());
            w.lemma_search_over(roots@, seen@, done);
        }
        seen
    }
}

/// Feeding a gate from a cable keeps the network well formed, provided the
/// gate has the slot and the cable's width, and `marks` holds what lies
/// downstream of `gate` and not the cable's source.
proof fn lemma_with_input_wf(
    before: NetworkModel,
    cable: usize,
    gate: usize,
    slot: usize,
    marks: Seq<bool>,
)
    requires
        before.wf(),
        before.has_cable(cable),
        before.has_gate(gate),
        before.cables[cable as int].input_error(before.gates[gate as int], slot) is None,
        match before.cables[cable as int].source {
            Some(s) => {
                &&& before.wiring().sealed(marks)
                &&& Wiring::lit(marks, gate)
                &&& !Wiring::lit(marks, s)
            },
            None => true,
        },
    ensures
        before.with_input(cable, gate, slot).wf(),
{
    let after = before.with_input(cable, gate, slot);
    let w = before.wiring();
    let grown = after.wiring();
    let updates = seq![(slot, before.cables[cable as int].value)];
    assert(updates.drop_last() =~= Seq::<(usize, u64)>::empty());
    reveal_with_fuel(crate::base_gates::gate::first_stray_slot, 2);
    assert(before.gates[gate as int].update_error(updates) is None);
    crate::base_gates::gate::lemma_offer_wf(before.gates[gate as int], updates);
    assert forall|c: int| 0 <= c < after.cables.len() implies #[trigger] after.cable_fits(c) by {
        assert(before.cable_fits(c));
        if c == cable {
            let sinks = before.cables[c].sinks;
            let fed = after.cables[c].sinks;
            if !before.cables[c].feeds(gate, slot) {
                assert forall|i: int, j: int|
                    0 <= i < fed.len() && 0 <= j < fed.len() && i != j implies fed[i] != fed[j] by {
                    if i < sinks.len() && j < sinks.len() {
                    } else if i < sinks.len() {
                        assert(sinks.contains(sinks[i]));
                    } else {
                        assert(sinks.contains(sinks[j]));
                    }
                }
            }
        }
    }
    let levels = choose|levels: spec_fn(usize) -> nat| #[trigger] w.downhill(levels);
    match before.cables[cable as int].source {
        Some(s) => {
            assert forall|c: int, k: int| #[trigger] grown.plugged(c, k) implies match grown.wires[c].source {
                Some(s2) => {
                    let sink = grown.wires[c].sinks[k].0;
                    ||| w.joins(c, k, s2, sink)
                    ||| (!Wiring::lit(marks, s2) && Wiring::lit(marks, sink) && levels(sink)
                        < levels(gate) + 1)
                },
                None => true,
            } by {
                if c != cable || k < before.cables[cable as int].sinks.len() {
                    assert(w.plugged(c, k));
                }
            }
            w.lemma_raise_keeps_downhill(grown, levels, marks, levels(gate) + 1);
        },
        None => {
            assert forall|c: int, k: int| #[trigger] grown.plugged(c, k) implies match grown.wires[c].source {
                Some(s2) => levels(grown.wires[c].sinks[k].0) < levels(s2),
                None => true,
            } by {
                if c != cable {
                    assert(w.plugged(c, k));
                }
            }
            assert(grown.downhill(levels));
        },
    }
}

/// Driving a cable from a gate keeps the network well formed, provided the
/// cable can take `gate`, and `marks` holds what the cable feeds, all that
/// lies downstream of it, and not `gate`.
proof fn lemma_with_output_wf(before: NetworkModel, cable: usize, gate: usize, marks: Seq<bool>)
    requires
        before.wf(),
        before.has_cable(cable),
        before.has_gate(gate),
        before.cables[cable as int].output_error(gate, before.gates[gate as int]) is None,
        before.wiring().sealed(marks),
        !Wiring::lit(marks, gate),
        forall|k: int|
            0 <= k < before.cables[cable as int].sinks.len() ==> Wiring::lit(
                marks,
                (#[trigger] before.cables[cable as int].sinks[k]).0,
            ),
    ensures
        before.with_output(cable, gate).wf(),
{
    let after = before.with_output(cable, gate);
    let w = before.wiring();
    let grown = after.wiring();
    let sinks = before.cables[cable as int].sinks;
    assert forall|c: int| 0 <= c < after.cables.len() implies #[trigger] after.cable_fits(c) by {
        assert(before.cable_fits(c));
    }
    let levels = choose|levels: spec_fn(usize) -> nat| #[trigger] w.downhill(levels);
    let lift = Wiring::summit(levels, sinks) + 1;
    assert forall|c: int, k: int| #[trigger] grown.plugged(c, k) implies match grown.wires[c].source {
        Some(s2) => {
            let sink = grown.wires[c].sinks[k].0;
            ||| w.joins(c, k, s2, sink)
            ||| (!Wiring::lit(marks, s2) && Wiring::lit(marks, sink) && levels(sink) < lift)
        },
        None => true,
    } by {
        assert(w.plugged(c, k));
        if c == cable {
            Wiring::lemma_summit(levels, sinks, k);
            assert(Wiring::lit(marks, sinks[k].0));
        }
    }
    w.lemma_raise_keeps_downhill(grown, levels, marks, lift);
}

} // verus!
