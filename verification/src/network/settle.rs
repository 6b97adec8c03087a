use vstd::prelude::*;
use crate::base_gates::gate::{first_stray_slot, lemma_offer_wf, lemma_output_masked};
use crate::base_gates::gate_error::GateError;
use crate::network::NetworkModel;
use crate::network::wiring::Wiring;

verus! {

impl NetworkModel {
    /// Cable `c` carries what its source puts out, or zero when it has no
    /// source.
    pub open spec fn current(self, c: int) -> bool {
        match self.cables[c].source {
            Some(s) => self.cables[c].value == self.gates[s as int].output,
            None => self.cables[c].value == 0,
        }
    }

    /// The input slot at sink `k` of cable `c` holds the value the cable
    /// carries.
    pub open spec fn delivered(self, c: int, k: int) -> bool {
        let (gate, slot) = self.cables[c].sinks[k];
        self.gates[gate as int].inputs[slot as int] == self.cables[c].value
    }

    /// No other cable feeds the input slot at sink `k` of cable `c`.
    pub open spec fn sole_feed(self, c: int, k: int) -> bool {
        forall|c2: int, k2: int| #[trigger]
            self.wiring().plugged(c2, k2) && self.cables[c2].sinks[k2] == self.cables[c].sinks[k]
                ==> c2 == c
    }

    /// Input slot `slot` of gate `gate` is fed by a cable whose source is
    /// `start` or lies downstream of it.
    pub open spec fn fed_below(self, start: usize, gate: int, slot: int) -> bool {
        exists|c: int, k: int| #[trigger]
            self.wiring().plugged(c, k) && self.cables[c].sinks[k] == (gate as usize, slot as usize)
                && match self.cables[c].source {
                Some(s) => self.wiring().reaches(start, s),
                None => false,
            }
    }

    /// Some cable feeds input slot `slot` of gate `gate`.
    pub open spec fn fed(self, gate: int, slot: int) -> bool {
        exists|c: int, k: int| #[trigger]
            self.wiring().plugged(c, k) && self.cables[c].sinks[k] == (gate as usize, slot as usize)
    }

    /// Every cable is current and every sink holds its cable's value.
    pub open spec fn quiescent(self) -> bool {
        &&& forall|c: int| 0 <= c < self.cables.len() ==> #[trigger] self.current(c)
        &&& forall|c: int, k: int| #[trigger] self.wiring().plugged(c, k) ==> self.delivered(c, k)
    }

    /// The network has the gates and cables of `before`, each of the same
    /// shape and wired in the same way; only values may differ.
    pub open spec fn same_shape(self, before: NetworkModel) -> bool {
        &&& self.iteration_bound == before.iteration_bound
        &&& self.gates.len() == before.gates.len()
        &&& self.cables.len() == before.cables.len()
        &&& forall|g: int|
            0 <= g < self.gates.len() ==> {
                &&& (#[trigger] self.gates[g]).gate_type == before.gates[g].gate_type
                &&& self.gates[g].bus_width == before.gates[g].bus_width
                &&& self.gates[g].arity() == before.gates[g].arity()
            }
        &&& forall|c: int|
            0 <= c < self.cables.len() ==> {
                &&& (#[trigger] self.cables[c]).bus_width == before.cables[c].bus_width
                &&& self.cables[c].source == before.cables[c].source
                &&& self.cables[c].sinks == before.cables[c].sinks
            }
    }

    /// Against `before`, an input slot holds another value only where a
    /// cable feeds it whose source is `start` or lies downstream of it, and
    /// a cable carries another value only where its source is such a gate.
    pub open spec fn touched_below(self, before: NetworkModel, start: usize) -> bool {
        &&& forall|g: int, slot: int|
            0 <= g < self.gates.len() && 0 <= slot < self.gates[g].inputs.len()
                && #[trigger] self.gates[g].inputs[slot] != before.gates[g].inputs[slot]
                ==> before.fed_below(start, g, slot)
        &&& forall|c: int|
            0 <= c < self.cables.len() && (#[trigger] self.cables[c]).value
                != before.cables[c].value ==> match before.cables[c].source {
                Some(s) => before.wiring().reaches(start, s),
                None => false,
            }
    }

    /// What a propagation from `start` has brought about, against `before`:
    /// every cable that `start` drives, and every cable that was current,
    /// is current; and every sink that no other cable feeds holds its
    /// cable's value, if `start` drives the cable or the sink held the
    /// cable's value before.
    pub open spec fn settled_after(self, before: NetworkModel, start: usize) -> bool {
        &&& forall|c: int|
            0 <= c < self.cables.len() && (before.cables[c].source == Some(start) || before.current(
                c,
            )) ==> #[trigger] self.current(c)
        &&& forall|c: int, k: int| #[trigger]
            before.wiring().plugged(c, k) && before.sole_feed(c, k) && (before.cables[c].source
                == Some(start) || before.delivered(c, k)) ==> self.delivered(c, k)
    }

    /// The number of ways in which a change at `start` can travel on through
    /// the network is at most the iteration bound.
    pub open spec fn within_bound(self, start: usize) -> bool {
        forall|depth: nat| #[trigger] self.wiring().routes(start, depth) <= self.iteration_bound
    }

    /// Gate `s` waits to be evaluated: it is in the queue or being worked on.
    pub open spec fn waiting(pending: Seq<usize>, busy: Option<usize>, s: usize) -> bool {
        pending.contains(s) || busy == Some(s)
    }

    /// What holds in the middle of a propagation from `start`: what
    /// `settled_after` says, but of those cables only whose source does not
    /// wait to be evaluated.
    pub open spec fn settling(
        self,
        before: NetworkModel,
        start: usize,
        pending: Seq<usize>,
        busy: Option<usize>,
    ) -> bool {
        &&& forall|c: int|
            0 <= c < self.cables.len() ==> match before.cables[c].source {
                Some(s) => !Self::waiting(pending, busy, s) && (s == start || before.current(c))
                    ==> #[trigger] self.current(c),
                None => true,
            }
        &&& forall|c: int, k: int| #[trigger]
            before.wiring().plugged(c, k) && before.sole_feed(c, k) ==> match before.cables[c].source {
                Some(s) => !Self::waiting(pending, busy, s) && (s == start || before.delivered(c, k))
                    ==> self.delivered(c, k),
                None => before.delivered(c, k) ==> self.delivered(c, k),
            }
    }

    /// How far the output `value` of gate `x` has been passed on: the first
    /// `valued` cables that `x` drives carry it, and of the cables before
    /// `c_done`, and of the first `k_done` sinks of cable `c_done`, each
    /// sink that no other cable feeds holds it.
    pub open spec fn serving(
        self,
        before: NetworkModel,
        x: usize,
        value: u64,
        valued: int,
        c_done: int,
        k_done: int,
    ) -> bool {
        &&& self.gates[x as int].output == value
        &&& forall|c: int|
            0 <= c < valued && c < self.cables.len() && before.cables[c].source == Some(x) ==> (
            #[trigger] self.cables[c]).value == value
        &&& forall|c: int, k: int| #[trigger]
            before.wiring().plugged(c, k) && before.cables[c].source == Some(x) && (c < c_done || (c
                == c_done && k < k_done)) && before.sole_feed(c, k) ==> self.delivered(c, k)
    }

    /// The network after cable `c` took over `value`.
    pub open spec fn carried(self, c: int, value: u64) -> NetworkModel {
        NetworkModel {
            cables: self.cables.update(
                c,
                crate::connectors::cable::CableModel { value, ..self.cables[c] },
            ),
            ..self
        }
    }

    /// The network and the queue after `value` was passed on to sink `k` of
    /// cable `c`: the slot set, the output of its gate recomputed, and that
    /// gate put at the end of the queue if its output has changed.
    pub open spec fn sink_served(self, queue: Seq<usize>, c: int, k: int, value: u64) -> (
        NetworkModel,
        Seq<usize>,
    ) {
        let (gate, slot) = self.cables[c].sinks[k];
        let after = self.with_updates(gate, seq![(slot, value)]);
        if after.gates[gate as int].output != self.gates[gate as int].output {
            (after, queue.push(gate))
        } else {
            (after, queue)
        }
    }

    /// The network and the queue after `value` was passed on to the first
    /// `sinks` sinks of cable `c`, one after the other.
    pub open spec fn sinks_served(self, queue: Seq<usize>, c: int, value: u64, sinks: nat) -> (
        NetworkModel,
        Seq<usize>,
    )
        decreases sinks,
    {
        if sinks == 0 {
            (self, queue)
        } else {
            let (net, waiting) = self.sinks_served(queue, c, value, (sinks - 1) as nat);
            net.sink_served(waiting, c, sinks - 1, value)
        }
    }

    /// The network and the queue after cable `c` took over `value` and
    /// passed it on to all its sinks.
    pub open spec fn cable_served(self, queue: Seq<usize>, c: int, value: u64) -> (
        NetworkModel,
        Seq<usize>,
    ) {
        self.carried(c, value).sinks_served(queue, c, value, self.cables[c].sinks.len())
    }

    /// The network and the queue after `value`, the output of gate `x`, was
    /// passed on through those of the first `cables` cables that `x` drives,
    /// one after the other.
    pub open spec fn cables_served(self, queue: Seq<usize>, x: usize, value: u64, cables: nat) -> (
        NetworkModel,
        Seq<usize>,
    )
        decreases cables,
    {
        if cables == 0 {
            (self, queue)
        } else {
            let c = cables - 1;
            let (net, waiting) = self.cables_served(queue, x, value, c as nat);
            if net.cables[c].source == Some(x) {
                net.cable_served(waiting, c, value)
            } else {
                (net, waiting)
            }
        }
    }

    /// The network after the gates in `queue` were evaluated, the first
    /// first, and then those that they put in the queue, and the result: a
    /// failure at the first gate that would be one evaluation more than
    /// `evaluations`.
    pub open spec fn run(self, queue: Seq<usize>, evaluations: nat) -> (
        NetworkModel,
        Result<(), GateError>,
    )
        decreases evaluations,
    {
        if queue.len() == 0 {
            (self, Ok(()))
        } else if evaluations == 0 {
            (self, Err(GateError::FeedbackLoopDetected(queue[0])))
        } else {
            let x = queue[0];
            let (net, waiting) = self.cables_served(
                queue.subrange(1, queue.len() as int),
                x,
                self.gates[x as int].output,
                self.cables.len(),
            );
            net.run(waiting, (evaluations - 1) as nat)
        }
    }

    /// The network after a propagation from `start`, and its result.
    pub open spec fn propagated(self, start: usize) -> (NetworkModel, Result<(), GateError>) {
        self.run(seq![start], self.iteration_bound as nat)
    }

    /// A network of the same shape has the same wiring.
    pub proof fn lemma_same_wiring(self, before: NetworkModel)
        requires
            self.same_shape(before),
        ensures
            self.wiring() == before.wiring(),
    {
        assert(self.wiring().wires =~= before.wiring().wires);
    }

    /// A well-formed network stays well formed when only values change and
    /// every gate and cable stays well formed in itself.
    pub(crate) proof fn lemma_same_shape_wf(self, before: NetworkModel)
        requires
            before.wf(),
            self.same_shape(before),
            forall|g: int| 0 <= g < self.gates.len() ==> (#[trigger] self.gates[g]).wf(),
            forall|c: int| 0 <= c < self.cables.len() ==> (#[trigger] self.cables[c]).wf(),
        ensures
            self.wf(),
    {
        self.lemma_same_wiring(before);
        assert forall|c: int| 0 <= c < self.cables.len() implies #[trigger] self.cable_fits(c) by {
            assert(before.cable_fits(c));
            let cable = self.cables[c];
            assert(cable.wf());
            assert forall|k: int| 0 <= k < cable.sinks.len() implies {
                let (gate, slot) = #[trigger] cable.sinks[k];
                &&& self.has_gate(gate)
                &&& slot < self.gates[gate as int].arity()
                &&& self.gates[gate as int].bus_width == cable.bus_width
            } by {
                let (gate, slot) = before.cables[c].sinks[k];
                assert(before.has_gate(gate));
            }
        }
    }

    /// Taking the first gate off the queue to work on it.
    pub(crate) proof fn lemma_settling_pop(self, before: NetworkModel, start: usize, pending: Seq<usize>)
        requires
            self.settling(before, start, pending, None),
            pending.len() > 0,
        ensures
            self.settling(
                before,
                start,
                pending.subrange(1, pending.len() as int),
                Some(pending[0]),
            ),
    {
        let rest = pending.subrange(1, pending.len() as int);
        let busy = Some(pending[0]);
        assert forall|s: usize| !Self::waiting(rest, busy, s) implies !Self::waiting(
            pending,
            None,
            s,
        ) by {
            if pending.contains(s) {
                let i = choose|i: int| 0 <= i < pending.len() && pending[i] == s;
                if i > 0 {
                    assert(rest[i - 1] == s);
                }
            }
        }
    }

    /// Cable `c`, which gate `x` drives, takes over the output of `x`.
    pub(crate) proof fn lemma_carry(
        self,
        before: NetworkModel,
        start: usize,
        pending: Seq<usize>,
        x: usize,
        value: u64,
        c: int,
    )
        requires
            before.wf(),
            self.wf(),
            self.same_shape(before),
            0 <= c < before.cables.len(),
            before.cables[c].source == Some(x),
            before.wiring().reaches(start, x),
            self.touched_below(before, start),
            self.settling(before, start, pending, Some(x)),
            self.serving(before, x, value, c, c, 0),
        ensures
            self.carried(c, value).wf(),
            self.carried(c, value).same_shape(before),
            self.carried(c, value).touched_below(before, start),
            self.carried(c, value).settling(before, start, pending, Some(x)),
            self.carried(c, value).serving(before, x, value, c + 1, c, 0),
            self == before && before.quiescent() ==> self.carried(c, value) == before,
    {
        let after = self.carried(c, value);
        let w = before.wiring();
        if self == before && before.quiescent() {
            assert(before.current(c));
            assert(after.cables =~= before.cables);
        }
        assert(after.same_shape(before));
        assert forall|c2: int| 0 <= c2 < after.cables.len() implies (#[trigger] after.cables[c2]).wf() by {
            assert(self.cable_fits(c2));
        }
        after.lemma_same_shape_wf(before);
        assert forall|c2: int| 0 <= c2 < after.cables.len() implies match before.cables[c2].source {
            Some(s) => !Self::waiting(pending, Some(x), s) && (s == start || before.current(c2))
                ==> #[trigger] after.current(c2),
            None => true,
        } by {
            if c2 != c {
                assert(self.current(c2) == after.current(c2));
            }
        }
        assert forall|c2: int, k: int| #[trigger]
            w.plugged(c2, k) && before.sole_feed(c2, k) implies match before.cables[c2].source {
            Some(s) => !Self::waiting(pending, Some(x), s) && (s == start || before.delivered(c2, k))
                ==> after.delivered(c2, k),
            None => before.delivered(c2, k) ==> after.delivered(c2, k),
        } by {
            if c2 != c {
                assert(self.delivered(c2, k) == after.delivered(c2, k));
            }
        }
        assert forall|c2: int, k: int| #[trigger]
            w.plugged(c2, k) && before.cables[c2].source == Some(x) && (c2 < c || (c2 == c && k
                < 0)) && before.sole_feed(c2, k) implies after.delivered(c2, k) by {
            assert(self.delivered(c2, k) == after.delivered(c2, k));
        }
    }

    /// The value of cable `c`, which gate `x` drives, is passed on to the
    /// cable's sink `k`.
    pub(crate) proof fn lemma_push(
        self,
        before: NetworkModel,
        start: usize,
        pending: Seq<usize>,
        x: usize,
        value: u64,
        c: int,
        k: int,
    )
        requires
            before.wf(),
            self.wf(),
            self.same_shape(before),
            before.wiring().plugged(c, k),
            before.cables[c].source == Some(x),
            before.wiring().reaches(start, x),
            self.touched_below(before, start),
            self.settling(before, start, pending, Some(x)),
            self.serving(before, x, value, c + 1, c, k),
        ensures
            ({
                let (y, slot) = before.cables[c].sinks[k];
                let after = self.with_updates(y, seq![(slot, value)]);
                &&& before.has_gate(y)
                &&& y != x
                &&& before.wiring().reaches(start, y)
                &&& before.wiring().edge(x, y)
                &&& self.gates[y as int].update_error(seq![(slot, value)]) is None
                &&& after.wf()
                &&& after.same_shape(before)
                &&& after.touched_below(before, start)
                &&& after.serving(before, x, value, c + 1, c, k + 1)
                &&& if after.gates[y as int].output == self.gates[y as int].output {
                    after.settling(before, start, pending, Some(x))
                } else {
                    after.settling(before, start, pending.push(y), Some(x))
                }
                &&& self == before && before.quiescent() ==> after == before
            }),
    {
        let w = before.wiring();
        let (y, slot) = before.cables[c].sinks[k];
        let updates = seq![(slot, value)];
        let after = self.with_updates(y, updates);
        let levels = choose|levels: spec_fn(usize) -> nat| #[trigger] w.downhill(levels);
        assert(before.cable_fits(c));
        assert(before.cables[c].sinks[k] == (y, slot));
        assert(w.joins(c, k, x, y));
        assert(w.edge(x, y));
        w.lemma_reaches_edge(start, x, y);
        assert(levels(y) < levels(x));
        assert(y != x);
        let old_gate = self.gates[y as int];
        assert(old_gate.wf());
        assert(updates.drop_last() =~= Seq::<(usize, u64)>::empty());
        reveal_with_fuel(first_stray_slot, 2);
        assert(old_gate.update_error(updates) is None);
        lemma_offer_wf(old_gate, updates);
        let new_gate = old_gate.offer(updates);
        assert(after.gates[y as int] == new_gate);
        assert(self.gates[x as int].wf());
        lemma_output_masked(self.gates[x as int]);
        assert(self.gates[x as int].bus_width == old_gate.bus_width);
        reveal_with_fuel(crate::base_gates::gate::last_update, 2);
        assert forall|i: int| 0 <= i < new_gate.inputs.len() implies new_gate.inputs[i] == if i
            == slot {
            value
        } else {
            old_gate.inputs[i]
        } by {}
        assert(after.same_shape(before));
        assert forall|c2: int| 0 <= c2 < after.cables.len() implies (#[trigger] after.cables[c2]).wf() by {
            assert(self.cable_fits(c2));
        }
        after.lemma_same_shape_wf(before);
        assert(self.cables[c].value == value);
        if self == before && before.quiescent() {
            assert(before.delivered(c, k));
            assert(new_gate.inputs =~= old_gate.inputs);
            assert(after.gates =~= before.gates);
        }
        // frame
        assert forall|g: int, i: int|
            0 <= g < after.gates.len() && 0 <= i < after.gates[g].inputs.len()
                && #[trigger] after.gates[g].inputs[i] != before.gates[g].inputs[i] implies before.fed_below(
            start,
            g,
            i,
        ) by {
            if g == y && i == slot {
                assert(w.plugged(c, k));
            } else {
                assert(after.gates[g].inputs[i] == self.gates[g].inputs[i]);
            }
        }
        assert forall|c2: int|
            0 <= c2 < after.cables.len() && (#[trigger] after.cables[c2]).value
                != before.cables[c2].value implies match before.cables[c2].source {
            Some(s) => w.reaches(start, s),
            None => false,
        } by {
            assert(after.cables[c2] == self.cables[c2]);
        }
        // what has been served
        assert forall|c2: int, k2: int| #[trigger]
            w.plugged(c2, k2) && before.cables[c2].source == Some(x) && (c2 < c || (c2 == c && k2
                < k + 1)) && before.sole_feed(c2, k2) implies after.delivered(c2, k2) by {
            assert(before.cable_fits(c2));
            assert(after.cables[c2] == self.cables[c2]);
            if c2 == c && k2 == k {
            } else if before.cables[c2].sinks[k2] == (y, slot) {
                assert(w.plugged(c, k));
                assert(c2 == c);
                assert(before.cables[c].sinks.no_duplicates());
            } else {
                assert(self.delivered(c2, k2));
            }
        }
        // what is settled
        let changed = after.gates[y as int].output != self.gates[y as int].output;
        let queue = if changed {
            pending.push(y)
        } else {
            pending
        };
        assert forall|s: usize| !Self::waiting(queue, Some(x), s) implies !Self::waiting(
            pending,
            Some(x),
            s,
        ) && (changed ==> s != y) by {
            if pending.contains(s) {
                let i = choose|i: int| 0 <= i < pending.len() && pending[i] == s;
                assert(queue[i] == s);
            }
            if changed && s == y {
                assert(queue[pending.len() as int] == y);
            }
        }
        assert forall|c2: int| 0 <= c2 < after.cables.len() implies match before.cables[c2].source {
            Some(s) => !Self::waiting(queue, Some(x), s) && (s == start || before.current(c2))
                ==> #[trigger] after.current(c2),
            None => true,
        } by {
            assert(before.cable_fits(c2));
            match before.cables[c2].source {
                Some(s) => {
                    if !Self::waiting(queue, Some(x), s) && (s == start || before.current(c2)) {
                        assert(!Self::waiting(pending, Some(x), s));
                        assert(self.current(c2));
                        assert(after.cables[c2] == self.cables[c2]);
                        assert(after.gates[s as int].output == self.gates[s as int].output);
                    }
                },
                None => {},
            }
        }
        assert forall|c2: int, k2: int| #[trigger]
            w.plugged(c2, k2) && before.sole_feed(c2, k2) implies match before.cables[c2].source {
            Some(s) => !Self::waiting(queue, Some(x), s) && (s == start || before.delivered(c2, k2))
                ==> after.delivered(c2, k2),
            None => before.delivered(c2, k2) ==> after.delivered(c2, k2),
        } by {
            assert(before.cable_fits(c2));
            assert(after.cables[c2] == self.cables[c2]);
            if before.cables[c2].sinks[k2] == (y, slot) {
                assert(w.plugged(c, k));
                assert(c2 == c);
            } else {
                assert(self.delivered(c2, k2) == after.delivered(c2, k2));
            }
        }
    }

    /// A cable that gate `x` does not drive needs no service from `x`.
    pub(crate) proof fn lemma_serving_skip(self, before: NetworkModel, x: usize, value: u64, c: int)
        requires
            self.serving(before, x, value, c, c, 0),
            0 <= c < self.cables.len(),
            before.cables[c].source != Some(x),
        ensures
            self.serving(before, x, value, c + 1, c + 1, 0),
    {
        assert forall|c2: int, k2: int| #[trigger]
            before.wiring().plugged(c2, k2) && before.cables[c2].source == Some(x) && (c2 < c + 1
                || (c2 == c + 1 && k2 < 0)) && before.sole_feed(c2, k2) implies self.delivered(
            c2,
            k2,
        ) by {
            assert(c2 < c);
        }
    }

    /// A cable all of whose sinks have been served has been served.
    pub(crate) proof fn lemma_serving_cable(self, before: NetworkModel, x: usize, value: u64, c: int)
        requires
            0 <= c < before.cables.len(),
            self.serving(before, x, value, c + 1, c, before.cables[c].sinks.len() as int),
        ensures
            self.serving(before, x, value, c + 1, c + 1, 0),
    {
        assert forall|c2: int, k2: int| #[trigger]
            before.wiring().plugged(c2, k2) && before.cables[c2].source == Some(x) && (c2 < c + 1
                || (c2 == c + 1 && k2 < 0)) && before.sole_feed(c2, k2) implies self.delivered(
            c2,
            k2,
        ) by {
            assert(c2 < c || (c2 == c && k2 < before.cables[c].sinks.len()));
        }
    }

    /// Once every cable that gate `x` drives carries its output to every
    /// sink, `x` waits no longer.
    pub(crate) proof fn lemma_served(
        self,
        before: NetworkModel,
        start: usize,
        pending: Seq<usize>,
        x: usize,
        value: u64,
    )
        requires
            self.same_shape(before),
            self.settling(before, start, pending, Some(x)),
            self.serving(before, x, value, self.cables.len() as int, self.cables.len() as int, 0),
        ensures
            self.settling(before, start, pending, None),
    {
        let w = before.wiring();
        assert forall|c: int| 0 <= c < self.cables.len() implies match before.cables[c].source {
            Some(s) => !Self::waiting(pending, None, s) && (s == start || before.current(c))
                ==> #[trigger] self.current(c),
            None => true,
        } by {
            if before.cables[c].source == Some(x) {
                assert(self.cables[c].value == value);
            }
        }
        assert forall|c: int, k: int| #[trigger]
            w.plugged(c, k) && before.sole_feed(c, k) implies match before.cables[c].source {
            Some(s) => !Self::waiting(pending, None, s) && (s == start || before.delivered(c, k))
                ==> self.delivered(c, k),
            None => before.delivered(c, k) ==> self.delivered(c, k),
        } by {}
    }

    /// After a propagation from the source of a cable, the sinks of the
    /// cable that no other cable feeds all hold one value: the output of
    /// the source.
    pub proof fn lemma_fan_out(
        self,
        before: NetworkModel,
        start: usize,
        c: int,
        first: int,
        second: int,
    )
        requires
            self.same_shape(before),
            self.settled_after(before, start),
            before.cables[c].source == Some(start),
            before.wiring().plugged(c, first),
            before.wiring().plugged(c, second),
            before.sole_feed(c, first),
            before.sole_feed(c, second),
        ensures
            ({
                let (g1, s1) = before.cables[c].sinks[first];
                let (g2, s2) = before.cables[c].sinks[second];
                &&& self.gates[g1 as int].inputs[s1 as int] == self.gates[start as int].output
                &&& self.gates[g2 as int].inputs[s2 as int] == self.gates[start as int].output
            }),
    {
        assert(self.current(c));
        assert(self.delivered(c, first));
        assert(self.delivered(c, second));
        assert(self.cables[c].source == before.cables[c].source);
    }

    /// When every cable that `start` does not drive was current, and every
    /// sink of such a cable held the cable's value, and no input slot is
    /// fed by two cables, a propagation from `start` leaves the whole
    /// network quiescent.
    pub proof fn lemma_settled_quiescent(self, before: NetworkModel, start: usize)
        requires
            self.same_shape(before),
            self.settled_after(before, start),
            forall|c: int|
                0 <= c < before.cables.len() && before.cables[c].source != Some(start)
                    ==> #[trigger] before.current(c),
            forall|c: int, k: int| #[trigger]
                before.wiring().plugged(c, k) ==> {
                    &&& before.sole_feed(c, k)
                    &&& before.cables[c].source != Some(start) ==> before.delivered(c, k)
                },
        ensures
            self.quiescent(),
    {
        self.lemma_same_wiring(before);
        assert forall|c: int| 0 <= c < self.cables.len() implies #[trigger] self.current(c) by {
            if before.cables[c].source != Some(start) {
                assert(before.current(c));
            }
        }
        assert forall|c: int, k: int| #[trigger] self.wiring().plugged(c, k) implies self.delivered(
            c,
            k,
        ) by {
            assert(before.wiring().plugged(c, k));
        }
    }

    /// Where the gates lie on `levels` with every cable running downhill,
    /// counting the routes from `start` to the depth of its level is enough
    /// to tell that a propagation from `start` stays within the bound.
    pub proof fn lemma_within_bound(self, levels: spec_fn(usize) -> nat, start: usize)
        requires
            self.wiring().downhill(levels),
            self.wiring().routes(start, levels(start)) <= self.iteration_bound,
        ensures
            self.within_bound(start),
    {
        let w = self.wiring();
        assert forall|depth: nat| #[trigger] w.routes(start, depth) <= self.iteration_bound by {
            if depth >= levels(start) {
                w.lemma_routes_flat(levels, start, depth, levels(start));
            } else {
                w.lemma_routes_monotone(start, depth, levels(start));
            }
        }
    }

    /// The highest level among the first `gates` gates.
    pub open spec fn ceiling(levels: spec_fn(usize) -> nat, gates: nat) -> nat
        decreases gates,
    {
        if gates == 0 {
            0
        } else {
            let below = Self::ceiling(levels, (gates - 1) as nat);
            let top = levels((gates - 1) as usize);
            if top > below {
                top
            } else {
                below
            }
        }
    }

    proof fn lemma_ceiling(levels: spec_fn(usize) -> nat, gates: nat, g: usize)
        requires
            g < gates <= usize::MAX,
        ensures
            levels(g) <= Self::ceiling(levels, gates),
        decreases gates,
    {
        if g < gates - 1 {
            Self::lemma_ceiling(levels, (gates - 1) as nat, g);
        }
    }

    proof fn lemma_gate_determined(
        self,
        other: NetworkModel,
        levels: spec_fn(usize) -> nat,
        g: int,
    )
        requires
            self.wf(),
            other.wf(),
            other.same_shape(self),
            self.quiescent(),
            other.quiescent(),
            forall|g: int, slot: int|
                0 <= g < self.gates.len() && 0 <= slot < self.gates[g].inputs.len() && !self.fed(
                    g,
                    slot,
                ) ==> #[trigger] self.gates[g].inputs[slot] == other.gates[g].inputs[slot],
            self.wiring().downhill(levels),
            self.gates.len() <= usize::MAX,
            0 <= g < self.gates.len(),
        ensures
            self.gates[g] == other.gates[g],
        decreases Self::ceiling(levels, self.gates.len()) - levels(g as usize),
    {
        let mine = self.gates[g];
        let theirs = other.gates[g];
        other.lemma_same_wiring(self);
        Self::lemma_ceiling(levels, self.gates.len(), g as usize);
        assert forall|slot: int| 0 <= slot < mine.inputs.len() implies mine.inputs[slot]
            == theirs.inputs[slot] by {
            if self.fed(g, slot) {
                let (c, k) = choose|c: int, k: int| #[trigger]
                    self.wiring().plugged(c, k) && self.cables[c].sinks[k] == (
                        g as usize,
                        slot as usize,
                    );
                assert(self.delivered(c, k));
                assert(other.wiring().plugged(c, k));
                assert(other.delivered(c, k));
                assert(self.current(c));
                assert(other.current(c));
                assert(self.cable_fits(c));
                assert(other.cables[c].source == self.cables[c].source);
                assert(other.cables[c].sinks == self.cables[c].sinks);
                match self.cables[c].source {
                    Some(s) => {
                        assert(levels(g as usize) < levels(s));
                        Self::lemma_ceiling(levels, self.gates.len(), s);
                        self.lemma_gate_determined(other, levels, s as int);
                    },
                    None => {},
                }
            }
        }
        assert(mine.inputs =~= theirs.inputs);
        assert(mine.wf());
        assert(theirs.wf());
    }

    /// A quiescent network is determined by its wiring and by the input
    /// slots that no cable feeds: two well-formed quiescent networks of the
    /// same shape that agree on those slots agree on every value.
    pub proof fn lemma_quiescent_determined(self, other: NetworkModel)
        requires
            self.wf(),
            other.wf(),
            other.same_shape(self),
            self.quiescent(),
            other.quiescent(),
            forall|g: int, slot: int|
                0 <= g < self.gates.len() && 0 <= slot < self.gates[g].inputs.len() && !self.fed(
                    g,
                    slot,
                ) ==> #[trigger] self.gates[g].inputs[slot] == other.gates[g].inputs[slot],
            self.gates.len() <= usize::MAX,
        ensures
            self == other,
    {
        let levels = choose|levels: spec_fn(usize) -> nat| #[trigger] self.wiring().downhill(levels);
        assert forall|g: int| 0 <= g < self.gates.len() implies self.gates[g] == other.gates[g] by {
            self.lemma_gate_determined(other, levels, g);
        }
        assert(self.gates =~= other.gates);
        assert forall|c: int| 0 <= c < self.cables.len() implies self.cables[c]
            == other.cables[c] by {
            assert(self.current(c));
            assert(other.current(c));
            assert(self.cable_fits(c));
            assert(other.cables[c].source == self.cables[c].source);
        }
        assert(self.cables =~= other.cables);
    }

    /// With nothing left waiting, the network is settled.
    pub(crate) proof fn lemma_settled(self, before: NetworkModel, start: usize)
        requires
            before.wf(),
            self.wf(),
            self.same_shape(before),
            self.settling(before, start, Seq::empty(), None),
        ensures
            self.settled_after(before, start),
    {
        let w = before.wiring();
        assert forall|c: int|
            0 <= c < self.cables.len() && (before.cables[c].source == Some(start) || before.current(
                c,
            )) implies #[trigger] self.current(c) by {
            match before.cables[c].source {
                Some(s) => {
                    assert(!Self::waiting(Seq::empty(), None, s));
                },
                None => {
                    assert(self.cable_fits(c));
                    assert(self.cables[c].source is None);
                },
            }
        }
    }
}

} // verus!
