use vstd::prelude::*;

verus! {

/// The connections of one cable: its driving gate, if any, and the
/// input slots it feeds, each a gate and a slot index.
pub struct Wire {
    pub source: Option<usize>,
    pub sinks: Seq<(usize, usize)>,
}

/// The connections of a network, cable by cable. Gate `a` feeds gate `b`
/// when some cable has `a` as its source and a sink on `b`.
pub struct Wiring {
    pub wires: Seq<Wire>,
}

impl Wiring {
    /// Cable `c` exists and has a sink at position `k`.
    pub open spec fn plugged(self, c: int, k: int) -> bool {
        0 <= c < self.wires.len() && 0 <= k < self.wires[c].sinks.len()
    }

    /// Sink `k` of cable `c` carries the output of gate `a` into gate `b`.
    pub open spec fn joins(self, c: int, k: int, a: usize, b: usize) -> bool {
        &&& self.plugged(c, k)
        &&& self.wires[c].source == Some(a)
        &&& self.wires[c].sinks[k].0 == b
    }

    /// Gate `a` feeds gate `b` through some cable.
    pub open spec fn edge(self, a: usize, b: usize) -> bool {
        exists|c: int, k: int| #[trigger] self.joins(c, k, a, b)
    }

    /// The output of gate `a` arrives at gate `b` through exactly `steps`
    /// cables in a row.
    pub open spec fn reach_in(self, a: usize, b: usize, steps: nat) -> bool
        decreases steps,
    {
        if steps == 0 {
            a == b
        } else {
            exists|m: usize| #[trigger] self.edge(m, b) && self.reach_in(a, m, (steps - 1) as nat)
        }
    }

    /// Gate `b` is gate `a` or lies downstream of it.
    pub open spec fn reaches(self, a: usize, b: usize) -> bool {
        exists|steps: nat| #[trigger] self.reach_in(a, b, steps)
    }

    /// Every cable runs downhill: a gate it feeds lies on a lower level
    /// than its driving gate.
    pub open spec fn downhill(self, levels: spec_fn(usize) -> nat) -> bool {
        forall|c: int, k: int| #[trigger]
            self.plugged(c, k) ==> match self.wires[c].source {
                Some(s) => levels(self.wires[c].sinks[k].0) < levels(s),
                None => true,
            }
    }

    /// The gates can be laid out on levels so that every cable runs
    /// downhill. No output then finds its way back to its own gate.
    pub open spec fn acyclic(self) -> bool {
        exists|levels: spec_fn(usize) -> nat| #[trigger] self.downhill(levels)
    }

    /// The number of ways in which a change at `gate` can travel on through
    /// at most `depth` cables in a row, the way that stays at `gate`
    /// included. A way is told from another by the sinks it passes.
    pub open spec fn routes(self, gate: usize, depth: nat) -> nat
        decreases depth, 2nat, 0nat,
    {
        if depth == 0 {
            1
        } else {
            1 + self.fan(gate, depth, self.wires.len())
        }
    }

    /// The share of `routes(gate, depth)` that leaves through the first
    /// `cables` cables.
    pub open spec fn fan(self, gate: usize, depth: nat, cables: nat) -> nat
        decreases depth, 1nat, cables,
    {
        if cables == 0 || depth == 0 {
            0
        } else {
            let c = cables - 1;
            self.fan(gate, depth, c as nat) + if self.wires[c].source == Some(gate) {
                self.wire_fan(c, depth, self.wires[c].sinks.len())
            } else {
                0
            }
        }
    }

    /// The share of `routes(gate, depth)` that leaves through the first
    /// `sinks` sinks of cable `c`.
    pub open spec fn wire_fan(self, c: int, depth: nat, sinks: nat) -> nat
        decreases depth, 0nat, sinks,
    {
        if sinks == 0 || depth == 0 {
            0
        } else {
            let k = sinks - 1;
            self.wire_fan(c, depth, k as nat) + self.routes(
                self.wires[c].sinks[k].0,
                (depth - 1) as nat,
            )
        }
    }

    /// The routes still to be travelled from the gates in `queue`, each gate
    /// given as much depth as its level allows.
    pub open spec fn load(self, levels: spec_fn(usize) -> nat, queue: Seq<usize>) -> nat
        decreases queue.len(),
    {
        if queue.len() == 0 {
            0
        } else {
            self.load(levels, queue.drop_last()) + self.routes(
                queue.last(),
                levels(queue.last()) + 1,
            )
        }
    }

    /// One more cable after `steps` cables makes `steps + 1`.
    pub(crate) proof fn lemma_reach_step(self, a: usize, m: usize, b: usize, steps: nat)
        requires
            self.reach_in(a, m, steps),
            self.edge(m, b),
        ensures
            self.reach_in(a, b, steps + 1),
            self.reaches(a, b),
    {
        assert(self.reach_in(a, m, ((steps + 1) - 1) as nat));
        assert(self.reach_in(a, b, steps + 1));
    }

    /// Every gate reaches itself.
    pub proof fn lemma_reaches_self(self, a: usize)
        ensures
            self.reaches(a, a),
    {
        assert(self.reach_in(a, a, 0));
    }

    /// What a gate reaches, each gate that reaches it reaches too.
    pub proof fn lemma_reaches_edge(self, a: usize, m: usize, b: usize)
        requires
            self.reaches(a, m),
            self.edge(m, b),
        ensures
            self.reaches(a, b),
    {
        let steps = choose|steps: nat| self.reach_in(a, m, steps);
        self.lemma_reach_step(a, m, b, steps);
    }

    /// Each cable on the way from `a` to `b` leads at least one level down.
    pub proof fn lemma_reach_descends(
        self,
        levels: spec_fn(usize) -> nat,
        a: usize,
        b: usize,
        steps: nat,
    )
        requires
            self.downhill(levels),
            self.reach_in(a, b, steps),
        ensures
            levels(b) + steps <= levels(a),
        decreases steps,
    {
        if steps > 0 {
            let m = choose|m: usize| #[trigger]
                self.edge(m, b) && self.reach_in(a, m, (steps - 1) as nat);
            self.lemma_reach_descends(levels, a, m, (steps - 1) as nat);
            let (c, k) = choose|c: int, k: int| #[trigger] self.joins(c, k, m, b);
            assert(self.plugged(c, k));
        }
    }

    /// In an acyclic wiring no output comes back to its own gate: a gate
    /// reaches itself in no steps only.
    pub proof fn lemma_no_feedback(self, a: usize, steps: nat)
        requires
            self.acyclic(),
            self.reach_in(a, a, steps),
        ensures
            steps == 0,
    {
        let levels = choose|levels: spec_fn(usize) -> nat| #[trigger] self.downhill(levels);
        self.lemma_reach_descends(levels, a, a, steps);
    }

    /// Whether `seen` marks gate `x`.
    pub open spec fn lit(seen: Seq<bool>, x: usize) -> bool {
        x < seen.len() && seen[x as int]
    }

    /// Whatever a marked gate feeds is marked too.
    pub open spec fn sealed(self, seen: Seq<bool>) -> bool {
        forall|c: int, k: int| #[trigger]
            self.plugged(c, k) ==> match self.wires[c].source {
                Some(s) => Self::lit(seen, s) ==> Self::lit(seen, self.wires[c].sinks[k].0),
                None => true,
            }
    }

    /// Gate `g` is one of `roots` or lies downstream of one.
    pub open spec fn reached_from(self, roots: Seq<usize>, g: usize) -> bool {
        exists|i: int| 0 <= i < roots.len() && #[trigger] self.reaches(roots[i], g)
    }

    /// What holds while the gates downstream of `roots` are searched for:
    /// every gate on the stack is marked; every marked gate is reached from
    /// a root and is done, on the stack or the one being worked on; and
    /// whatever a done gate feeds is marked.
    pub open spec fn searching(
        self,
        roots: Seq<usize>,
        seen: Seq<bool>,
        stack: Seq<usize>,
        done: Set<usize>,
        busy: Option<usize>,
    ) -> bool {
        &&& forall|i: int| 0 <= i < stack.len() ==> Self::lit(seen, #[trigger] stack[i])
        &&& forall|g: usize| #[trigger]
            Self::lit(seen, g) ==> {
                &&& self.reached_from(roots, g)
                &&& (done.contains(g) || stack.contains(g) || busy == Some(g))
            }
        &&& forall|c: int, k: int| #[trigger]
            self.plugged(c, k) ==> match self.wires[c].source {
                Some(s) => done.contains(s) ==> Self::lit(seen, self.wires[c].sinks[k].0),
                None => true,
            }
    }

    /// The number of gates that `seen` does not mark.
    pub open spec fn unseen(seen: Seq<bool>) -> nat
        decreases seen.len(),
    {
        if seen.len() == 0 {
            0
        } else {
            Self::unseen(seen.drop_last()) + if seen.last() {
                0nat
            } else {
                1nat
            }
        }
    }

    /// Marking a gate leaves one gate fewer unmarked.
    pub(crate) proof fn lemma_unseen_mark(seen: Seq<bool>, y: int)
        requires
            0 <= y < seen.len(),
            !seen[y],
        ensures
            Self::unseen(seen.update(y, true)) + 1 == Self::unseen(seen),
        decreases seen.len(),
    {
        let marked = seen.update(y, true);
        if y == seen.len() - 1 {
            assert(marked.drop_last() =~= seen.drop_last());
        } else {
            Self::lemma_unseen_mark(seen.drop_last(), y);
            assert(marked.drop_last() =~= seen.drop_last().update(y, true));
        }
    }

    /// Marking a root and putting it on the stack keeps the search in order.
    pub(crate) proof fn lemma_search_root(
        self,
        roots: Seq<usize>,
        seen: Seq<bool>,
        stack: Seq<usize>,
        r: int,
    )
        requires
            self.searching(roots, seen, stack, Set::empty(), None),
            0 <= r < roots.len(),
            roots[r] < seen.len(),
        ensures
            self.searching(
                roots,
                seen.update(roots[r] as int, true),
                stack.push(roots[r]),
                Set::empty(),
                None,
            ),
    {
        let y = roots[r];
        let marked = seen.update(y as int, true);
        let grown = stack.push(y);
        self.lemma_reaches_self(y);
        assert(self.reaches(roots[r], y));
        assert forall|g: usize| #[trigger] Self::lit(marked, g) implies {
            &&& self.reached_from(roots, g)
            &&& grown.contains(g)
        } by {
            if g == y {
                assert(grown[stack.len() as int] == y);
            } else {
                assert(Self::lit(seen, g));
                let i = choose|i: int| 0 <= i < stack.len() && stack[i] == g;
                assert(grown[i] == g);
            }
        }
        assert forall|i: int| 0 <= i < grown.len() implies Self::lit(marked, #[trigger] grown[i]) by {
            if i < stack.len() {
                assert(Self::lit(seen, stack[i]));
            }
        }
    }

    /// Taking the top off the stack to work on it keeps the search in order.
    pub(crate) proof fn lemma_search_pop(
        self,
        roots: Seq<usize>,
        seen: Seq<bool>,
        stack: Seq<usize>,
        done: Set<usize>,
    )
        requires
            self.searching(roots, seen, stack, done, None),
            stack.len() > 0,
        ensures
            self.searching(roots, seen, stack.drop_last(), done, Some(stack.last())),
            Self::lit(seen, stack.last()),
            self.reached_from(roots, stack.last()),
    {
        let rest = stack.drop_last();
        assert(Self::lit(seen, stack[stack.len() - 1]));
        assert forall|g: usize| #[trigger] Self::lit(seen, g) implies (done.contains(g)
            || rest.contains(g) || Some(stack.last()) == Some(g)) by {
            if !done.contains(g) {
                let i = choose|i: int| 0 <= i < stack.len() && stack[i] == g;
                if i < stack.len() - 1 {
                    assert(rest[i] == g);
                }
            }
        }
        assert forall|i: int| 0 <= i < rest.len() implies Self::lit(seen, #[trigger] rest[i]) by {
            assert(Self::lit(seen, stack[i]));
        }
    }

    /// Marking what gate `x` feeds, and putting it on the stack, keeps the
    /// search in order.
    pub(crate) proof fn lemma_search_mark(
        self,
        roots: Seq<usize>,
        seen: Seq<bool>,
        stack: Seq<usize>,
        done: Set<usize>,
        x: usize,
        c: int,
        k: int,
    )
        requires
            self.searching(roots, seen, stack, done, Some(x)),
            self.reached_from(roots, x),
            self.plugged(c, k),
            self.wires[c].source == Some(x),
            self.wires[c].sinks[k].0 < seen.len(),
        ensures
            self.searching(
                roots,
                seen.update(self.wires[c].sinks[k].0 as int, true),
                stack.push(self.wires[c].sinks[k].0),
                done,
                Some(x),
            ),
    {
        let y = self.wires[c].sinks[k].0;
        let marked = seen.update(y as int, true);
        let grown = stack.push(y);
        let i = choose|i: int| 0 <= i < roots.len() && #[trigger] self.reaches(roots[i], x);
        assert(self.joins(c, k, x, y));
        self.lemma_reaches_edge(roots[i], x, y);
        assert forall|g: usize| #[trigger] Self::lit(marked, g) implies {
            &&& self.reached_from(roots, g)
            &&& (done.contains(g) || grown.contains(g) || Some(x) == Some(g))
        } by {
            if g == y {
                assert(grown[stack.len() as int] == y);
            } else {
                assert(Self::lit(seen, g));
                if stack.contains(g) {
                    let j = choose|j: int| 0 <= j < stack.len() && stack[j] == g;
                    assert(grown[j] == g);
                }
            }
        }
        assert forall|j: int| 0 <= j < grown.len() implies Self::lit(marked, #[trigger] grown[j]) by {
            if j < stack.len() {
                assert(Self::lit(seen, stack[j]));
            }
        }
        assert forall|c2: int, k2: int| #[trigger] self.plugged(c2, k2) implies match self.wires[c2].source {
            Some(s) => done.contains(s) ==> Self::lit(marked, self.wires[c2].sinks[k2].0),
            None => true,
        } by {
            match self.wires[c2].source {
                Some(s) => {
                    if done.contains(s) {
                        assert(Self::lit(seen, self.wires[c2].sinks[k2].0));
                    }
                },
                None => {},
            }
        }
    }

    /// Once all that gate `x` feeds is marked, `x` is done.
    pub(crate) proof fn lemma_search_done(
        self,
        roots: Seq<usize>,
        seen: Seq<bool>,
        stack: Seq<usize>,
        done: Set<usize>,
        x: usize,
    )
        requires
            self.searching(roots, seen, stack, done, Some(x)),
            forall|c: int, k: int| #[trigger]
                self.plugged(c, k) && self.wires[c].source == Some(x) ==> Self::lit(
                    seen,
                    self.wires[c].sinks[k].0,
                ),
        ensures
            self.searching(roots, seen, stack, done.insert(x), None),
    {
        assert forall|c: int, k: int| #[trigger] self.plugged(c, k) implies match self.wires[c].source {
            Some(s) => done.insert(x).contains(s) ==> Self::lit(seen, self.wires[c].sinks[k].0),
            None => true,
        } by {}
    }

    /// When the stack is empty, the marked gates are those reached from the
    /// roots, no more and no fewer.
    pub(crate) proof fn lemma_search_over(
        self,
        roots: Seq<usize>,
        seen: Seq<bool>,
        done: Set<usize>,
    )
        requires
            self.searching(roots, seen, Seq::empty(), done, None),
            forall|i: int| 0 <= i < roots.len() ==> Self::lit(seen, #[trigger] roots[i]),
        ensures
            self.sealed(seen),
            forall|g: usize| Self::lit(seen, g) <==> self.reached_from(roots, g),
    {
        assert forall|c: int, k: int| #[trigger] self.plugged(c, k) implies match self.wires[c].source {
            Some(s) => Self::lit(seen, s) ==> Self::lit(seen, self.wires[c].sinks[k].0),
            None => true,
        } by {
            match self.wires[c].source {
                Some(s) => {
                    if Self::lit(seen, s) {
                        assert(done.contains(s));
                    }
                },
                None => {},
            }
        }
        assert forall|g: usize| self.reached_from(roots, g) implies Self::lit(seen, g) by {
            let i = choose|i: int| 0 <= i < roots.len() && #[trigger] self.reaches(roots[i], g);
            let steps = choose|steps: nat| self.reach_in(roots[i], g, steps);
            self.lemma_sealed_holds_reach(seen, roots[i], g, steps);
        }
    }

    /// A sealed marking that holds `a` holds everything that `a` reaches.
    pub(crate) proof fn lemma_sealed_holds_reach(self, seen: Seq<bool>, a: usize, b: usize, steps: nat)
        requires
            self.sealed(seen),
            Self::lit(seen, a),
            self.reach_in(a, b, steps),
        ensures
            Self::lit(seen, b),
        decreases steps,
    {
        if steps > 0 {
            let m = choose|m: usize| #[trigger]
                self.edge(m, b) && self.reach_in(a, m, (steps - 1) as nat);
            self.lemma_sealed_holds_reach(seen, a, m, (steps - 1) as nat);
            let (c, k) = choose|c: int, k: int| #[trigger] self.joins(c, k, m, b);
            assert(self.plugged(c, k));
        }
    }

    /// The highest level among the gates that `sinks` name.
    pub open spec fn summit(levels: spec_fn(usize) -> nat, sinks: Seq<(usize, usize)>) -> nat
        decreases sinks.len(),
    {
        if sinks.len() == 0 {
            0
        } else {
            let below = Self::summit(levels, sinks.drop_last());
            let last = levels(sinks.last().0);
            if last > below {
                last
            } else {
                below
            }
        }
    }

    /// No gate that `sinks` name lies above the summit.
    pub(crate) proof fn lemma_summit(levels: spec_fn(usize) -> nat, sinks: Seq<(usize, usize)>, k: int)
        requires
            0 <= k < sinks.len(),
        ensures
            levels(sinks[k].0) <= Self::summit(levels, sinks),
        decreases sinks.len(),
    {
        if k < sinks.len() - 1 {
            Self::lemma_summit(levels, sinks.drop_last(), k);
        }
    }

    /// The levels after the gates outside `seen` were raised by `lift`.
    pub open spec fn raised(levels: spec_fn(usize) -> nat, seen: Seq<bool>, lift: nat) -> spec_fn(
        usize,
    ) -> nat {
        |x: usize|
            if Self::lit(seen, x) {
                levels(x)
            } else {
                levels(x) + lift
            }
    }

    /// New connections from outside a sealed marking into it leave the
    /// wiring acyclic: raise every gate outside the marking above all that
    /// the new connections feed.
    pub(crate) proof fn lemma_raise_keeps_downhill(
        self,
        grown: Wiring,
        levels: spec_fn(usize) -> nat,
        seen: Seq<bool>,
        lift: nat,
    )
        requires
            self.downhill(levels),
            self.sealed(seen),
            forall|c: int, k: int| #[trigger]
                grown.plugged(c, k) ==> match grown.wires[c].source {
                    Some(s) => {
                        let sink = grown.wires[c].sinks[k].0;
                        ||| self.joins(c, k, s, sink)
                        ||| (!Self::lit(seen, s) && Self::lit(seen, sink) && levels(sink) < lift)
                    },
                    None => true,
                },
        ensures
            grown.downhill(Self::raised(levels, seen, lift)),
            grown.acyclic(),
    {
        let up = Self::raised(levels, seen, lift);
        assert forall|c: int, k: int| #[trigger] grown.plugged(c, k) implies match grown.wires[c].source {
            Some(s) => up(grown.wires[c].sinks[k].0) < up(s),
            None => true,
        } by {
            match grown.wires[c].source {
                Some(s) => {
                    let sink = grown.wires[c].sinks[k].0;
                    if self.joins(c, k, s, sink) {
                        assert(self.plugged(c, k));
                    }
                },
                None => {},
            }
        }
        assert(grown.downhill(up));
    }

    /// More depth never means fewer routes.
    pub proof fn lemma_routes_monotone(self, gate: usize, shallow: nat, deep: nat)
        requires
            shallow <= deep,
        ensures
            self.routes(gate, shallow) <= self.routes(gate, deep),
        decreases deep, 2nat, 0nat,
    {
        if shallow > 0 {
            self.lemma_fan_monotone(gate, shallow, deep, self.wires.len());
        }
    }

    proof fn lemma_fan_monotone(self, gate: usize, shallow: nat, deep: nat, cables: nat)
        requires
            0 < shallow <= deep,
        ensures
            self.fan(gate, shallow, cables) <= self.fan(gate, deep, cables),
        decreases deep, 1nat, cables,
    {
        if cables > 0 {
            let c = cables - 1;
            self.lemma_fan_monotone(gate, shallow, deep, c as nat);
            if self.wires[c].source == Some(gate) {
                self.lemma_wire_fan_monotone(c, shallow, deep, self.wires[c].sinks.len());
            }
        }
    }

    proof fn lemma_wire_fan_monotone(self, c: int, shallow: nat, deep: nat, sinks: nat)
        requires
            0 < shallow <= deep,
        ensures
            self.wire_fan(c, shallow, sinks) <= self.wire_fan(c, deep, sinks),
        decreases deep, 0nat, sinks,
    {
        if sinks > 0 {
            let k = sinks - 1;
            self.lemma_wire_fan_monotone(c, shallow, deep, k as nat);
            self.lemma_routes_monotone(
                self.wires[c].sinks[k].0,
                (shallow - 1) as nat,
                (deep - 1) as nat,
            );
        }
    }

    /// A gate on the lowest level feeds nothing.
    proof fn lemma_fan_ground(
        self,
        levels: spec_fn(usize) -> nat,
        gate: usize,
        depth: nat,
        cables: nat,
    )
        requires
            self.downhill(levels),
            levels(gate) == 0,
            cables <= self.wires.len(),
        ensures
            self.fan(gate, depth, cables) == 0,
        decreases cables,
    {
        if cables > 0 && depth > 0 {
            let c = cables - 1;
            self.lemma_fan_ground(levels, gate, depth, c as nat);
            if self.wires[c].source == Some(gate) {
                if self.wires[c].sinks.len() > 0 {
                    assert(self.plugged(c, 0));
                }
                assert(self.wire_fan(c, depth, 0) == 0);
            }
        }
    }

    /// No way that starts at a gate passes more cables than the level of
    /// that gate: with at least that much depth, the routes are the same.
    pub proof fn lemma_routes_flat(
        self,
        levels: spec_fn(usize) -> nat,
        gate: usize,
        one: nat,
        other: nat,
    )
        requires
            self.downhill(levels),
            one >= levels(gate),
            other >= levels(gate),
        ensures
            self.routes(gate, one) == self.routes(gate, other),
        decreases levels(gate), 2nat, 0nat,
    {
        if levels(gate) == 0 {
            self.lemma_fan_ground(levels, gate, one, self.wires.len());
            self.lemma_fan_ground(levels, gate, other, self.wires.len());
        } else {
            self.lemma_fan_flat(levels, gate, one, other, self.wires.len());
        }
    }

    proof fn lemma_fan_flat(
        self,
        levels: spec_fn(usize) -> nat,
        gate: usize,
        one: nat,
        other: nat,
        cables: nat,
    )
        requires
            self.downhill(levels),
            levels(gate) >= 1,
            one >= levels(gate),
            other >= levels(gate),
            cables <= self.wires.len(),
        ensures
            self.fan(gate, one, cables) == self.fan(gate, other, cables),
        decreases levels(gate), 1nat, cables,
    {
        if cables > 0 {
            let c = cables - 1;
            self.lemma_fan_flat(levels, gate, one, other, c as nat);
            if self.wires[c].source == Some(gate) {
                self.lemma_wire_fan_flat(levels, gate, c, one, other, self.wires[c].sinks.len());
            }
        }
    }

    proof fn lemma_wire_fan_flat(
        self,
        levels: spec_fn(usize) -> nat,
        gate: usize,
        c: int,
        one: nat,
        other: nat,
        sinks: nat,
    )
        requires
            self.downhill(levels),
            0 <= c < self.wires.len(),
            self.wires[c].source == Some(gate),
            levels(gate) >= 1,
            one >= levels(gate),
            other >= levels(gate),
            sinks <= self.wires[c].sinks.len(),
        ensures
            self.wire_fan(c, one, sinks) == self.wire_fan(c, other, sinks),
        decreases levels(gate), 0nat, sinks,
    {
        if sinks > 0 {
            let k = sinks - 1;
            self.lemma_wire_fan_flat(levels, gate, c, one, other, k as nat);
            assert(self.plugged(c, k));
            self.lemma_routes_flat(
                levels,
                self.wires[c].sinks[k].0,
                (one - 1) as nat,
                (other - 1) as nat,
            );
        }
    }

    /// The routes through the first `k + 1` sinks of a cable are those
    /// through the first `k` and those that go on from sink `k`.
    pub(crate) proof fn lemma_wire_fan_next(self, c: int, depth: nat, k: nat)
        requires
            depth > 0,
        ensures
            self.wire_fan(c, depth, k + 1) == self.wire_fan(c, depth, k) + self.routes(
                self.wires[c].sinks[k as int].0,
                (depth - 1) as nat,
            ),
    {
    }

    /// The routes through the first `c + 1` cables are those through the
    /// first `c` and, if `gate` drives cable `c`, those through it.
    pub(crate) proof fn lemma_fan_next(self, gate: usize, depth: nat, c: nat)
        requires
            depth > 0,
        ensures
            self.fan(gate, depth, c + 1) == self.fan(gate, depth, c) + if self.wires[c as int].source
                == Some(gate) {
                self.wire_fan(c as int, depth, self.wires[c as int].sinks.len())
            } else {
                0
            },
    {
    }

    /// Putting a gate at the end of a queue puts its routes on the load.
    pub(crate) proof fn lemma_load_push(self, levels: spec_fn(usize) -> nat, queue: Seq<usize>, y: usize)
        ensures
            self.load(levels, queue.push(y)) == self.load(levels, queue) + self.routes(
                y,
                levels(y) + 1,
            ),
    {
        assert(queue.push(y).drop_last() =~= queue);
    }

    /// Taking the first gate off a queue takes its routes off the load.
    pub(crate) proof fn lemma_load_front(self, levels: spec_fn(usize) -> nat, queue: Seq<usize>)
        requires
            queue.len() > 0,
        ensures
            self.load(levels, queue) == self.routes(queue[0], levels(queue[0]) + 1) + self.load(
                levels,
                queue.subrange(1, queue.len() as int),
            ),
        decreases queue.len(),
    {
        let rest = queue.subrange(1, queue.len() as int);
        if queue.len() == 1 {
            assert(queue.drop_last() =~= Seq::<usize>::empty());
            assert(rest =~= Seq::<usize>::empty());
        } else {
            self.lemma_load_front(levels, queue.drop_last());
            assert(queue.drop_last().subrange(1, queue.len() - 1) =~= rest.drop_last());
            assert(rest.last() == queue.last());
            assert(queue.drop_last()[0] == queue[0]);
        }
    }
}

} // verus!
