use logic_gates::base_gates::gate::Gate;
use logic_gates::base_gates::gate_error::GateError;
use logic_gates::base_gates::gate_type::GateType;
use logic_gates::network::Network;

fn gate(gate_type: GateType, arity: usize, width: u64) -> Gate {
    Gate::new(gate_type, arity, width).unwrap()
}

#[test]
fn new_network_is_empty() {
    let mut net = Network::new(7);
    assert_eq!(net.gate_count(), 0);
    assert_eq!(net.cable_count(), 0);
    assert_eq!(net.iteration_bound(), 7);
    net.set_iteration_bound(9);
    assert_eq!(net.iteration_bound(), 9);
    assert_eq!(net.add_gate(gate(GateType::Not, 1, 8)), 0);
    assert_eq!(net.add_gate(gate(GateType::And, 2, 8)), 1);
    assert_eq!(net.add_cable(8), 0);
    assert_eq!(net.add_cable(3), 1);
    assert_eq!(net.gate_count(), 2);
    assert_eq!(net.cable_count(), 2);
    assert_eq!(net.gate(1).gate_type(), GateType::And);
    assert_eq!(net.cable(1).bus_width(), 3);
    assert_eq!(net.get_output(0), 0xFF);
}

#[test]
fn not_gate_drives_an_and_gate() {
    let mut net = Network::new(100);
    let not = net.add_gate(gate(GateType::Not, 1, 8));
    let and = net.add_gate(gate(GateType::And, 2, 8));
    let cable = net.add_cable(8);
    net.connect_output(cable, not).unwrap();
    net.connect_input(cable, and, 0).unwrap();
    net.propagate(not).unwrap();
    assert_eq!(net.gate(and).inputs()[0], 0xFF);
    assert_eq!(net.cable(cable).value(), 0xFF);
    assert_eq!(net.get_output(and), 0);
}

#[test]
fn sink_connected_before_the_source_is_fed_by_propagation() {
    let mut net = Network::new(100);
    let not = net.add_gate(gate(GateType::Not, 1, 8));
    let and = net.add_gate(gate(GateType::And, 2, 8));
    let cable = net.add_cable(8);
    net.connect_input(cable, and, 0).unwrap();
    assert_eq!(net.gate(and).inputs()[0], 0);
    net.connect_output(cable, not).unwrap();
    assert_eq!(net.cable(cable).value(), 0xFF);
    assert_eq!(net.gate(and).inputs()[0], 0);
    net.propagate(not).unwrap();
    assert_eq!(net.gate(and).inputs()[0], 0xFF);
}

#[test]
fn one_cable_fans_out_to_two_gates() {
    let mut net = Network::new(100);
    let source = net.add_gate(gate(GateType::Not, 1, 8));
    let first = net.add_gate(gate(GateType::Or, 2, 8));
    let second = net.add_gate(gate(GateType::Xor, 2, 8));
    let cable = net.add_cable(8);
    net.connect_output(cable, source).unwrap();
    net.connect_input(cable, first, 0).unwrap();
    net.connect_input(cable, second, 1).unwrap();
    net.propagate(source).unwrap();
    assert_eq!(net.gate(first).inputs()[0], 0xFF);
    assert_eq!(net.gate(second).inputs()[1], 0xFF);
    assert_eq!(net.get_output(first), 0xFF);
    assert_eq!(net.get_output(second), 0xFF);

    net.set_inputs(source, vec![(0, 0xF0)]).unwrap();
    assert_eq!(net.get_output(source), 0x0F);
    assert_eq!(net.gate(first).inputs()[0], 0xFF);
    net.propagate(source).unwrap();
    assert_eq!(net.cable(cable).value(), 0x0F);
    assert_eq!(net.gate(first).inputs()[0], 0x0F);
    assert_eq!(net.gate(second).inputs()[1], 0x0F);
    assert_eq!(net.get_output(first), 0x0F);
    assert_eq!(net.get_output(second), 0x0F);
}

#[test]
fn feedback_through_an_input_is_refused() {
    let mut net = Network::new(100);
    let a = net.add_gate(gate(GateType::Not, 1, 8));
    let b = net.add_gate(gate(GateType::Not, 1, 8));
    let forth = net.add_cable(8);
    let back = net.add_cable(8);
    net.connect_output(forth, a).unwrap();
    net.connect_input(forth, b, 0).unwrap();
    net.connect_output(back, b).unwrap();
    assert_eq!(net.connect_input(back, a, 0), Err(GateError::FeedbackLoopDetected(a)));
    assert!(net.cable(back).sinks().is_empty());
    assert_eq!(net.gate(a).inputs()[0], 0);
    assert_eq!(net.get_output(a), 0xFF);
}

#[test]
fn feedback_through_an_output_is_refused() {
    let mut net = Network::new(100);
    let a = net.add_gate(gate(GateType::And, 2, 8));
    let b = net.add_gate(gate(GateType::Or, 2, 8));
    let forth = net.add_cable(8);
    let back = net.add_cable(8);
    net.connect_output(forth, a).unwrap();
    net.connect_input(forth, b, 0).unwrap();
    net.connect_input(back, a, 1).unwrap();
    assert_eq!(net.connect_output(back, b), Err(GateError::FeedbackLoopDetected(b)));
    assert_eq!(net.cable(back).source(), None);
    assert_eq!(net.cable(back).value(), 0);
}

#[test]
fn gate_cannot_feed_itself() {
    let mut net = Network::new(100);
    let a = net.add_gate(gate(GateType::And, 2, 8));
    let cable = net.add_cable(8);
    net.connect_output(cable, a).unwrap();
    assert_eq!(net.connect_input(cable, a, 0), Err(GateError::FeedbackLoopDetected(a)));
    let other = net.add_cable(8);
    net.connect_input(other, a, 0).unwrap();
    assert_eq!(net.connect_output(other, a), Err(GateError::FeedbackLoopDetected(a)));
}

#[test]
fn feedback_over_a_longer_way_is_refused() {
    let mut net = Network::new(100);
    let mut gates = Vec::new();
    let mut cables = Vec::new();
    for _ in 0..5 {
        gates.push(net.add_gate(gate(GateType::Not, 1, 4)));
        cables.push(net.add_cable(4));
    }
    for i in 0..4 {
        net.connect_output(cables[i], gates[i]).unwrap();
        net.connect_input(cables[i], gates[i + 1], 0).unwrap();
    }
    net.connect_output(cables[4], gates[4]).unwrap();
    assert_eq!(
        net.connect_input(cables[4], gates[0], 0),
        Err(GateError::FeedbackLoopDetected(gates[0]))
    );
    assert_eq!(
        net.connect_input(cables[4], gates[2], 0),
        Err(GateError::FeedbackLoopDetected(gates[2]))
    );
}

#[test]
fn wiring_that_closes_no_loop_is_accepted() {
    let mut net = Network::new(100);
    let a = net.add_gate(gate(GateType::Not, 1, 8));
    let b = net.add_gate(gate(GateType::And, 2, 8));
    let c = net.add_gate(gate(GateType::Or, 2, 8));
    let ab = net.add_cable(8);
    let bc = net.add_cable(8);
    net.connect_output(ab, a).unwrap();
    net.connect_input(ab, b, 0).unwrap();
    net.connect_input(ab, c, 0).unwrap();
    net.connect_output(bc, b).unwrap();
    assert_eq!(net.connect_input(bc, c, 1), Ok(()));
    assert_eq!(net.connect_input(ab, b, 1), Ok(()));
    assert_eq!(net.cable(ab).sinks(), &vec![(b, 0), (c, 0), (b, 1)]);
}

#[test]
fn network_wiring_errors_of_the_cable() {
    let mut net = Network::new(100);
    let wide = net.add_gate(gate(GateType::Not, 1, 16));
    let a = net.add_gate(gate(GateType::Not, 1, 8));
    let b = net.add_gate(gate(GateType::And, 2, 8));
    let cable = net.add_cable(8);
    assert_eq!(
        net.connect_output(cable, wide),
        Err(GateError::BusWidthMismatch { cable: 8, gate: 16 })
    );
    assert_eq!(
        net.connect_input(cable, wide, 0),
        Err(GateError::BusWidthMismatch { cable: 8, gate: 16 })
    );
    net.connect_output(cable, a).unwrap();
    assert_eq!(net.connect_output(cable, b), Err(GateError::CableAlreadyDriven(a)));
    assert_eq!(net.connect_output(cable, a), Ok(()));
    assert_eq!(
        net.connect_input(cable, b, 2),
        Err(GateError::InputIndexOutOfRange { index: 2, arity: 2 })
    );
    assert_eq!(
        net.connect_input(cable, a, 1),
        Err(GateError::InputIndexOutOfRange { index: 1, arity: 1 })
    );
    assert_eq!(net.connect_input(cable, a, 0), Err(GateError::FeedbackLoopDetected(a)));
}

#[test]
fn change_travels_down_a_chain() {
    let mut net = Network::new(100);
    let first = net.add_gate(gate(GateType::Not, 1, 4));
    let second = net.add_gate(gate(GateType::Not, 1, 4));
    let third = net.add_gate(gate(GateType::Not, 1, 4));
    let one = net.add_cable(4);
    let two = net.add_cable(4);
    net.connect_output(one, first).unwrap();
    net.connect_input(one, second, 0).unwrap();
    net.connect_output(two, second).unwrap();
    net.connect_input(two, third, 0).unwrap();
    net.propagate(first).unwrap();
    assert_eq!(net.get_output(first), 0xF);
    assert_eq!(net.get_output(second), 0x0);
    assert_eq!(net.get_output(third), 0xF);

    net.set_inputs(first, vec![(0, 0x5)]).unwrap();
    net.propagate(first).unwrap();
    assert_eq!(net.get_output(first), 0xA);
    assert_eq!(net.get_output(second), 0x5);
    assert_eq!(net.get_output(third), 0xA);
    assert_eq!(net.cable(one).value(), 0xA);
    assert_eq!(net.cable(two).value(), 0x5);
}

#[test]
fn two_ways_meet_in_one_gate() {
    let mut net = Network::new(100);
    let source = net.add_gate(gate(GateType::Not, 1, 8));
    let left = net.add_gate(gate(GateType::Not, 1, 8));
    let right = net.add_gate(gate(GateType::Not, 1, 8));
    let join = net.add_gate(gate(GateType::Xor, 2, 8));
    let from_source = net.add_cable(8);
    let from_left = net.add_cable(8);
    let from_right = net.add_cable(8);
    net.connect_output(from_source, source).unwrap();
    net.connect_input(from_source, left, 0).unwrap();
    net.connect_input(from_source, right, 0).unwrap();
    net.connect_output(from_left, left).unwrap();
    net.connect_input(from_left, join, 0).unwrap();
    net.connect_output(from_right, right).unwrap();
    net.connect_input(from_right, join, 1).unwrap();
    net.propagate(source).unwrap();
    assert_eq!(net.gate(join).inputs(), &vec![0x00, 0x00]);
    net.set_inputs(source, vec![(0, 0xFF)]).unwrap();
    net.propagate(source).unwrap();
    assert_eq!(net.get_output(left), 0xFF);
    assert_eq!(net.get_output(right), 0xFF);
    assert_eq!(net.gate(join).inputs(), &vec![0xFF, 0xFF]);
    assert_eq!(net.get_output(join), 0x00);
}

#[test]
fn propagation_from_a_settled_network_changes_nothing() {
    let mut net = Network::new(100);
    let source = net.add_gate(gate(GateType::Not, 1, 8));
    let sink = net.add_gate(gate(GateType::Or, 2, 8));
    let cable = net.add_cable(8);
    net.connect_output(cable, source).unwrap();
    net.connect_input(cable, sink, 1).unwrap();
    net.propagate(source).unwrap();
    let inputs = net.gate(sink).inputs().clone();
    let output = net.get_output(sink);
    let value = net.cable(cable).value();
    net.propagate(source).unwrap();
    net.propagate(sink).unwrap();
    assert_eq!(net.gate(sink).inputs(), &inputs);
    assert_eq!(net.get_output(sink), output);
    assert_eq!(net.cable(cable).value(), value);
    assert_eq!(inputs, vec![0, 0xFF]);
    assert_eq!(output, 0xFF);
}

#[test]
fn propagation_stops_at_the_iteration_bound() {
    let mut net = Network::new(1);
    let first = net.add_gate(gate(GateType::Not, 1, 4));
    let second = net.add_gate(gate(GateType::Not, 1, 4));
    let third = net.add_gate(gate(GateType::Not, 1, 4));
    let one = net.add_cable(4);
    let two = net.add_cable(4);
    net.connect_input(one, second, 0).unwrap();
    net.connect_input(two, third, 0).unwrap();
    net.connect_output(one, first).unwrap();
    net.connect_output(two, second).unwrap();
    assert_eq!(net.propagate(first), Err(GateError::FeedbackLoopDetected(second)));
    net.set_iteration_bound(0);
    assert_eq!(net.propagate(first), Err(GateError::FeedbackLoopDetected(first)));
    net.set_iteration_bound(3);
    assert_eq!(net.propagate(first), Ok(()));
    assert_eq!(net.get_output(second), 0x0);
    assert_eq!(net.get_output(third), 0xF);
}

#[test]
fn network_set_inputs_reports_the_gate_errors() {
    let mut net = Network::new(10);
    let g = net.add_gate(gate(GateType::And, 2, 8));
    assert_eq!(
        net.set_inputs(g, vec![(0, 1), (1, 1), (1, 2)]),
        Err(GateError::TooManyInputsGiven { arity: 2, given: 3 })
    );
    assert_eq!(
        net.set_inputs(g, vec![(3, 1)]),
        Err(GateError::InputIndexOutOfRange { index: 3, arity: 2 })
    );
    assert_eq!(net.set_inputs(g, vec![(0, 0x3C), (1, 0x0F)]), Ok(()));
    assert_eq!(net.get_output(g), 0x0C);
}

fn reference_output(gate_type: GateType, inputs: &[u64], width: u64) -> u64 {
    let mask = if width >= 64 { u64::MAX } else { (1u64 << width) - 1 };
    let folded = match gate_type {
        GateType::Not => !inputs[0],
        GateType::And => inputs.iter().fold(u64::MAX, |a, b| a & b),
        GateType::Or => inputs.iter().fold(0, |a, b| a | b),
        GateType::Xor => inputs.iter().fold(0, |a, b| a ^ b),
    };
    folded & mask
}

#[test]
fn layered_network_settles_to_what_its_inputs_give() {
    let width = 12u64;
    let mut net = Network::new(100_000);
    let mut seed: u64 = 0x2545_F491_4F6C_DD1D;
    let mut next = move || {
        seed ^= seed << 13;
        seed ^= seed >> 7;
        seed ^= seed << 17;
        seed
    };
    // Three layers of four gates; each gate of a lower layer takes each of
    // its inputs from a gate of the layer above, over a cable of its own.
    let kinds = [GateType::And, GateType::Or, GateType::Xor, GateType::Not];
    let mut layers: Vec<Vec<usize>> = Vec::new();
    for layer in 0..3 {
        let mut ids = Vec::new();
        for i in 0..4 {
            let kind = kinds[(next() % 4) as usize];
            let arity = if kind == GateType::Not { 1 } else { 2 + (i % 2) };
            let id = net.add_gate(gate(kind, arity, width));
            if layer > 0 {
                for slot in 0..arity {
                    let above: &Vec<usize> = &layers[layer - 1];
                    let source = above[(next() % 4) as usize];
                    let cable = net.add_cable(width as usize);
                    net.connect_output(cable, source).unwrap();
                    net.connect_input(cable, id, slot).unwrap();
                }
            }
            ids.push(id);
        }
        layers.push(ids);
    }
    for round in 0..5 {
        for &id in &layers[0] {
            let arity = net.gate(id).arity();
            let updates: Vec<(usize, u64)> = (0..arity).map(|slot| (slot, next())).collect();
            net.set_inputs(id, updates).unwrap();
        }
        for &id in &layers[0] {
            net.propagate(id).unwrap();
        }
        for c in 0..net.cable_count() {
            let cable = net.cable(c);
            let source = cable.source().unwrap();
            assert_eq!(cable.value(), net.get_output(source), "round {}", round);
            for &(sink, slot) in cable.sinks() {
                assert_eq!(net.gate(sink).inputs()[slot], cable.value());
            }
        }
        for g in 0..net.gate_count() {
            let it = net.gate(g);
            assert_eq!(
                it.get_output(),
                reference_output(it.gate_type(), it.inputs(), it.bus_width())
            );
        }
    }
}
