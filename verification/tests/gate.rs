use logic_gates::base_gates::gate::Gate;
use logic_gates::base_gates::gate_error::GateError;
use logic_gates::base_gates::gate_type::GateType;
use logic_gates::base_gates::signal::bus_mask;

fn expected_mask(width: u64) -> u64 {
    if width >= 64 {
        u64::MAX
    } else {
        (1u64 << width) - 1
    }
}

#[test]
fn new_gate() {
    let g = Gate::new(GateType::And, 2, 8).unwrap();
    assert_eq!(g.gate_type(), GateType::And);
    assert_eq!(g.arity(), 2);
    assert_eq!(g.bus_mask(), 255);
    assert_eq!(g.inputs().len(), g.arity());
    for input in g.inputs().iter() {
        assert_eq!(input, &0);
    }
}

#[test]
fn new_not_gate() {
    let g = Gate::new(GateType::Not, 1, 4).unwrap();
    assert_eq!(g.get_output(), 15);
}

#[test]
fn fresh_not_gate_puts_out_the_mask_for_every_width() {
    for width in 0..=64u64 {
        let g = Gate::new(GateType::Not, 1, width).unwrap();
        assert_eq!(g.get_output(), expected_mask(width));
        assert_eq!(g.bus_width(), width);
    }
}

#[test]
fn fresh_multi_input_gates_put_out_zero() {
    for gate_type in [GateType::And, GateType::Or, GateType::Xor] {
        for arity in 2..6usize {
            let g = Gate::new(gate_type, arity, 13).unwrap();
            assert_eq!(g.get_output(), 0);
            assert_eq!(g.arity(), arity);
            assert_eq!(g.inputs(), &vec![0u64; arity]);
        }
    }
}

#[test]
fn bus_mask_values() {
    assert_eq!(bus_mask(0), 0);
    assert_eq!(bus_mask(1), 1);
    assert_eq!(bus_mask(8), 0xFF);
    assert_eq!(bus_mask(16), 0xFFFF);
    assert_eq!(bus_mask(63), 0x7FFF_FFFF_FFFF_FFFF);
    assert_eq!(bus_mask(64), 0xFFFF_FFFF_FFFF_FFFF);
}

#[test]
fn full_width_not_gate() {
    let mut g = Gate::new(GateType::Not, 1, 64).unwrap();
    assert_eq!(g.get_output(), u64::MAX);
    g.set_inputs(vec![(0, 0x0123_4567_89AB_CDEF)]).unwrap();
    assert_eq!(g.get_output(), 0xFEDC_BA98_7654_3210);
}

#[test]
fn multi_input_gate_with_too_few_inputs_is_refused() {
    for gate_type in [GateType::And, GateType::Or, GateType::Xor] {
        for arity in 0..2usize {
            for width in [0u64, 1, 8, 64] {
                assert_eq!(
                    Gate::new(gate_type, arity, width).err(),
                    Some(GateError::MultiInputGateArityViolation(gate_type, arity))
                );
            }
        }
    }
}

#[test]
fn not_gate_with_another_arity_than_one_is_refused() {
    for arity in [0usize, 2, 3, 17] {
        assert_eq!(
            Gate::new(GateType::Not, arity, 8).err(),
            Some(GateError::NotGateArityViolation(arity))
        );
    }
}

#[test]
fn bus_of_65_bits_is_refused_whatever_else_is_asked() {
    for gate_type in [GateType::Not, GateType::And, GateType::Or, GateType::Xor] {
        for arity in 0..4usize {
            assert_eq!(Gate::new(gate_type, arity, 65).err(), Some(GateError::BusTooBig(65)));
        }
    }
    assert_eq!(Gate::new(GateType::And, 2, u64::MAX).err(), Some(GateError::BusTooBig(u64::MAX)));
}

#[test]
fn and_gate_on_a_16_bit_bus() {
    let mut g = Gate::new(GateType::And, 2, 16).unwrap();
    g.set_inputs(vec![(0, 0xFF33), (1, 0x33B3)]).unwrap();
    assert_eq!(g.get_output(), 0x3333);
}

#[test]
fn or_and_xor_fold_over_three_inputs() {
    let mut or = Gate::new(GateType::Or, 3, 8).unwrap();
    or.set_inputs(vec![(0, 0x01), (1, 0x10), (2, 0x84)]).unwrap();
    assert_eq!(or.get_output(), 0x95);
    let mut xor = Gate::new(GateType::Xor, 3, 8).unwrap();
    xor.set_inputs(vec![(0, 0xFF), (1, 0x0F), (2, 0x3C)]).unwrap();
    assert_eq!(xor.get_output(), 0xCC);
    let mut and = Gate::new(GateType::And, 3, 8).unwrap();
    and.set_inputs(vec![(0, 0xFE), (1, 0x7F), (2, 0x3C)]).unwrap();
    assert_eq!(and.get_output(), 0x3C);
}

#[test]
fn not_gate_complements_under_the_mask() {
    let mut g = Gate::new(GateType::Not, 1, 8).unwrap();
    g.set_inputs(vec![(0, 0x0F)]).unwrap();
    assert_eq!(g.get_output(), 0xF0);
    g.set_inputs(vec![(0, 0xFF)]).unwrap();
    assert_eq!(g.get_output(), 0x00);
}

#[test]
fn updates_are_partial_and_the_last_one_wins() {
    let mut g = Gate::new(GateType::Or, 3, 8).unwrap();
    g.set_inputs(vec![(1, 0x02)]).unwrap();
    assert_eq!(g.inputs(), &vec![0, 0x02, 0]);
    assert_eq!(g.get_output(), 0x02);
    g.set_inputs(vec![(2, 0x40), (2, 0x80)]).unwrap();
    assert_eq!(g.inputs(), &vec![0, 0x02, 0x80]);
    assert_eq!(g.get_output(), 0x82);
    g.set_inputs(vec![]).unwrap();
    assert_eq!(g.inputs(), &vec![0, 0x02, 0x80]);
    assert_eq!(g.get_output(), 0x82);
}

#[test]
fn inputs_are_cut_to_the_bus() {
    let mut g = Gate::new(GateType::Or, 2, 4).unwrap();
    g.set_inputs(vec![(0, 0x1F3)]).unwrap();
    assert_eq!(g.inputs(), &vec![0x3, 0]);
    assert_eq!(g.get_output(), 0x3);
}

#[test]
fn too_many_updates_are_refused_and_nothing_changes() {
    let mut g = Gate::new(GateType::And, 2, 8).unwrap();
    g.set_inputs(vec![(0, 7), (1, 5)]).unwrap();
    assert_eq!(
        g.set_inputs(vec![(0, 1), (1, 1), (0, 2)]),
        Err(GateError::TooManyInputsGiven { arity: 2, given: 3 })
    );
    assert_eq!(g.inputs(), &vec![7, 5]);
    assert_eq!(g.get_output(), 5);
}

#[test]
fn stray_slot_is_refused_and_nothing_changes() {
    let mut g = Gate::new(GateType::And, 2, 8).unwrap();
    g.set_inputs(vec![(0, 7), (1, 5)]).unwrap();
    assert_eq!(
        g.set_inputs(vec![(0, 1), (2, 9)]),
        Err(GateError::InputIndexOutOfRange { index: 2, arity: 2 })
    );
    assert_eq!(g.inputs(), &vec![7, 5]);
    assert_eq!(g.get_output(), 5);
    assert_eq!(
        g.set_inputs(vec![(9, 1), (4, 9)]),
        Err(GateError::InputIndexOutOfRange { index: 9, arity: 2 })
    );
}

#[test]
fn too_many_updates_come_before_a_stray_slot() {
    let mut g = Gate::new(GateType::Not, 1, 8).unwrap();
    assert_eq!(
        g.set_inputs(vec![(5, 1), (6, 1)]),
        Err(GateError::TooManyInputsGiven { arity: 1, given: 2 })
    );
}

#[test]
fn setting_the_same_inputs_twice_is_as_once() {
    let mut once = Gate::new(GateType::Xor, 3, 12).unwrap();
    let mut twice = Gate::new(GateType::Xor, 3, 12).unwrap();
    let updates = vec![(0usize, 0xABCu64), (2, 0x123), (0, 0xFFFF)];
    once.set_inputs(updates.clone()).unwrap();
    twice.set_inputs(updates.clone()).unwrap();
    twice.set_inputs(updates).unwrap();
    assert_eq!(once.inputs(), twice.inputs());
    assert_eq!(once.get_output(), twice.get_output());
    assert_eq!(once.get_output(), 0xFFF ^ 0x123);
}

#[test]
fn no_output_has_a_bit_above_the_bus() {
    let values = [0u64, 1, 0xFF, 0xFFFF_FFFF, u64::MAX, 0x8000_0000_0000_0001];
    for gate_type in [GateType::And, GateType::Or, GateType::Xor] {
        for width in [0u64, 1, 7, 8, 31, 63, 64] {
            for a in values {
                for b in values {
                    let mut g = Gate::new(gate_type, 2, width).unwrap();
                    g.set_inputs(vec![(0, a), (1, b)]).unwrap();
                    let out = g.get_output();
                    assert_eq!(out, out & expected_mask(width));
                }
            }
        }
    }
    for width in [0u64, 1, 7, 8, 31, 63, 64] {
        for a in values {
            let mut g = Gate::new(GateType::Not, 1, width).unwrap();
            g.set_inputs(vec![(0, a)]).unwrap();
            let out = g.get_output();
            assert_eq!(out, out & expected_mask(width));
            assert_eq!(out, !a & expected_mask(width));
        }
    }
}

#[test]
fn gate_type_names() {
    assert_eq!(GateType::Not.name(), "Not");
    assert_eq!(GateType::And.name(), "And");
    assert_eq!(GateType::Or.name(), "Or");
    assert_eq!(GateType::Xor.name(), "Xor");
}
