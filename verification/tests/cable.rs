use logic_gates::base_gates::gate::Gate;
use logic_gates::base_gates::gate_error::GateError;
use logic_gates::base_gates::gate_type::GateType;
use logic_gates::connectors::cable::Cable;

#[test]
fn connect_gate() {
    let mut g_in = Gate::new(GateType::Or, 2, 1).unwrap();
    let mut g_out = Gate::new(GateType::Xor, 3, 1).unwrap();
    g_out.set_inputs(vec![(0, 1)]).unwrap();
    let mut ca = Cable::new(1);
    ca.connect_output(0, &g_out).unwrap();
    assert_eq!(g_in.get_output(), 0);
    ca.connect_input(1, &mut g_in, 0).unwrap();
    assert_eq!(g_in.get_output(), 1);
}

#[test]
fn connect_not_gate() {
    let g_out = Gate::new(GateType::Not, 1, 4).unwrap();
    let mut g_in = Gate::new(GateType::Or, 2, 4).unwrap();
    let mut cable = Cable::new(4);
    cable.connect_output(0, &g_out).unwrap();
    cable.connect_input(1, &mut g_in, 0).unwrap();
    assert_eq!(g_in.get_output(), 0xF);
}

#[test]
fn new_cable_is_empty() {
    let cable = Cable::new(12);
    assert_eq!(cable.bus_width(), 12);
    assert_eq!(cable.source(), None);
    assert!(cable.sinks().is_empty());
    assert_eq!(cable.value(), 0);
}

#[test]
fn cable_without_source_feeds_zero() {
    let mut g = Gate::new(GateType::Or, 2, 8).unwrap();
    g.set_inputs(vec![(0, 0x11), (1, 0x22)]).unwrap();
    let mut cable = Cable::new(8);
    cable.connect_input(3, &mut g, 1).unwrap();
    assert_eq!(g.inputs(), &vec![0x11, 0]);
    assert_eq!(g.get_output(), 0x11);
    assert_eq!(cable.sinks(), &vec![(3, 1)]);
}

#[test]
fn output_of_another_width_is_refused() {
    let g = Gate::new(GateType::Not, 1, 8).unwrap();
    let mut cable = Cable::new(4);
    assert_eq!(cable.check_output(0, &g), Err(GateError::BusWidthMismatch { cable: 4, gate: 8 }));
    assert_eq!(cable.connect_output(0, &g), Err(GateError::BusWidthMismatch { cable: 4, gate: 8 }));
    assert_eq!(cable.source(), None);
    assert_eq!(cable.value(), 0);
}

#[test]
fn second_source_is_refused_and_the_same_source_is_accepted() {
    let first = Gate::new(GateType::Not, 1, 8).unwrap();
    let second = Gate::new(GateType::And, 2, 8).unwrap();
    let mut cable = Cable::new(8);
    cable.connect_output(4, &first).unwrap();
    assert_eq!(cable.source(), Some(4));
    assert_eq!(cable.value(), 0xFF);
    assert_eq!(cable.connect_output(5, &second), Err(GateError::CableAlreadyDriven(4)));
    assert_eq!(cable.source(), Some(4));
    assert_eq!(cable.value(), 0xFF);
    assert_eq!(cable.connect_output(4, &first), Ok(()));
    assert_eq!(cable.source(), Some(4));
    assert_eq!(cable.value(), 0xFF);
}

#[test]
fn width_mismatch_comes_before_the_driver() {
    let first = Gate::new(GateType::Not, 1, 8).unwrap();
    let narrow = Gate::new(GateType::Not, 1, 2).unwrap();
    let mut cable = Cable::new(8);
    cable.connect_output(4, &first).unwrap();
    assert_eq!(
        cable.connect_output(5, &narrow),
        Err(GateError::BusWidthMismatch { cable: 8, gate: 2 })
    );
}

#[test]
fn input_of_another_width_is_refused() {
    let mut g = Gate::new(GateType::And, 2, 16).unwrap();
    let mut cable = Cable::new(8);
    assert_eq!(
        cable.connect_input(0, &mut g, 0),
        Err(GateError::BusWidthMismatch { cable: 8, gate: 16 })
    );
    assert!(cable.sinks().is_empty());
    assert_eq!(g.inputs(), &vec![0, 0]);
}

#[test]
fn input_slot_out_of_range_is_refused() {
    let source = Gate::new(GateType::Not, 1, 8).unwrap();
    let mut g = Gate::new(GateType::And, 2, 8).unwrap();
    let mut cable = Cable::new(8);
    cable.connect_output(0, &source).unwrap();
    assert_eq!(
        cable.check_input(&g, 2),
        Err(GateError::InputIndexOutOfRange { index: 2, arity: 2 })
    );
    assert_eq!(
        cable.connect_input(1, &mut g, 2),
        Err(GateError::InputIndexOutOfRange { index: 2, arity: 2 })
    );
    assert!(cable.sinks().is_empty());
    assert_eq!(g.inputs(), &vec![0, 0]);
    assert_eq!(g.get_output(), 0);
}

#[test]
fn connecting_a_sink_twice_records_it_once() {
    let source = Gate::new(GateType::Not, 1, 8).unwrap();
    let mut g = Gate::new(GateType::And, 2, 8).unwrap();
    let mut cable = Cable::new(8);
    cable.connect_output(0, &source).unwrap();
    cable.connect_input(1, &mut g, 0).unwrap();
    cable.connect_input(1, &mut g, 1).unwrap();
    cable.connect_input(1, &mut g, 0).unwrap();
    assert_eq!(cable.sinks(), &vec![(1, 0), (1, 1)]);
    assert_eq!(g.inputs(), &vec![0xFF, 0xFF]);
    assert_eq!(g.get_output(), 0xFF);
}

#[test]
fn one_cable_feeds_slots_of_several_gates() {
    let source = Gate::new(GateType::Not, 1, 8).unwrap();
    let mut first = Gate::new(GateType::And, 2, 8).unwrap();
    let mut second = Gate::new(GateType::Xor, 3, 8).unwrap();
    let mut cable = Cable::new(8);
    cable.connect_output(0, &source).unwrap();
    cable.connect_input(1, &mut first, 1).unwrap();
    cable.connect_input(2, &mut second, 2).unwrap();
    assert_eq!(cable.sinks(), &vec![(1, 1), (2, 2)]);
    assert_eq!(first.inputs(), &vec![0, 0xFF]);
    assert_eq!(second.inputs(), &vec![0, 0, 0xFF]);
    assert_eq!(first.get_output(), 0);
    assert_eq!(second.get_output(), 0xFF);
}
