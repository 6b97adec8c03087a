use logic_gates::base_gates::gate_error::{decimal_text, GateError};
use logic_gates::base_gates::gate_type::GateType;

#[test]
fn numbers_are_written_in_base_ten() {
    assert_eq!(decimal_text(0), "0");
    assert_eq!(decimal_text(7), "7");
    assert_eq!(decimal_text(10), "10");
    assert_eq!(decimal_text(65), "65");
    assert_eq!(decimal_text(1234567890), "1234567890");
    assert_eq!(decimal_text(u64::MAX), "18446744073709551615");
}

#[test]
fn construction_messages() {
    assert_eq!(GateError::BusTooBig(65).message(), "Invalid bus size: 65; the max is 64 bits.");
    assert_eq!(
        GateError::NotGateArityViolation(3).message(),
        "Not gate set with 3 inputs; it can only operate on 1."
    );
    assert_eq!(
        GateError::MultiInputGateArityViolation(GateType::Xor, 1).message(),
        "Xor gate set with 1 input; at least 2 are needed."
    );
    assert_eq!(
        GateError::MultiInputGateArityViolation(GateType::And, 0).message(),
        "And gate set with 0 inputs; at least 2 are needed."
    );
}

#[test]
fn input_messages() {
    assert_eq!(
        GateError::InputIndexOutOfRange { index: 4, arity: 2 }.message(),
        "Input 4 is out of range; this gate has 2 inputs."
    );
    assert_eq!(
        GateError::TooManyInputsGiven { arity: 2, given: 11 }.message(),
        "Gate has 2 inputs, but 11 were set"
    );
}

#[test]
fn wiring_messages() {
    assert_eq!(
        GateError::BusWidthMismatch { cable: 8, gate: 16 }.message(),
        "Cable is 8 bits wide, but its gate is 16 bits wide."
    );
    assert_eq!(
        GateError::CableAlreadyDriven(12).message(),
        "Cable is already driven by gate 12."
    );
    assert_eq!(
        GateError::FeedbackLoopDetected(0).message(),
        "Feedback loop detected at gate 0."
    );
}
