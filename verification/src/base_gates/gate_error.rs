use vstd::prelude::*;
use vstd::string::StringExecFns;
use crate::base_gates::gate_type::GateType;

verus! {

/// Why a gate could not be built, fed or wired.
#[derive(Clone, Copy, Debug, PartialEq, Eq, Structural)]
pub enum GateError {
    /// A bus of this width was asked for; the widest is 64 bits.
    BusTooBig(u64),
    /// A `Not` gate was asked for with this many inputs; it takes exactly one.
    NotGateArityViolation(usize),
    /// A gate of this type was asked for with this many inputs; it needs at
    /// least two.
    MultiInputGateArityViolation(GateType, usize),
    /// An input slot was named that is not among the slots of its gate.
    InputIndexOutOfRange { index: usize, arity: usize },
    /// More updates were given in one call than there are input slots.
    TooManyInputsGiven { arity: usize, given: usize },
    /// A cable and a gate of different bus widths were to be joined.
    BusWidthMismatch { cable: usize, gate: u64 },
    /// The cable already carries the output of this other gate.
    CableAlreadyDriven(usize),
    /// A feedback loop shows at this gate: a connection would lead its
    /// output back into its own inputs, or a propagation came to evaluate it
    /// beyond the iteration bound.
    FeedbackLoopDetected(usize),
}

/// The character that stands for a digit.
pub open spec fn digit_char(d: nat) -> char {
    if d == 0 {
        '0'
    } else if d == 1 {
        '1'
    } else if d == 2 {
        '2'
    } else if d == 3 {
        '3'
    } else if d == 4 {
        '4'
    } else if d == 5 {
        '5'
    } else if d == 6 {
        '6'
    } else if d == 7 {
        '7'
    } else if d == 8 {
        '8'
    } else {
        '9'
    }
}

/// The digits of a number in base ten, the most significant first.
pub open spec fn decimal(n: nat) -> Seq<char>
    decreases n,
{
    if n < 10 {
        seq![digit_char(n)]
    } else {
        decimal(n / 10).push(digit_char(n % 10))
    }
}

/// The text of a single digit.
fn digit_text(d: u64) -> (s: &'static str)
    requires
        d < 10,
    ensures
        s@ == seq![digit_char(d as nat)],
{
    proof {
        reveal_strlit("0");
        reveal_strlit("1");
        reveal_strlit("2");
        reveal_strlit("3");
        reveal_strlit("4");
        reveal_strlit("5");
        reveal_strlit("6");
        reveal_strlit("7");
        reveal_strlit("8");
        reveal_strlit("9");
    }
    let s = if d == 0 {
        "0"
    } else if d == 1 {
        "1"
    } else if d == 2 {
        "2"
    } else if d == 3 {
        "3"
    } else if d == 4 {
        "4"
    } else if d == 5 {
        "5"
    } else if d == 6 {
        "6"
    } else if d == 7 {
        "7"
    } else if d == 8 {
        "8"
    } else {
        "9"
    };
    assert(s@ =~= seq![digit_char(d as nat)]);
    s
}

/// Writes a number in base ten.
pub fn decimal_text(n: u64) -> (s: String)
    ensures
        s@ == decimal(n as nat),
    decreases n,
{
    if n < 10 {
        String::from_str(digit_text(n))
    } else {
        let head = decimal_text(n / 10);
        let s = head.concat(digit_text(n % 10));
        assert(s@ =~= decimal((n / 10) as nat).push(digit_char((n % 10) as nat)));
        s
    }
}

impl GateError {
    /// The characters of the message that tells a person what went wrong.
    pub open spec fn message_chars(self) -> Seq<char> {
        match self {
            GateError::BusTooBig(size) => "Invalid bus size: "@ + decimal(size as nat)
                + "; the max is 64 bits."@,
            GateError::NotGateArityViolation(given) => "Not gate set with "@ + decimal(given as nat)
                + " inputs; it can only operate on 1."@,
            GateError::MultiInputGateArityViolation(gate_type, given) => gate_type.name_chars()
                + " gate set with "@ + decimal(given as nat) + if given == 1 {
                " input"@
            } else {
                " inputs"@
            } + "; at least 2 are needed."@,
            GateError::InputIndexOutOfRange { index, arity } => "Input "@ + decimal(index as nat)
                + " is out of range; this gate has "@ + decimal(arity as nat) + " inputs."@,
            GateError::TooManyInputsGiven { arity, given } => "Gate has "@ + decimal(arity as nat)
                + " inputs, but "@ + decimal(given as nat) + " were set"@,
            GateError::BusWidthMismatch { cable, gate } => "Cable is "@ + decimal(cable as nat)
                + " bits wide, but its gate is "@ + decimal(gate as nat) + " bits wide."@,
            GateError::CableAlreadyDriven(driver) => "Cable is already driven by gate "@ + decimal(
                driver as nat,
            ) + "."@,
            GateError::FeedbackLoopDetected(gate) => "Feedback loop detected at gate "@ + decimal(
                gate as nat,
            ) + "."@,
        }
    }

    /// The message that tells a person what went wrong.
    pub fn message(&self) -> (s: String)
        ensures
            s@ == self.message_chars(),
    {
        match self {
            GateError::BusTooBig(size) => {
                let mut s = String::from_str("Invalid bus size: ");
                s.append(decimal_text(*size).as_str());
                s.append("; the max is 64 bits.");
                s
            },
            GateError::NotGateArityViolation(given) => {
                let mut s = String::from_str("Not gate set with ");
                s.append(decimal_text(*given as u64).as_str());
                s.append(" inputs; it can only operate on 1.");
                s
            },
            GateError::MultiInputGateArityViolation(gate_type, given) => {
                let mut s = String::from_str(gate_type.name());
                s.append(" gate set with ");
                s.append(decimal_text(*given as u64).as_str());
                s.append(if *given == 1 {
                    " input"
                } else {
                    " inputs"
                });
                s.append("; at least 2 are needed.");
                s
            },
            GateError::InputIndexOutOfRange { index, arity } => {
                let mut s = String::from_str("Input ");
                s.append(decimal_text(*index as u64).as_str());
                s.append(" is out of range; this gate has ");
                s.append(decimal_text(*arity as u64).as_str());
                s.append(" inputs.");
                s
            },
            GateError::TooManyInputsGiven { arity, given } => {
                let mut s = String::from_str("Gate has ");
                s.append(decimal_text(*arity as u64).as_str());
                s.append(" inputs, but ");
                s.append(decimal_text(*given as u64).as_str());
                s.append(" were set");
                s
            },
            GateError::BusWidthMismatch { cable, gate } => {
                let mut s = String::from_str("Cable is ");
                s.append(decimal_text(*cable as u64).as_str());
                s.append(" bits wide, but its gate is ");
                s.append(decimal_text(*gate).as_str());
                s.append(" bits wide.");
                s
            },
            GateError::CableAlreadyDriven(driver) => {
                let mut s = String::from_str("Cable is already driven by gate ");
                s.append(decimal_text(*driver as u64).as_str());
                s.append(".");
                s
            },
            GateError::FeedbackLoopDetected(gate) => {
                let mut s = String::from_str("Feedback loop detected at gate ");
                s.append(decimal_text(*gate as u64).as_str());
                s.append(".");
                s
            },
        }
    }
}

} // verus!
