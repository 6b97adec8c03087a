use vstd::prelude::*;

verus! {

/// The operation a gate performs on its inputs.
#[derive(Clone, Copy, Debug, PartialEq, Eq, Hash, Structural)]
pub enum GateType {
    Not,
    And,
    Or,
    Xor,
}

impl GateType {
    /// The characters of the operation's name.
    pub open spec fn name_chars(self) -> Seq<char> {
        match self {
            GateType::Not => seq!['N', 'o', 't'],
            GateType::And => seq!['A', 'n', 'd'],
            GateType::Or => seq!['O', 'r'],
            GateType::Xor => seq!['X', 'o', 'r'],
        }
    }

    /// What the operation makes of two values. `Not` takes one value only
    /// and lets the first through.
    pub open spec fn combine(self, a: u64, b: u64) -> u64 {
        match self {
            GateType::And => a & b,
            GateType::Or => a | b,
            GateType::Xor => a ^ b,
            GateType::Not => a,
        }
    }

    /// Applies the operation to two values.
    pub fn apply(&self, a: u64, b: u64) -> (r: u64)
        ensures
            r == self.combine(a, b),
    {
        match self {
            GateType::And => a & b,
            GateType::Or => a | b,
            GateType::Xor => a ^ b,
            GateType::Not => a,
        }
    }

    /// The stable textual name of the operation.
    pub fn name(&self) -> (s: &'static str)
        ensures
            s@ == self.name_chars(),
    {
        match self {
            GateType::Not => {
                proof {
                    reveal_strlit("Not");
                }
                assert("Not"@ =~= seq!['N', 'o', 't']);
                "Not"
            },
            GateType::And => {
                proof {
                    reveal_strlit("And");
                }
                assert("And"@ =~= seq!['A', 'n', 'd']);
                "And"
            },
            GateType::Or => {
                proof {
                    reveal_strlit("Or");
                }
                assert("Or"@ =~= seq!['O', 'r']);
                "Or"
            },
            GateType::Xor => {
                proof {
                    reveal_strlit("Xor");
                }
                assert("Xor"@ =~= seq!['X', 'o', 'r']);
                "Xor"
            },
        }
    }
}

} // verus!
