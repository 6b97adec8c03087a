//! Fixed-function gates over masked 64-bit buses.

pub mod gate;
pub mod gate_error;
pub mod gate_type;
pub mod signal;
