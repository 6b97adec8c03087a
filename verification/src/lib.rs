//! Combinational logic on multi-bit buses: gates, the cables that join them,
//! and a network that keeps every gate's output in step with its inputs.

pub mod base_gates;
pub mod connectors;
pub mod network;
