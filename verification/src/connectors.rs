//! Wires between gates.

pub mod cable;
