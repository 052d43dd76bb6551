//! A cycle-stepped simulator for dynamic out-of-order instruction scheduling
//! (Tomasulo's algorithm) over a small floating-point instruction subset.
//!
//! The engine models register renaming through a register-result table,
//! resolves data hazards with pending-producer tags, and broadcasts finished
//! results to every waiting consumer.  Floating-point payloads travel through
//! the engine as raw 64-bit words; the arithmetic itself is delegated to an
//! [`FpUnit`](simulator::tomasulo::FpUnit) supplied by the caller, so that the
//! scheduling logic stays independent of the number representation.

pub mod simulator;
pub mod utils;
