//! The simulation engine: data model, resource pools, and the per-cycle
//! issue / execute / write-back pipeline.

pub mod instruction;
pub mod laws;
pub mod load_store;
pub mod model;
pub mod register;
pub mod register_result_status;
pub mod reservation_station;
pub mod tag;
pub mod tomasulo;
pub mod types;
