//! Executives: the engines that run admitted continuations.

pub mod ant_colony;
pub mod ant_laws;
pub mod batch;
pub mod cpu_scalar;
pub mod device_laws;
pub mod epoch_laws;
pub mod field_laws;
pub mod lane;
pub mod metal;
pub mod metal_resident_sync;
pub mod metal_scheduler;
pub mod metal_search;
pub mod native;
pub mod native_emit;
pub mod native_laws;
pub mod placement;
pub mod placement_laws;
pub mod program_laws;
pub mod readback_laws;
pub mod resident_engine;
pub mod resident_laws;
pub mod resident_model;
pub mod resident_program;
pub mod resident_sync;
pub mod resident_types;
pub mod scalar_laws;
pub mod stage_laws;
pub mod step;
pub mod step_laws;
pub mod sync_laws;
