//! The evaluator language and the layouts that compiled code agrees on.

pub mod body;
pub mod body_laws;
pub mod frame;
pub mod run_classes;
pub mod state_machine_lowering;
