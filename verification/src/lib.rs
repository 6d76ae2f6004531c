//! Deterministic executives for a resident continuation runtime, with their
//! contracts proved by Verus.

pub mod bytes;
pub mod compiler;
pub mod device;
pub mod discovery;
pub mod executives;
pub mod experiments;
pub mod kernel;
pub mod layout_laws;
pub mod ordered;
pub mod samples;
pub mod scheduler;
pub mod text;
