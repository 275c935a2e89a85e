//! The runtime linked into every compiled artifact: the grammar a `divine`
//! site carries as bytes, and the process-side state of a run.

pub mod decode;
pub mod value;
pub mod sink;
pub mod engines;
pub mod memory;
