//! Verified core of the VZGLYD kernel: audio and slide-library records, the
//! secrets store, and the trace recorder's event log.

pub mod audio;
pub mod management;
pub mod string_map;
pub mod text_order;
pub mod trace;
