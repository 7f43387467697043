//! A host-side bridge that lets separately sandboxed guest instances pass
//! byte buffers to one another through ticketed FIFO queues, and that places
//! returned payloads into a guest's linear memory with a per-instance growth
//! cache.

pub mod error;
pub mod paging;
pub mod state;
pub mod write_back;
pub mod memory;
pub mod transfer;
pub mod laws;
pub mod person;
