//! Interactive shell substrate for a freestanding kernel: an in-memory
//! hierarchical file store, a command dispatcher, a character console with
//! cursor tracking, and a keyboard input driver.
//!
//! The hardware edges (port I/O, the memory-mapped cell writer, interrupt
//! wiring) live outside this crate; everything here is plain logic over the
//! values those edges produce and consume.

pub mod command;
pub mod devices;
pub mod file_system;
pub mod text;
