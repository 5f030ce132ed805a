//! Device drivers: the console state machine over the raw cell writer, the
//! logical cursor with its CRT register protocol, and the keyboard input
//! driver feeding the shared character queue.

pub mod console;
pub mod cursor;
pub mod keyboard;
