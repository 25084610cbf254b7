//! Fixed-capacity, UTF-8-safe buffering of text bound for a line sink.
pub mod console;
pub mod laws;
pub mod text;

pub use console::{Console, ConsoleType, BUFFER_CAPACITY};
