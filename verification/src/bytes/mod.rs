//! Byte cursors, spans and the output buffer.
pub mod laws;
pub mod le;
pub mod reader;
pub mod span;
pub mod writer;

pub use reader::Reader;
pub use span::Span;
pub use writer::{Patch, Writer};
