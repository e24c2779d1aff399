//! An incremental line-tailing engine: change events for one watched file,
//! the bytes appended to it since the last read, and their reassembly into
//! complete newline-terminated lines.
pub mod event;
pub mod framer;
pub mod tail;

pub use event::{FileEvent, NativeEvent};
pub use framer::LineFramer;
pub use tail::{decode_line, Action, Phase, ReadOutcome, Tail, TailError};
