//! Wraps an interactive program's terminal I/O as a stream of typed frames:
//! the frame model, the output normalisation pipeline, the session's timing
//! and back-pressure decisions, the replay recording format and the
//! configuration checks.

pub mod cli;
pub mod frame;
pub mod pattern;
pub mod processor;
pub mod recorder;
pub mod session;
pub mod text;
