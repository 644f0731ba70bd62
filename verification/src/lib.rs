//! An execution engine for an eight-instruction language that works on an
//! unbounded tape of bytes.
//!
//! Source text is turned into instructions by [`language::parse_bf_file`],
//! optionally shortened by [`optimizer::optimize_instructions`], and executed
//! by an [`interpreter::Interpreter`]. The interpreter performs no input or
//! output itself: it hands each byte to emit back to its caller and takes each
//! byte read as an argument.

pub mod interpreter;
pub mod language;
pub mod optimizer;
