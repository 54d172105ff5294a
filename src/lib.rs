//! An interpreter for the eight-instruction tape language: a compiler from
//! source text to grouped instructions with resolved loop targets, a
//! lazily growing tape of wrapping cells, and an execution engine that
//! hands its input and output to the caller.
pub mod text;
pub mod tape;
pub mod parser;
pub mod interpreter;
pub mod utils;
pub mod unicodes;
pub mod traceback;
