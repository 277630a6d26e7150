//! A small query language over JSON-shaped documents: a parser from query
//! text to a syntax tree, an evaluator of that tree against one document, and
//! an executor that applies it across a stream of documents.
//!
//! Every function is verified against a contract over mathematical models:
//!
//! - [`ast`] and [`value`] hold the syntax tree and the document value, each
//!   with its model over sequences;
//! - [`grammar`] says which text denotes which tree, and [`parser`] reads
//!   text accordingly;
//! - [`semantics`] says what a tree makes of a value, and [`eval`] computes
//!   it; [`aggregate`], [`arith`] and [`render`] serve the function calls;
//! - [`stream`] says what a tree makes of a sequence of documents and runs it
//!   one document at a time;
//! - [`laws`], [`equivalence`], [`order`] and [`roundtrip`] prove what holds
//!   of all of these together.
//!
//! Numbers are integers of 64 bits or decimals with 64 bits of digits and a
//! power of ten; they are compared and added exactly.

pub mod aggregate;
pub mod args;
pub mod arith;
pub mod ast;
pub mod equivalence;
pub mod eval;
pub mod grammar;
pub mod laws;
pub mod number;
pub mod order;
pub mod parser;
pub mod render;
pub mod roundtrip;
pub mod semantics;
pub mod stream;
pub mod text;
pub mod value;

pub use crate::args::CmdArgs;
pub use crate::ast::QueryCmd;
pub use crate::eval::{apply_filter, eval};
pub use crate::number::{Decimal, Number};
pub use crate::parser::{parse, parse_cmd, parse_err, JQRParser, ParseError};
pub use crate::semantics::EvalError;
pub use crate::stream::{
    apply_cmd, apply_consecutive_filters, can_apply_consecutive, streaming_eval, StreamExecutor,
};
pub use crate::value::Value;
