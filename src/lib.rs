//! A just-in-time compiler for the Whitespace language: a parser from
//! whitespace source to instructions, an x86-64 code emitter, a label
//! linker, executable memory pages and the runtime context that the
//! generated code calls into.

pub mod label;
pub mod command;
pub mod parser;
pub mod serialize;
pub mod emit;
pub mod link;
pub mod context;
pub mod execute;
pub mod jit;
