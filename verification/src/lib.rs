//! A compiler for a minimal eight-instruction language.
//!
//! The pipeline is a run-length-coalescing lexer, a bracket matcher that
//! validates loop structure, and two code-generation backends: one emits
//! flat ARM64 assembly text, the other builds a structured function of
//! basic blocks for lowering through LLVM.

pub mod common;
pub mod generators;
pub mod lexer;
