//! The code-generation backends and the bracket matcher they share.

pub mod arm64;
pub mod common;
pub mod linux_arm64;
pub mod llvm;
