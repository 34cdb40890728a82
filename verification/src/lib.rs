//! Structured Bitcoin Script: building scripts out of shared fragments,
//! compiling them to bytes, analysing their stack effect without running
//! them, and cutting them into size-bounded chunks.

pub mod opcodes;
pub mod encoding;
pub mod analyzer;
pub mod instruction;
pub mod builder;
pub mod walk;
pub mod sharing;
pub mod chunker;
pub mod keys;
pub mod context;

pub use crate::analyzer::StackAnalyzer;
pub use crate::builder::StructuredScript as Script;
pub use crate::chunker::Chunker;
