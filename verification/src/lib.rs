//! koyashi: detection of freeloader struct fields, as a verified library.
//!
//! The library holds the analysis pipeline: the data model, the classification
//! of a field from its reference counts, the syntactic role of every field
//! access, the textual report, the configuration's suppressions, the file URI
//! coding used with the language server and the message framing it speaks.

pub mod order;
pub mod text;
pub mod model;
pub mod analysis;
pub mod config;
pub mod cli;
pub mod report;
pub mod commands;
pub mod rust_analyzer;
pub mod source;
pub mod workspace;
pub mod lsp;
