//! The options of the command line, as plain values.

use vstd::prelude::*;

verus! {

/// koyashi — detect freeloader struct fields in a Rust workspace.
#[derive(Debug)]
pub struct Cli {
    pub command: Command,
}

#[derive(Debug)]
pub enum Command {
    /// Scan a workspace and report freeloader fields.
    Check(CheckArgs),
    /// Explain how one field is used: its definition and every reference.
    Explain(ExplainArgs),
}

/// Arguments for `koyashi check`.
#[derive(Debug)]
pub struct CheckArgs {
    /// Workspace or crate root to analyze.
    pub workspace: String,
    /// Restrict output to the given classifications.
    pub included: Vec<ClassFilter>,
    /// Exclude `#[cfg(test)]` modules from field collection.
    pub exclude_tests: bool,
    /// Restrict analysis to a single struct.
    pub struct_name: Option<String>,
    /// Output format.
    pub format: OutputFormat,
    /// Severity threshold that controls the exit code.
    pub severity: Severity,
    /// List every reference site of each finding.
    pub explain: bool,
}

/// Arguments for `koyashi explain`.
#[derive(Debug)]
pub struct ExplainArgs {
    /// Workspace or crate root to analyze.
    pub workspace: String,
    /// The field, in the form `Struct::field`.
    pub field: String,
}

/// A classification accepted by `--include`.
#[derive(Debug, Clone, Copy, PartialEq, Eq, Structural)]
pub enum ClassFilter {
    Unused,
    WriteOnly,
    ReadOnly,
    DeriveOnly,
}

/// Output format for `check`.
#[derive(Debug, Clone, Copy, PartialEq, Eq, Structural)]
pub enum OutputFormat {
    Text,
    Json,
}

/// Severity threshold for the process exit code.
#[derive(Debug, Clone, Copy, PartialEq, Eq, Structural)]
pub enum Severity {
    Info,
    Warn,
    Error,
}

} // verus!
