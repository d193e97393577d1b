//! The requests that clients send to the daemon and its answers.

use vstd::prelude::*;

verus! {

/// A request to the daemon.
#[derive(Debug, Clone, PartialEq)]
pub enum Request {
    /// Get the next workspace in the active cycle
    Next,
    /// Toggle workspace in the active cycle
    Toggle { workspace: String },
    /// List all cycle names
    ListCycles,
    /// Select or create a cycle
    SelectCycle { name: String },
    /// Get full state for debugging
    Status,
}

/// The daemon's answer to a request.
#[allow(inconsistent_fields)]
#[derive(Debug, Clone, PartialEq)]
pub enum Response {
    /// Next workspace to switch to, or "back_and_forth" for fallback
    NextWorkspace { workspace: String },
    /// Result of toggle operation
    Toggled { action: ToggleAction },
    /// List of cycle names
    Cycles { names: Vec<String> },
    /// Result of selecting/creating a cycle
    CycleSelected { action: SelectAction },
    /// Full state dump (JSON)
    Status { json: String },
    /// Error occurred
    Error { message: String },
}

/// What a toggle did.
#[derive(Debug, Clone, Copy, PartialEq, Eq)]
pub enum ToggleAction {
    Added,
    Removed,
}

/// What selecting a cycle did.
#[derive(Debug, Clone, Copy, PartialEq, Eq)]
pub enum SelectAction {
    Selected,
    Created,
}

} // verus!
