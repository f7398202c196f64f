//! Error and result types for commands.
//!
//! A command executes a piece of logic that might fail.  A handler reports
//! its own failure through `CommandError`; wiring defects — a handler whose
//! declared context type was never registered — are reported separately
//! through `ContextError`, and defects in the registered command records
//! through `ConfigurationError`.

use vstd::prelude::*;

verus! {

/// A failure reported by a command handler, carrying its description.
#[derive(Debug)]
pub struct CommandError {
    pub message: String,
}

/// Result type for command handlers.
///
/// A handler either completes successfully or reports a failure with a
/// description; it does not return a value.
pub type CommandResult = Result<(), CommandError>;

/// A fatal wiring defect discovered while resolving a handler's declared
/// context dependencies: the type with the given key was never registered.
#[derive(Debug, PartialEq, Eq, Structural)]
pub enum ContextError {
    MissingContext { key: u64 },
}

/// A defect in the set of registered command records, discovered while the
/// command tree is assembled and reported before any dispatch is attempted.
#[derive(Debug)]
pub enum ConfigurationError {
    /// Two sibling records claim the same name or alias; carries the
    /// colliding identifier.
    DuplicateName { identifier: String },
    /// A record names a parent path that does not resolve to any group
    /// node; carries the unresolved path and the record's name.
    DanglingParent { parent_path: Vec<String>, name: String },
}

} // verus!
