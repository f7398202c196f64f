//! A framework core for assembling hierarchical command-line applications
//! from independently authored handler functions.
//!
//! Handlers are registered as flat, order-independent records
//! ([`registry::Record`]); [`registry::Registry::assemble`] wires them into
//! a single immutable command tree, rejecting sibling name collisions and
//! unresolvable parent paths.  At invocation time the dispatcher
//! ([`registry::Registry::resolve`]) walks the tree along the argument
//! tokens to the matching node, and the typed context store
//! ([`context::provider::ContextProvider`]) resolves the ambient resources
//! the resolved handler declared, by type identity, before the handler
//! runs ([`context::command::InjectableCommand`]).  The composed argument
//! schema of the whole tree ([`registry::Registry::build_schema`]) renders
//! help and usage text.
//!
//! The driver around this core parses the raw command line, performs all
//! input and output, and maps each resolved executor handle to its
//! concrete command; the core itself never prints, reads, or exits — it
//! returns structured outcomes only.

pub mod casing;
pub mod cli;
pub mod context;
pub mod dispatch;
pub mod error;
pub mod input;
pub mod registry;
pub mod scaffold;
pub mod schema;
