//! The argument types of the scaffolding command-line interface.
//!
//! These are the plain data shapes the scaffolding commands receive once
//! the command line has been parsed; the driver parses the command line
//! and hands values of these types in.

use vstd::prelude::*;

verus! {

/// The name of a crate to create.
#[derive(Debug)]
pub struct CrateName {
    name: String,
}

impl CrateName {
    /// The name itself, as an abstract value.
    pub closed spec fn name_spec(&self) -> Seq<char> {
        self.name@
    }

    /// Wraps a crate name.
    pub fn new(name: String) -> (r: Self)
        ensures
            r.name_spec() == name@,
    {
        CrateName { name }
    }

    /// The name itself.
    pub fn get(&self) -> (r: &String)
        ensures
            r@ == self.name_spec(),
    {
        &self.name
    }
}

/// The subcommands of the scaffolding interface.
#[derive(Debug)]
pub enum Commands {
    /// Create a new project with the given name.
    New { name: String },
}

/// The scaffolding interface as a whole: the chosen subcommand.
#[derive(Debug)]
pub struct App {
    pub command: Commands,
}

/// Arguments for the command group that hosts the generators.
#[derive(Debug, Default)]
pub struct GenerateArgs {}

/// Arguments for generating a new command source file.  Slash notation
/// nests the command under parent modules.
#[derive(Debug)]
pub struct GenerateCommandArgs {
    pub name: String,
}

/// Arguments for creating a new project.
#[derive(Debug)]
pub struct NewArgs {
    pub name: CrateName,
}

/// Arguments for the sample subcommand.
#[derive(Debug)]
pub struct SubcommandArgs {
    pub name: String,
}

} // verus!
