//! Context for commands.
//!
//! This module defines the `Context` struct, which describes the environment
//! a command is executed in, together with the typed context store and the
//! machinery that resolves a handler's declared dependencies from it.

use vstd::prelude::*;

pub mod command;
pub mod parameter;
pub mod provider;

verus! {

/// The working directory in which a command was called.
///
/// The path is captured once by the driver before dispatch begins; it is not
/// updated if a command later changes into another directory.
#[derive(Clone, Debug)]
pub struct CurrentWorkingDirectory {
    path: String,
}

impl CurrentWorkingDirectory {
    /// Wraps a path captured by the driver.
    pub fn new(path: String) -> (r: Self)
        ensures
            r@ == path@,
    {
        CurrentWorkingDirectory { path }
    }

    /// The path itself.
    pub fn get(&self) -> (r: &String)
        ensures
            r@ == self@,
    {
        &self.path
    }
}

impl View for CurrentWorkingDirectory {
    type V = Seq<char>;

    closed spec fn view(&self) -> Seq<char> {
        self.path@
    }
}

/// A part of the environment the context is built from could not be
/// determined by the driver.
#[derive(Debug, PartialEq, Eq, Structural)]
pub enum EnvironmentError {
    MissingWorkingDirectory,
}

/// Context for commands.
///
/// This struct provides information about the environment commands are
/// executed in.  It is handed to each command by the runtime.
#[derive(Clone, Debug)]
pub struct Context {
    current_working_directory: CurrentWorkingDirectory,
}

impl Context {
    /// Creates a new `Context` from the parts of the environment the driver
    /// captured.  The driver hands in the working directory it observed, or
    /// `None` when it could not be determined; only in that case does the
    /// construction fail.
    pub fn try_new(current_working_directory: Option<CurrentWorkingDirectory>) -> (r: Result<
        Self,
        EnvironmentError,
    >)
        ensures
            r is Ok <==> current_working_directory is Some,
            r matches Ok(c) ==> c.cwd_spec()@ == current_working_directory.unwrap()@,
            r matches Err(e) ==> e == EnvironmentError::MissingWorkingDirectory,
    {
        match current_working_directory {
            Some(cwd) => Ok(Context { current_working_directory: cwd }),
            None => Err(EnvironmentError::MissingWorkingDirectory),
        }
    }

    /// The working directory in which the command was called.
    pub fn current_working_directory(&self) -> (r: &CurrentWorkingDirectory)
        ensures
            r == self.cwd_spec(),
    {
        &self.current_working_directory
    }

    /// The working directory, as an abstract value.
    pub closed spec fn cwd_spec(&self) -> CurrentWorkingDirectory {
        self.current_working_directory
    }
}

} // verus!
