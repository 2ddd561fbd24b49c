//! The arguments of the command line, as plain values.
use vstd::prelude::*;

verus! {

/// A path of the file system, as `std::path::PathBuf` holds it. Nothing in
/// this library looks inside one: it is carried from the command line to
/// where the tree is walked.
#[verifier::external_type_specification]
#[verifier::external_body]
pub struct ExPathBuf(std::path::PathBuf);

/// Send a file or directory between two machines.
#[derive(Debug)]
pub struct Args {
    pub command: Commands,
}

/// What is asked for.
#[derive(Debug)]
pub enum Commands {
    /// Provide a file or directory.
    Provide(ProvideArgs),
    /// Get a file or directory.
    Get(GetArgs),
}

/// The arguments of `provide`.
#[derive(Debug)]
pub struct ProvideArgs {
    /// Path to the file or directory to provide. Its last component names
    /// what is shared.
    pub path: std::path::PathBuf,
    /// The port to listen on; 0 stands for any free port.
    pub magic_port: u16,
}

/// The arguments of `get`.
#[derive(Debug)]
pub struct GetArgs {
    /// The ticket that leads to the provider, in its text form.
    pub ticket: String,
    /// The port to use; 0 stands for any free port.
    pub magic_port: u16,
}

} // verus!
