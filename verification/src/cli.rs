//! The command-line surface as plain data: the repository path and the
//! chosen subcommand. Argument parsing itself lives outside the library.

use vstd::prelude::*;

verus! {

/// Which report to produce.
#[derive(Clone, Copy, Debug, PartialEq, Eq, Structural)]
pub enum Commands {
    Summary,
    Coupling,
    Ownership,
    Decay,
}

/// A parsed invocation: the repository path and the subcommand.
#[derive(Clone, Debug)]
pub struct Cli {
    pub repo: String,
    pub command_type: Commands,
}

} // verus!
