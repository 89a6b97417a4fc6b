//! Markers for the CLI's subcommands. The argument parsing around them is
//! not part of the library; these types only name what the CLI can do.

use vstd::prelude::*;

verus! {

/// The subcommand that creates a new device key pair.
pub struct GenerateCommand {}

impl GenerateCommand {
    pub fn new() -> Self {
        GenerateCommand {  }
    }
}

/// The subcommand that encrypts a value read from standard input.
pub struct InsertCommand {}

impl InsertCommand {
    pub fn new() -> Self {
        InsertCommand {  }
    }
}

/// The subcommand that rewrites vaults to their resolved recipients.
pub struct ReencryptCommand {}

impl ReencryptCommand {
    pub fn new() -> Self {
        ReencryptCommand {  }
    }
}

/// The subcommand that decrypts and prints a stored value.
pub struct ShowCommand {}

impl ShowCommand {
    pub fn new() -> Self {
        ShowCommand {  }
    }
}

} // verus!
