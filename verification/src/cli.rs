//! The commands a front end can ask of the vault.
//!
//! Plain data: parsing a command line into these is the front end's job,
//! as is prompting for whatever passwords are absent.

use vstd::prelude::*;

verus! {

/// A parsed invocation: exactly one command.
pub struct Args {
    pub command: Commands,
}

/// Every operation the vault offers a front end.
pub enum Commands {
    /// Initialize a new password vault.
    Init,
    /// Add a new password for a service; prompt for it when absent.
    Add { service: String, password: Option<String> },
    /// Retrieve the password for a service.
    Get { service: String },
    /// List all stored service names.
    List,
    /// Remove the password for a service.
    Remove { service: String },
    /// Update an existing password for a service; prompt when absent.
    Update { service: String, password: Option<String> },
}

} // verus!
