//! The failures that the reactor reports, by the operation that met them.

use vstd::prelude::*;

verus! {

/// The operating system could not create the reactor.
#[derive(Debug)]
pub struct ReactorCreationError {
    /// What the operating system reported.
    pub cause: std::io::Error,
}

/// The reactor rejected an event source.
#[derive(Debug)]
pub struct RegistrationError {
    /// What the reactor reported.
    pub cause: std::io::Error,
}

} // verus!
