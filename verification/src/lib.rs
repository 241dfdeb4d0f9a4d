//! A small dispatch loop core around mio's `Poll`: it hands out tokens for
//! registered event sources and keeps the record of the tokens handed out,
//! both before the loop runs and from inside an event callback.

pub mod error;
pub mod handle;
pub mod ledger;
pub mod reactor;
pub mod wrapper;

pub use error::{ReactorCreationError, RegistrationError};
pub use handle::{Handle, PollHandle};
pub use ledger::{Ledger, Token};
pub use wrapper::PollWrapper;
