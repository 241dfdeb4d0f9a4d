//! Registration: the capability that the dispatcher and the scope share, and
//! the one routine behind both.

use crate::error::RegistrationError;
use crate::ledger::{Ledger, Token};
use crate::reactor::{attach, both, readable, writable};
use vstd::prelude::*;

verus! {

/// Takes the next token off `counter`.
pub fn issue(counter: &mut usize) -> (token: Token)
    requires
        *old(counter) < usize::MAX,
    ensures
        token == Token(*old(counter)),
        *final(counter) == *old(counter) + 1,
{
    let token = Token(*counter);
    *counter = *counter + 1;
    token
}

/// Concludes a registration attempt made under the next token of `counter`:
/// if the reactor accepted the source, the token is issued and recorded; if
/// not, nothing is issued and the reactor's error is handed on.
pub fn settle(counter: &mut usize, tokens: &mut Vec<Token>, outcome: Result<(), std::io::Error>) -> (res:
    Result<Token, RegistrationError>)
    requires
        outcome is Ok ==> *old(counter) < usize::MAX,
    ensures
        outcome is Ok ==> res == Ok::<Token, RegistrationError>(Token(*old(counter))),
        outcome is Ok ==> *final(counter) == *old(counter) + 1,
        outcome is Ok ==> final(tokens)@ == old(tokens)@.push(Token(*old(counter))),
        outcome matches Err(cause) ==> res == Err::<Token, RegistrationError>(
            (RegistrationError { cause }),
        ),
        outcome is Err ==> *final(counter) == *old(counter),
        outcome is Err ==> final(tokens)@ == old(tokens)@,
{
    match outcome {
        Ok(()) => {
            let token = issue(counter);
            tokens.push(token);
            Ok(token)
        },
        Err(cause) => Err(RegistrationError { cause }),
    }
}

/// The abstract state that a counter and a list of tokens stand for.
pub open spec fn ledger_of(counter: usize, tokens: Seq<Token>) -> Ledger {
    Ledger { next: counter as nat, issued: tokens }
}

/// Registers `source` with the reactor for read and write readiness under the
/// next token of `counter`. If the reactor accepts the source, the token is
/// issued: the counter moves on by one, and the token is recorded in `tokens`
/// and returned. If not, counter and record stay as they were.
pub fn register_source<S: mio::event::Source + ?Sized>(
    poll: &mio::Poll,
    counter: &mut usize,
    tokens: &mut Vec<Token>,
    source: &mut S,
) -> (res: Result<Token, RegistrationError>)
    requires
        *old(counter) < usize::MAX,
    ensures
        ledger_of(*final(counter), final(tokens)@) == ledger_of(*old(counter), old(tokens)@).register(
            res is Ok,
        ),
        res matches Ok(token) ==> token == Token(*old(counter)),
{
    let offered = Token(*counter);
    let outcome = attach(poll, source, offered, both(readable(), writable()));
    settle(counter, tokens, outcome)
}

/// What can register an event source and name it by a fresh token.
pub trait Handle {
    /// The state of token issuance behind this handle.
    spec fn ledger(&self) -> Ledger;

    /// Whether the counter can issue one more token.
    fn has_room(&self) -> (room: bool)
        ensures
            room == self.ledger().room_for(1),
            self.ledger().next <= usize::MAX,
    ;

    /// Registers `evented` with the reactor for read and write readiness and
    /// returns the token it was registered under.
    fn register<S: mio::event::Source + ?Sized>(&mut self, evented: &mut S) -> (res: Result<
        Token,
        RegistrationError,
    >)
        requires
            old(self).ledger().room_for(1),
        ensures
            final(self).ledger() == old(self).ledger().register(res is Ok),
            res matches Ok(token) ==> token == old(self).ledger().upcoming(),
    ;
}

/// The registration handle that an event callback is given. It lives for one
/// call of the callback; what it recorded is folded into the dispatcher's
/// record when the callback returns without failure.
pub struct PollHandle<'a> {
    poll: &'a mio::Poll,
    tokens: Vec<Token>,
    next_token_id: usize,
}

impl<'a> PollHandle<'a> {
    /// The reactor that this scope registers with.
    pub closed spec fn reactor(&self) -> mio::Poll {
        *self.poll
    }

    /// A scope that starts counting at `counter` and has recorded nothing.
    pub(crate) fn open(poll: &'a mio::Poll, counter: usize) -> (scope: PollHandle<'a>)
        ensures
            scope.ledger() == ledger_of(counter, Seq::empty()),
            scope.reactor() == *poll,
    {
        PollHandle { poll, tokens: Vec::new(), next_token_id: counter }
    }

    /// Ends the scope: the counter it reached and the tokens it recorded.
    pub(crate) fn close(self) -> (end: (usize, Vec<Token>))
        ensures
            ledger_of(end.0, end.1@) == self.ledger(),
    {
        (self.next_token_id, self.tokens)
    }
}

impl<'a> Handle for PollHandle<'a> {
    closed spec fn ledger(&self) -> Ledger {
        ledger_of(self.next_token_id, self.tokens@)
    }

    fn has_room(&self) -> (room: bool) {
        self.next_token_id < usize::MAX
    }

    fn register<S: mio::event::Source + ?Sized>(&mut self, evented: &mut S) -> (res: Result<
        Token,
        RegistrationError,
    >)
        ensures
            final(self).reactor() == old(self).reactor(),
    {
        register_source(self.poll, &mut self.next_token_id, &mut self.tokens, evented)
    }
}

} // verus!
