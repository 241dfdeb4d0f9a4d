//! The calls into mio. Nothing in this file is proved: each function states
//! what the rest of the crate assumes of the call it makes.

use crate::ledger::Token;
use vstd::prelude::*;

verus! {

#[verifier::external_type_specification]
#[verifier::external_body]
pub struct ExPoll(mio::Poll);

#[verifier::external_type_specification]
#[verifier::external_body]
pub struct ExEvents(mio::Events);

#[verifier::external_type_specification]
#[verifier::external_body]
pub struct ExEvent(mio::event::Event);

#[verifier::external_type_specification]
#[verifier::external_body]
pub struct ExInterest(mio::Interest);

#[verifier::external_type_specification]
#[verifier::external_body]
pub struct ExIoError(std::io::Error);

/// `mio::Poll::new`: asks the operating system for a selector. Whether it
/// succeeds is up to the system, so nothing is claimed of the result.
#[verifier::external_body]
pub(crate) fn create() -> (res: Result<mio::Poll, std::io::Error>) {
    mio::Poll::new()
}

/// `mio::Interest::READABLE`, the constant for read readiness. Nothing is
/// claimed of the value; it is only handed on.
#[verifier::external_body]
pub(crate) fn readable() -> (interest: mio::Interest) {
    mio::Interest::READABLE
}

/// `mio::Interest::WRITABLE`, the constant for write readiness. Nothing is
/// claimed of the value; it is only handed on.
#[verifier::external_body]
pub(crate) fn writable() -> (interest: mio::Interest) {
    mio::Interest::WRITABLE
}

/// mio's `BitOr` on `Interest`: the interest in both. Nothing is claimed of
/// the value; it is only handed on.
#[verifier::external_body]
pub(crate) fn both(first: mio::Interest, second: mio::Interest) -> (interest: mio::Interest) {
    first | second
}

/// `mio::Registry::register` on the registry of `poll`: binds `source` to the
/// number of `token`. Whether the reactor accepts the source is up to the
/// source and the system, so nothing is claimed of the result, nor of what the
/// call leaves in `source`.
#[verifier::external_body]
pub(crate) fn attach<S: mio::event::Source + ?Sized>(
    poll: &mio::Poll,
    source: &mut S,
    token: Token,
    interest: mio::Interest,
) -> (res: Result<(), std::io::Error>) {
    poll.registry().register(source, mio::Token(token.0), interest)
}

/// The events that a batch holds, in the order in which mio's iterator over
/// the batch gives them.
pub uninterp spec fn batch_events(events: mio::Events) -> Seq<mio::event::Event>;

/// `count` on `mio::Events::iter`: the number of events in the batch, which
/// mio reads off the length of the list that the batch holds.
#[verifier::external_body]
pub(crate) fn batch_len(events: &mio::Events) -> (len: usize)
    ensures
        len == batch_events(*events).len(),
{
    events.iter().count()
}

/// `nth` on `mio::Events::iter`: the iterator starts at the first event and
/// moves on by one at each step, so this is the event at `index` in the
/// batch, and `None` if the batch is not that long.
#[verifier::external_body]
pub(crate) fn batch_get(events: &mio::Events, index: usize) -> (event: Option<&mio::event::Event>)
    ensures
        index < batch_events(*events).len() ==> event == Some(&batch_events(*events)[index as int]),
        index >= batch_events(*events).len() ==> event is None,
{
    events.iter().nth(index)
}

} // verus!
