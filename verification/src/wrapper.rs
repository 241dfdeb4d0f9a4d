//! The dispatcher: it owns the reactor, the token counter and the record of
//! the tokens handed out.

use crate::error::{ReactorCreationError, RegistrationError};
use crate::handle::{ledger_of, register_source, Handle, PollHandle};
use crate::ledger::{lemma_merge_replays, lemma_register_all_concat, Ledger, Token};
use crate::reactor::{batch_events, batch_get, batch_len, create};
use vstd::prelude::*;

verus! {

/// Owns mio's `Poll`, hands out a token for every event source registered
/// with it, and delivers readiness events to a callback one at a time.
pub struct PollWrapper {
    poll: mio::Poll,
    tokens: Vec<Token>,
    next_token_id: usize,
}

impl PollWrapper {
    /// Puts a dispatcher around a reactor that was just created, or reports
    /// why there is none.
    pub fn assemble(made: Result<mio::Poll, std::io::Error>) -> (res: Result<
        PollWrapper,
        ReactorCreationError,
    >)
        ensures
            made matches Ok(poll) ==> res matches Ok(wrapper) && wrapper.ledger() == Ledger::fresh()
                && wrapper.held_reactor() == poll,
            made matches Err(cause) ==> res matches Err(e) && e.cause == cause,
    {
        match made {
            Ok(poll) => Ok(PollWrapper { poll, tokens: Vec::new(), next_token_id: 0 }),
            Err(cause) => Err(ReactorCreationError { cause }),
        }
    }

    /// Creates the reactor and a dispatcher around it, with nothing
    /// registered and the counter at zero.
    pub fn new() -> (res: Result<PollWrapper, ReactorCreationError>)
        ensures
            res matches Ok(wrapper) ==> wrapper.ledger() == Ledger::fresh(),
    {
        PollWrapper::assemble(create())
    }

    /// The tokens handed out so far for sources that the reactor accepted,
    /// oldest first.
    pub fn tokens(&self) -> (tokens: &Vec<Token>)
        ensures
            tokens@ == self.ledger().issued,
    {
        &self.tokens
    }

    /// The dispatcher's own reactor, lent out for the wait of the caller's loop.
    pub fn reactor(&mut self) -> (poll: &mut mio::Poll)
        ensures
            *poll == old(self).held_reactor(),
            final(self).held_reactor() == *final(poll),
            final(self).ledger() == old(self).ledger(),
    {
        &mut self.poll
    }

    /// Delivers one readiness event: gives `handler` the event and a fresh
    /// scope to register with, and folds what the scope recorded into the
    /// record if the handler succeeds. If it fails, its failure is returned and
    /// nothing is recorded; the tokens that the scope issued are not issued
    /// again.
    pub fn dispatch<E, F: FnMut(&mio::event::Event, &mut PollHandle) -> Result<(), E>>(
        &mut self,
        event: &mio::event::Event,
        handler: &mut F,
    ) -> (res: Result<(), E>)
        requires
            forall|ev: &mio::event::Event, sc: &mut PollHandle|
                call_requires(*old(handler), (ev, sc)),
            forall|ev: &mio::event::Event, sc: &mut PollHandle, r: Result<(), E>|
                call_ensures(*old(handler), (ev, sc), r) ==> exists|outcomes: Seq<bool>|
                    final(sc).ledger() == #[trigger] sc.ledger().register_all(outcomes),
        ensures
            *final(handler) == *old(handler),
            final(self).held_reactor() == old(self).held_reactor(),
            final(self).ledger().next <= usize::MAX,
            exists|sc: &mut PollHandle|
                {
                    &&& #[trigger] call_ensures(*old(handler), (event, sc), res)
                    &&& sc.ledger() == old(self).ledger().scope_of()
                    &&& sc.reactor() == old(self).held_reactor()
                    &&& final(self).ledger() == old(self).ledger().settle(
                        final(sc).ledger(),
                        res is Ok,
                    )
                },
            exists|outcomes: Seq<bool>|
                final(self).ledger() == #[trigger] old(self).ledger().after_callback(
                    outcomes,
                    res is Ok,
                ),
    {
        let mut scope = PollHandle::open(&self.poll, self.next_token_id);
        let ghost begun = scope.ledger();
        let res = handler(event, &mut scope);
        let ghost outcomes = choose|outcomes: Seq<bool>|
            scope.ledger() == #[trigger] begun.register_all(outcomes);
        let (counter, mut issued) = scope.close();
        self.next_token_id = counter;
        if res.is_ok() {
            self.tokens.append(&mut issued);
        }
        assert(self.ledger() == old(self).ledger().after_callback(outcomes, res is Ok));
        res
    }

    /// Delivers the events of one batch in order, one `dispatch` each, and
    /// stops at the first failure of `handler`: that failure is returned and
    /// no later event of the batch is delivered.
    pub fn dispatch_batch<E, F: FnMut(&mio::event::Event, &mut PollHandle) -> Result<(), E>>(
        &mut self,
        events: &mio::Events,
        handler: &mut F,
    ) -> (res: Result<(), E>)
        requires
            forall|ev: &mio::event::Event, sc: &mut PollHandle|
                call_requires(*old(handler), (ev, sc)),
            forall|ev: &mio::event::Event, sc: &mut PollHandle, r: Result<(), E>|
                call_ensures(*old(handler), (ev, sc), r) ==> exists|outcomes: Seq<bool>|
                    final(sc).ledger() == #[trigger] sc.ledger().register_all(outcomes),
        ensures
            *final(handler) == *old(handler),
            final(self).held_reactor() == old(self).held_reactor(),
            final(self).ledger().next <= usize::MAX,
            exists|trail: Seq<Ledger>|
                {
                    &&& 1 <= trail.len() <= batch_events(*events).len() + 1
                    &&& #[trigger] trail[0] == old(self).ledger()
                    &&& forall|i: int|
                        0 <= i < trail.len() - 1 ==> Self::delivered_as(
                            *old(handler),
                            old(self).held_reactor(),
                            #[trigger] batch_events(*events)[i],
                            Ok::<(), E>(()),
                        ) && exists|sc: &mut PollHandle|
                            {
                                &&& #[trigger] call_ensures(
                                    *old(handler),
                                    (&batch_events(*events)[i], sc),
                                    Ok::<(), E>(()),
                                )
                                &&& sc.ledger() == trail[i].scope_of()
                                &&& sc.reactor() == old(self).held_reactor()
                                &&& trail[i + 1] == trail[i].merge(final(sc).ledger())
                            }
                    &&& res is Ok ==> trail.len() == batch_events(*events).len() + 1
                        && final(self).ledger() == trail.last()
                    &&& res is Err ==> trail.len() <= batch_events(*events).len() && exists|
                        sc: &mut PollHandle,
                    |
                        {
                            &&& #[trigger] call_ensures(
                                *old(handler),
                                (&batch_events(*events)[trail.len() - 1], sc),
                                res,
                            )
                            &&& sc.ledger() == trail.last().scope_of()
                            &&& sc.reactor() == old(self).held_reactor()
                            &&& final(self).ledger() == trail.last().abandon(final(sc).ledger())
                        }
                },
            res is Ok ==> forall|i: int|
                0 <= i < batch_events(*events).len() ==> Self::delivered_as(
                    *old(handler),
                    old(self).held_reactor(),
                    #[trigger] batch_events(*events)[i],
                    Ok::<(), E>(()),
                ),
            res is Err ==> exists|i: int|
                0 <= i < batch_events(*events).len() && Self::delivered_as(
                    *old(handler),
                    old(self).held_reactor(),
                    #[trigger] batch_events(*events)[i],
                    res,
                ) && forall|j: int|
                    0 <= j < i ==> Self::delivered_as(
                        *old(handler),
                        old(self).held_reactor(),
                        #[trigger] batch_events(*events)[j],
                        Ok::<(), E>(()),
                    ),
            exists|done: Seq<bool>, last: Seq<bool>|
                final(self).ledger() == #[trigger] old(self).ledger().after_batch(
                    done,
                    last,
                    res is Ok,
                ),
    {
        let ghost start = self.ledger();
        let ghost mut done: Seq<bool> = Seq::empty();
        let ghost mut trail: Seq<Ledger> = seq![start];
        let len: usize = batch_len(events);
        let mut index: usize = 0;
        while index < len
            invariant
                index <= len,
                len == batch_events(*events).len(),
                start == old(self).ledger(),
                self.held_reactor() == old(self).held_reactor(),
                *handler == *old(handler),
                self.ledger() == start.register_all(done),
                trail.len() == index + 1,
                trail[0] == start,
                trail.last() == self.ledger(),
                forall|i: int|
                    0 <= i < index ==> Self::delivered_as(
                        *old(handler),
                        old(self).held_reactor(),
                        #[trigger] batch_events(*events)[i],
                        Ok::<(), E>(()),
                    ) && exists|sc: &mut PollHandle|
                        {
                            &&& #[trigger] call_ensures(
                                *old(handler),
                                (&batch_events(*events)[i], sc),
                                Ok::<(), E>(()),
                            )
                            &&& sc.ledger() == trail[i].scope_of()
                            &&& sc.reactor() == old(self).held_reactor()
                            &&& trail[i + 1] == trail[i].merge(final(sc).ledger())
                        },
                forall|j: int|
                    0 <= j < index ==> Self::delivered_as(
                        *old(handler),
                        old(self).held_reactor(),
                        #[trigger] batch_events(*events)[j],
                        Ok::<(), E>(()),
                    ),
                forall|ev: &mio::event::Event, sc: &mut PollHandle|
                    call_requires(*handler, (ev, sc)),
                forall|ev: &mio::event::Event, sc: &mut PollHandle, r: Result<(), E>|
                    call_ensures(*handler, (ev, sc), r) ==> exists|outcomes: Seq<bool>|
                        final(sc).ledger() == #[trigger] sc.ledger().register_all(outcomes),
            ensures
                index == len,
            decreases len - index,
        {
            let event = match batch_get(events, index) {
                Some(event) => event,
                None => {
                    break ;
                },
            };
            let ghost before = self.ledger();
            let delivered = self.dispatch(event, handler);
            let ghost outcomes = choose|outcomes: Seq<bool>|
                self.ledger() == #[trigger] before.after_callback(outcomes, delivered is Ok);
            assert(Self::delivered_as(
                *old(handler),
                old(self).held_reactor(),
                batch_events(*events)[index as int],
                delivered,
            ));
            if delivered.is_err() {
                assert(self.ledger() == start.after_batch(done, outcomes, delivered is Ok));
                return delivered;
            }
            proof {
                assert(delivered->Ok_0 == ());
                assert(delivered == Ok::<(), E>(()));
                lemma_merge_replays(before, outcomes);
                lemma_register_all_concat(start, done, outcomes);
                done = done + outcomes;
                trail = trail.push(self.ledger());
            }
            index = index + 1;
        }
        let delivered: Result<(), E> = Ok(());
        proof {
            assert(start.register_all(done).issued + Seq::<Token>::empty()
                =~= start.register_all(done).issued);
            assert(self.ledger() == start.after_batch(done, Seq::empty(), delivered is Ok));
        }
        delivered
    }

    /// The reactor that this dispatcher owns.
    pub closed spec fn held_reactor(&self) -> mio::Poll {
        self.poll
    }

    /// `handler` was called with `event` and a scope that had recorded
    /// nothing and registers with `reactor`, and the call gave `res`.
    pub open spec fn delivered_as<E, F: FnMut(&mio::event::Event, &mut PollHandle) -> Result<(), E>>(
        handler: F,
        reactor: mio::Poll,
        event: mio::event::Event,
        res: Result<(), E>,
    ) -> bool {
        exists|sc: &mut PollHandle|
            {
                &&& #[trigger] call_ensures(handler, (&event, sc), res)
                &&& sc.ledger().issued == Seq::<Token>::empty()
                &&& sc.reactor() == reactor
            }
    }
}

impl Handle for PollWrapper {
    closed spec fn ledger(&self) -> Ledger {
        ledger_of(self.next_token_id, self.tokens@)
    }

    fn has_room(&self) -> (room: bool) {
        self.next_token_id < usize::MAX
    }

    fn register<S: mio::event::Source + ?Sized>(&mut self, evented: &mut S) -> (res: Result<
        Token,
        RegistrationError,
    >)
        ensures
            final(self).held_reactor() == old(self).held_reactor(),
    {
        register_source(&self.poll, &mut self.next_token_id, &mut self.tokens, evented)
    }
}

} // verus!
