//! Tokens and the mathematical record of their issuance.

use vstd::prelude::*;

verus! {

/// Identifies one registered event source. The number is the value of the
/// issuing counter at the moment of registration.
#[derive(Clone, Copy, Debug, PartialEq, Eq, Structural, Hash)]
pub struct Token(pub usize);

/// The abstract state of token issuance: the value the counter holds, and the
/// tokens whose registration the reactor accepted, oldest first.
pub ghost struct Ledger {
    pub next: nat,
    pub issued: Seq<Token>,
}

impl Ledger {
    /// The state before anything was registered.
    pub open spec fn fresh() -> Ledger {
        Ledger { next: 0, issued: Seq::empty() }
    }

    /// The state a scope starts in: the counter carried over, nothing recorded.
    pub open spec fn scope_of(self) -> Ledger {
        Ledger { next: self.next, issued: Seq::empty() }
    }

    /// The token that the next registration attempt is made under.
    pub open spec fn upcoming(self) -> Token {
        Token(self.next as usize)
    }

    /// The state after one registration attempt. If the reactor accepted the
    /// source, the token is issued: it is recorded and the counter moves on by
    /// one. If not, nothing is issued and the state is as it was.
    pub open spec fn register(self, accepted: bool) -> Ledger {
        if accepted {
            Ledger { next: self.next + 1, issued: self.issued.push(self.upcoming()) }
        } else {
            self
        }
    }

    /// The state after a run of registration attempts, `outcomes[i]` telling
    /// whether the reactor accepted the i-th of them.
    pub open spec fn register_all(self, outcomes: Seq<bool>) -> Ledger
        decreases outcomes.len(),
    {
        if outcomes.len() == 0 {
            self
        } else {
            self.register_all(outcomes.drop_last()).register(outcomes.last())
        }
    }

    /// How many attempts of a run the reactor accepted.
    pub open spec fn accepted(outcomes: Seq<bool>) -> nat
        decreases outcomes.len(),
    {
        if outcomes.len() == 0 {
            0
        } else {
            Ledger::accepted(outcomes.drop_last()) + if outcomes.last() {
                1nat
            } else {
                0nat
            }
        }
    }

    /// The state after the tokens that a scope recorded are folded in.
    pub open spec fn merge(self, scope: Ledger) -> Ledger {
        Ledger { next: scope.next, issued: self.issued + scope.issued }
    }

    /// The state after a scope is dropped without folding its tokens in: the
    /// counter stays past the tokens that the scope issued, so none of them is
    /// handed out again.
    pub open spec fn abandon(self, scope: Ledger) -> Ledger {
        Ledger { next: scope.next, issued: self.issued }
    }

    /// The state after a callback returned, its scope having ended in the
    /// state `scope`: folded in if the callback succeeded, abandoned if it
    /// failed.
    pub open spec fn settle(self, scope: Ledger, succeeded: bool) -> Ledger {
        if succeeded {
            self.merge(scope)
        } else {
            self.abandon(scope)
        }
    }

    /// The state after a callback made a run of registration attempts through
    /// a fresh scope and returned.
    pub open spec fn after_callback(self, outcomes: Seq<bool>, succeeded: bool) -> Ledger {
        self.settle(self.scope_of().register_all(outcomes), succeeded)
    }

    /// The state after a batch of events: the callbacks that succeeded made
    /// the attempts `done` between them, and the one that ended the batch, if
    /// any did, made the attempts `last`.
    pub open spec fn after_batch(self, done: Seq<bool>, last: Seq<bool>, succeeded: bool) -> Ledger {
        self.register_all(done).after_callback(last, succeeded)
    }

    /// Every recorded token lies at or above `floor` and below the counter,
    /// and the record is strictly increasing.
    pub open spec fn ordered_from(self, floor: nat) -> bool {
        &&& forall|i: int| 0 <= i < self.issued.len() ==> floor <= (#[trigger] self.issued[i]).0 < self.next
        &&& forall|i: int, j: int|
            0 <= i < j < self.issued.len() ==> (#[trigger] self.issued[i]).0 < (#[trigger] self.issued[j]).0
    }

    /// The invariant of every ledger that registrations produce.
    pub open spec fn wf(self) -> bool {
        self.ordered_from(0)
    }

    /// The counter can issue `n` more tokens within the machine word.
    pub open spec fn room_for(self, n: nat) -> bool {
        self.next + n <= usize::MAX
    }
}

/// A run of registration attempts issues one token for each attempt that the
/// reactor accepted, and no other: the counter and the record grow by that
/// number, what was recorded before stays as a prefix, and no value of the
/// counter is skipped.
pub proof fn lemma_register_all_extends(l: Ledger, outcomes: Seq<bool>)
    ensures
        Ledger::accepted(outcomes) <= outcomes.len(),
        l.register_all(outcomes).next == l.next + Ledger::accepted(outcomes),
        l.register_all(outcomes).issued.len() == l.issued.len() + Ledger::accepted(outcomes),
        l.issued.is_prefix_of(l.register_all(outcomes).issued),
        forall|i: int|
            l.issued.len() <= i < l.register_all(outcomes).issued.len() ==> (
            #[trigger] l.register_all(outcomes).issued[i]) == Token(
                (l.next + i - l.issued.len()) as usize,
            ),
    decreases outcomes.len(),
{
    if outcomes.len() > 0 {
        lemma_register_all_extends(l, outcomes.drop_last());
    }
}

/// The accepted attempts of two runs, one after the other, add up.
pub proof fn lemma_accepted_concat(first: Seq<bool>, second: Seq<bool>)
    ensures
        Ledger::accepted(first + second) == Ledger::accepted(first) + Ledger::accepted(second),
    decreases second.len(),
{
    if second.len() == 0 {
        assert(first + second =~= first);
    } else {
        lemma_accepted_concat(first, second.drop_last());
        assert((first + second).drop_last() =~= first + second.drop_last());
    }
}

/// A run of registration attempts that the counter has room for keeps the
/// record ordered, and every token it adds lies at or above the counter it
/// started from.
pub proof fn lemma_register_all_ordered(l: Ledger, floor: nat, outcomes: Seq<bool>)
    requires
        l.ordered_from(floor),
        floor <= l.next,
        l.room_for(Ledger::accepted(outcomes)),
    ensures
        l.register_all(outcomes).ordered_from(floor),
        forall|i: int|
            l.issued.len() <= i < l.register_all(outcomes).issued.len() ==> l.next <= (
            #[trigger] l.register_all(outcomes).issued[i]).0,
    decreases outcomes.len(),
{
    if outcomes.len() > 0 {
        lemma_register_all_ordered(l, floor, outcomes.drop_last());
        lemma_register_all_extends(l, outcomes.drop_last());
    }
}

/// Two runs of attempts, one after the other, are one run of both.
pub proof fn lemma_register_all_concat(l: Ledger, first: Seq<bool>, second: Seq<bool>)
    ensures
        l.register_all(first).register_all(second) == l.register_all(first + second),
    decreases second.len(),
{
    if second.len() == 0 {
        assert(first + second =~= first);
    } else {
        lemma_register_all_concat(l, first, second.drop_last());
        assert((first + second).drop_last() =~= first + second.drop_last());
    }
}

/// Folding a scope in gives the state that the same attempts, made directly,
/// would have given.
pub proof fn lemma_merge_replays(l: Ledger, outcomes: Seq<bool>)
    ensures
        l.merge(l.scope_of().register_all(outcomes)) == l.register_all(outcomes),
    decreases outcomes.len(),
{
    if outcomes.len() == 0 {
        assert(l.issued + Seq::<Token>::empty() =~= l.issued);
    } else {
        let head = outcomes.drop_last();
        lemma_merge_replays(l, head);
        lemma_register_all_extends(l.scope_of(), head);
        lemma_register_all_extends(l, head);
        let s = l.scope_of().register_all(head);
        assert(l.merge(s.register(outcomes.last())).issued =~= l.merge(s).register(
            outcomes.last(),
        ).issued);
    }
}

/// Uniqueness: after any run of registration attempts whose tokens the
/// counter has room for, no token is recorded twice.
pub proof fn lemma_tokens_distinct(l: Ledger, outcomes: Seq<bool>)
    requires
        l.wf(),
        l.room_for(Ledger::accepted(outcomes)),
    ensures
        l.register_all(outcomes).wf(),
        forall|i: int, j: int|
            0 <= i < l.register_all(outcomes).issued.len() && 0 <= j < l.register_all(
                outcomes,
            ).issued.len() && i != j ==> l.register_all(outcomes).issued[i] != l.register_all(
                outcomes,
            ).issued[j],
{
    lemma_register_all_ordered(l, 0, outcomes);
    let r = l.register_all(outcomes);
    assert forall|i: int, j: int| 0 <= i < r.issued.len() && 0 <= j < r.issued.len() && i != j implies r.issued[i] != r.issued[j] by {
        if i < j {
            assert(r.issued[i].0 < r.issued[j].0);
        } else {
            assert(r.issued[j].0 < r.issued[i].0);
        }
    }
}

/// Monotonicity: each accepted registration is recorded under the value the
/// counter held when it was made, which is larger than every token recorded
/// before it; a rejected one leaves the counter where it was, so the next
/// accepted one gets that value.
pub proof fn lemma_tokens_increase(l: Ledger)
    requires
        l.wf(),
        l.room_for(1),
    ensures
        l.register(true).issued.last() == l.upcoming(),
        l.upcoming().0 == l.next,
        forall|i: int| 0 <= i < l.issued.len() ==> (#[trigger] l.issued[i]).0 < l.upcoming().0,
        l.register(true).wf(),
        l.register(false) == l,
        l.register(false).register(true).issued.last() == l.upcoming(),
{
    assert(l.register(true) == l.register_all(seq![true])) by {
        assert(seq![true].drop_last() =~= Seq::<bool>::empty());
        assert(l.register_all(Seq::<bool>::empty()) == l);
    }
    assert(Ledger::accepted(seq![true]) == 1) by {
        assert(seq![true].drop_last() =~= Seq::<bool>::empty());
        assert(Ledger::accepted(Seq::<bool>::empty()) == 0);
    }
    lemma_register_all_ordered(l, 0, seq![true]);
}

/// Merging: when a callback succeeds, every token that its scope recorded is
/// in the record, after all that were there before and in the order of
/// issuance; when it fails, the record is as it was, and the counter is past
/// every token the scope issued.
pub proof fn lemma_callback_merges(l: Ledger, outcomes: Seq<bool>)
    requires
        l.wf(),
        l.room_for(Ledger::accepted(outcomes)),
    ensures
        l.after_callback(outcomes, true) == l.register_all(outcomes),
        l.after_callback(outcomes, true).issued == l.issued + l.scope_of().register_all(
            outcomes,
        ).issued,
        l.after_callback(outcomes, false).issued == l.issued,
        l.after_callback(outcomes, false).next == l.next + Ledger::accepted(outcomes),
        l.after_callback(outcomes, true).wf(),
        l.after_callback(outcomes, false).wf(),
{
    lemma_merge_replays(l, outcomes);
    lemma_register_all_ordered(l, 0, outcomes);
    lemma_register_all_extends(l.scope_of(), outcomes);
}

/// A batch of callbacks leaves the state that the same attempts, made
/// directly and in the same order, would have left, but for the tokens of a
/// callback that failed: those are counted and not recorded.
pub proof fn lemma_batch_merges(l: Ledger, done: Seq<bool>, last: Seq<bool>)
    requires
        l.wf(),
        l.room_for(Ledger::accepted(done) + Ledger::accepted(last)),
    ensures
        l.after_batch(done, last, true) == l.register_all(done + last),
        l.after_batch(done, last, false).issued == l.register_all(done).issued,
        l.after_batch(done, last, false).next == l.next + Ledger::accepted(done)
            + Ledger::accepted(last),
        l.after_batch(done, last, true).wf(),
        l.after_batch(done, last, false).wf(),
{
    let mid = l.register_all(done);
    lemma_register_all_extends(l, done);
    lemma_register_all_ordered(l, 0, done);
    lemma_callback_merges(mid, last);
    lemma_register_all_concat(l, done, last);
}

/// One scope at a time: of two scopes opened one after the other, whether the
/// first was folded in or abandoned, every token of the second is larger than
/// every token of the first.
pub proof fn lemma_scopes_disjoint(l: Ledger, first: Seq<bool>, kept: bool, second: Seq<bool>)
    requires
        l.wf(),
        l.room_for(Ledger::accepted(first) + Ledger::accepted(second)),
    ensures
        forall|i: int, j: int|
            0 <= i < l.scope_of().register_all(first).issued.len() && 0 <= j < l.after_callback(
                first,
                kept,
            ).scope_of().register_all(second).issued.len() ==> (#[trigger] l.scope_of().register_all(
                first,
            ).issued[i]).0 < (#[trigger] l.after_callback(first, kept).scope_of().register_all(
                second,
            ).issued[j]).0,
{
    let s1 = l.scope_of().register_all(first);
    let m = l.after_callback(first, kept);
    let s2 = m.scope_of().register_all(second);
    lemma_register_all_extends(l.scope_of(), first);
    lemma_register_all_ordered(l.scope_of(), l.next, first);
    lemma_register_all_ordered(m.scope_of(), m.next, second);
}

} // verus!
