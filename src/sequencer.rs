use vstd::prelude::*;

verus! {

/// Where the change-id chain stands.
#[derive(Clone, Copy, Debug, PartialEq, Eq, Structural)]
pub enum SyncState {
    /// No snapshot has arrived yet.
    Uninitialized,
    /// The book follows the feed; the payload is the last applied change-id.
    Synced(u64),
    /// A diff broke the chain; only a snapshot leaves this state.
    Gapped,
}

/// The sequencer's decision on one diff.
#[derive(Clone, Copy, Debug, PartialEq, Eq, Structural)]
pub enum Verdict {
    Continue,
    Gap,
}

/// The state after a diff that names `prev` as its predecessor and `id` as
/// its own change-id, and the decision on it.
pub open spec fn validate_step(state: SyncState, prev: u64, id: u64) -> (SyncState, Verdict) {
    if state == SyncState::Synced(prev) {
        (SyncState::Synced(id), Verdict::Continue)
    } else {
        (SyncState::Gapped, Verdict::Gap)
    }
}

/// Checks each diff against the chain of change-ids.
pub struct Sequencer {
    state: SyncState,
}

impl Sequencer {
    pub closed spec fn view(&self) -> SyncState {
        self.state
    }

    pub fn new() -> (r: Sequencer)
        ensures
            r@ == SyncState::Uninitialized,
    {
        Sequencer { state: SyncState::Uninitialized }
    }

    pub fn state(&self) -> (r: SyncState)
        ensures
            r == self@,
    {
        self.state
    }

    /// A snapshot is accepted from any state; its change-id starts the chain.
    pub fn on_snapshot(&mut self, change_id: u64)
        ensures
            final(self)@ == SyncState::Synced(change_id),
    {
        self.state = SyncState::Synced(change_id);
    }

    /// Accepts a diff exactly when it names the last applied change-id as
    /// its predecessor; the chain then moves on to `id`. Otherwise the chain
    /// is broken until the next snapshot.
    pub fn validate(&mut self, prev: u64, id: u64) -> (r: Verdict)
        ensures
            (final(self)@, r) == validate_step(old(self)@, prev, id),
    {
        let follows = match self.state {
            SyncState::Synced(last) => last == prev,
            _ => false,
        };
        if follows {
            self.state = SyncState::Synced(id);
            Verdict::Continue
        } else {
            self.state = SyncState::Gapped;
            Verdict::Gap
        }
    }

    /// Breaks the chain: the book can no longer be trusted.
    pub fn mark_gapped(&mut self)
        ensures
            final(self)@ == SyncState::Gapped,
    {
        self.state = SyncState::Gapped;
    }
}

} // verus!
