use vstd::prelude::*;
use crate::ledger::{
    all_positive, entries_map, entries_result, entries_valid, entries_well_formed, is_top,
    lemma_entries_map_keys, lemma_new_then_change, sizes_all_positive, sizes_positive, Action,
    BookError, DiffEntry, Ledger, Side,
};
use crate::sequencer::{Sequencer, SyncState, Verdict};

verus! {

/// A full picture of one instrument's book.
pub struct Snapshot {
    pub instrument: String,
    pub change_id: u64,
    /// (price key, size) pairs.
    pub bids: Vec<(u64, i64)>,
    pub asks: Vec<(u64, i64)>,
}

/// An incremental update that names the change-id it builds on.
pub struct Diff {
    pub instrument: String,
    pub change_id: u64,
    pub prev_change_id: u64,
    pub bids: Vec<DiffEntry>,
    pub asks: Vec<DiffEntry>,
}

/// A typed message of the feed.
pub enum FeedMessage {
    Snapshot(Snapshot),
    Diff(Diff),
}

/// What `ingest` did with a message.
#[derive(Clone, Copy, Debug, PartialEq, Eq, Structural)]
pub enum Outcome {
    Applied,
    /// The change-id chain is broken: the caller must re-subscribe and
    /// deliver a fresh snapshot.
    GapDetected,
    Rejected(BookError),
}

/// The best level of each side at one moment; `None` is "no liquidity".
#[derive(Clone, Copy, Debug, PartialEq, Eq)]
pub struct TopOfBook {
    pub best_bid: Option<(u64, i64)>,
    pub best_ask: Option<(u64, i64)>,
}

/// A snapshot is well formed when it is for the book's instrument and every
/// level has a positive size.
pub open spec fn snapshot_well_formed(instrument: Seq<char>, s: Snapshot) -> bool {
    &&& s.instrument@ == instrument
    &&& all_positive(s.bids@)
    &&& all_positive(s.asks@)
}

/// A diff has a sound shape when its change-id moves past its predecessor
/// and its New and Change entries carry positive sizes.
pub open spec fn diff_shape_ok(d: Diff) -> bool {
    &&& d.prev_change_id < d.change_id
    &&& entries_well_formed(d.bids@)
    &&& entries_well_formed(d.asks@)
}

/// One step of the engine: from the sequencing state and both sides' maps,
/// the state, maps and outcome after `msg`. A diff for this instrument is
/// first held against the change-id chain: a break is a gap whatever else
/// is wrong with the diff.
pub open spec fn ingest_step(
    instrument: Seq<char>,
    state: SyncState,
    bids: Map<u64, i64>,
    asks: Map<u64, i64>,
    msg: FeedMessage,
) -> (SyncState, Map<u64, i64>, Map<u64, i64>, Outcome) {
    match msg {
        FeedMessage::Snapshot(s) => if snapshot_well_formed(instrument, s) {
            (SyncState::Synced(s.change_id), entries_map(s.bids@), entries_map(s.asks@), Outcome::Applied)
        } else {
            (state, bids, asks, Outcome::Rejected(BookError::MalformedMessage))
        },
        FeedMessage::Diff(d) => if d.instrument@ != instrument {
            (state, bids, asks, Outcome::Rejected(BookError::MalformedMessage))
        } else if state != SyncState::Synced(d.prev_change_id) {
            (SyncState::Gapped, bids, asks, Outcome::GapDetected)
        } else if !diff_shape_ok(d) {
            (state, bids, asks, Outcome::Rejected(BookError::MalformedMessage))
        } else {
            match (entries_result(asks, d.asks@), entries_result(bids, d.bids@)) {
                (Ok(a), Ok(b)) => (SyncState::Synced(d.change_id), b, a, Outcome::Applied),
                (Err(e), _) => (SyncState::Gapped, bids, asks, Outcome::Rejected(e)),
                (Ok(_), Err(e)) => (SyncState::Gapped, bids, asks, Outcome::Rejected(e)),
            }
        },
    }
}

/// Ingesting the same snapshot twice in a row leaves the same book, state
/// and outcome as ingesting it once.
pub proof fn lemma_snapshot_idempotent(
    instrument: Seq<char>,
    state: SyncState,
    bids: Map<u64, i64>,
    asks: Map<u64, i64>,
    msg: FeedMessage,
)
    requires
        msg is Snapshot,
    ensures
        ({
            let once = ingest_step(instrument, state, bids, asks, msg);
            ingest_step(instrument, once.0, once.1, once.2, msg) == once
        }),
{
}

/// A diff that does not name the last applied change-id as its predecessor
/// leaves both sides untouched and is not applied; when it is for this
/// instrument it breaks the chain, malformed or not.
pub proof fn lemma_gap_keeps_book(
    instrument: Seq<char>,
    last: u64,
    bids: Map<u64, i64>,
    asks: Map<u64, i64>,
    msg: FeedMessage,
)
    requires
        msg is Diff,
        msg->Diff_0.prev_change_id != last,
    ensures
        ({
            let next = ingest_step(instrument, SyncState::Synced(last), bids, asks, msg);
            &&& next.1 == bids
            &&& next.2 == asks
            &&& next.3 != Outcome::Applied
            &&& msg->Diff_0.instrument@ == instrument ==> next.3 == Outcome::GapDetected
                && next.0 == SyncState::Gapped
        }),
{
}

/// Once synced, a diff never moves the last applied change-id back; one
/// that is applied continues the chain and moves it strictly forward.
pub proof fn lemma_change_id_increases(
    instrument: Seq<char>,
    last: u64,
    bids: Map<u64, i64>,
    asks: Map<u64, i64>,
    msg: FeedMessage,
)
    requires
        msg is Diff,
    ensures
        ({
            let next = ingest_step(instrument, SyncState::Synced(last), bids, asks, msg);
            &&& next.0 is Synced ==> next.0->Synced_0 >= last
            &&& next.3 == Outcome::Applied ==> msg->Diff_0.prev_change_id == last
                && next.0 == SyncState::Synced(msg->Diff_0.change_id) && msg->Diff_0.change_id
                > last
        }),
{
}

/// A New and then a Change of one price key, in two diffs that continue the
/// chain, both apply and leave one level at that key holding the second size.
pub proof fn lemma_new_then_change_one_level(
    instrument: Seq<char>,
    last: u64,
    bids: Map<u64, i64>,
    asks: Map<u64, i64>,
    first: FeedMessage,
    second: FeedMessage,
    key: u64,
    size1: i64,
    size2: i64,
)
    requires
        size1 > 0,
        size2 > 0,
        first is Diff,
        second is Diff,
        first->Diff_0.instrument@ == instrument,
        second->Diff_0.instrument@ == instrument,
        first->Diff_0.prev_change_id == last,
        first->Diff_0.change_id > last,
        second->Diff_0.prev_change_id == first->Diff_0.change_id,
        second->Diff_0.change_id > first->Diff_0.change_id,
        first->Diff_0.bids@ == seq![DiffEntry { action: Action::New, key, size: size1 }],
        second->Diff_0.bids@ == seq![DiffEntry { action: Action::Change, key, size: size2 }],
        first->Diff_0.asks@.len() == 0,
        second->Diff_0.asks@.len() == 0,
    ensures
        ({
            let one = ingest_step(instrument, SyncState::Synced(last), bids, asks, first);
            let two = ingest_step(instrument, one.0, one.1, one.2, second);
            &&& one.3 == Outcome::Applied
            &&& two.3 == Outcome::Applied
            &&& two.1 == bids.insert(key, size2)
            &&& two.1.dom() == bids.dom().insert(key)
            &&& two.2 == asks
        }),
{
    let b1 = first->Diff_0.bids@;
    let b2 = second->Diff_0.bids@;
    assert(b1.drop_last() =~= Seq::<DiffEntry>::empty());
    assert(b2.drop_last() =~= Seq::<DiffEntry>::empty());
    assert(entries_well_formed(b1));
    assert(entries_well_formed(b2));
    lemma_new_then_change(bids, key, size1, size2);
    let m1 = bids.insert(key, size1);
    assert(entries_result(asks, first->Diff_0.asks@) == Ok::<Map<u64, i64>, BookError>(asks));
    assert(entries_result(bids, b1.drop_last()) == Ok::<Map<u64, i64>, BookError>(bids));
    assert(entries_result(bids, b1) == Ok::<Map<u64, i64>, BookError>(m1));
    assert(entries_result(asks, second->Diff_0.asks@) == Ok::<Map<u64, i64>, BookError>(asks));
    assert(entries_result(m1, b2.drop_last()) == Ok::<Map<u64, i64>, BookError>(m1));
    assert(entries_result(m1, b2) == Ok::<Map<u64, i64>, BookError>(bids.insert(key, size2)));
    assert(bids.insert(key, size2).dom() =~= bids.dom().insert(key));
}

/// The book that a well-formed snapshot loads holds exactly the levels it
/// names, each with a positive size; the best bid and best ask read after it
/// are therefore the highest bid key and the lowest ask key that it names.
pub proof fn lemma_snapshot_loads_named_levels(
    instrument: Seq<char>,
    state: SyncState,
    bids: Map<u64, i64>,
    asks: Map<u64, i64>,
    msg: FeedMessage,
)
    requires
        msg is Snapshot,
        snapshot_well_formed(instrument, msg->Snapshot_0),
    ensures
        ({
            let next = ingest_step(instrument, state, bids, asks, msg);
            let s = msg->Snapshot_0;
            &&& next.3 == Outcome::Applied
            &&& forall|k: u64|
                #[trigger] next.1.contains_key(k) <==> exists|i: int|
                    0 <= i < s.bids@.len() && #[trigger] s.bids@[i].0 == k
            &&& forall|k: u64|
                #[trigger] next.2.contains_key(k) <==> exists|i: int|
                    0 <= i < s.asks@.len() && #[trigger] s.asks@[i].0 == k
            &&& sizes_all_positive(next.1)
            &&& sizes_all_positive(next.2)
        }),
{
    lemma_entries_map_keys(msg->Snapshot_0.bids@);
    lemma_entries_map_keys(msg->Snapshot_0.asks@);
}

/// The single entry point that keeps one instrument's book in step with the
/// feed: every message passes the sequencer before it touches the ledger.
pub struct SyncEngine {
    instrument: String,
    ledger: Ledger,
    sequencer: Sequencer,
}

impl SyncEngine {
    pub closed spec fn wf(&self) -> bool {
        self.ledger.wf()
    }

    pub closed spec fn instrument_spec(&self) -> Seq<char> {
        self.instrument@
    }

    pub closed spec fn state_spec(&self) -> SyncState {
        self.sequencer@
    }

    /// The levels of `side`, as a map from price key to size.
    pub closed spec fn levels(&self, side: Side) -> Map<u64, i64> {
        self.ledger.levels(side)
    }

    /// Every level on either side of the engine's book holds a positive
    /// size.
    pub proof fn lemma_sizes_positive(&self)
        requires
            self.wf(),
        ensures
            sizes_all_positive(self.levels(Side::Bid)),
            sizes_all_positive(self.levels(Side::Ask)),
    {
        self.ledger.lemma_sizes_positive();
    }

    /// An engine for `instrument`, with an empty book, waiting for a snapshot.
    pub fn new(instrument: String) -> (r: SyncEngine)
        ensures
            r.wf(),
            r.instrument_spec() == instrument@,
            r.state_spec() == SyncState::Uninitialized,
            r.levels(Side::Bid) == Map::<u64, i64>::empty(),
            r.levels(Side::Ask) == Map::<u64, i64>::empty(),
    {
        SyncEngine { instrument, ledger: Ledger::new(), sequencer: Sequencer::new() }
    }

    /// Routes one message of the feed. A snapshot replaces both sides from
    /// any state. A diff is applied whole only when it continues the chain;
    /// a break in the chain gives `GapDetected` (checked before the diff's
    /// shape), an entry that names an absent level gives
    /// `Rejected(InvalidDiff)` and breaks the chain too, and a malformed
    /// message that does not break the chain changes nothing. Refused messages leave both
    /// sides as they were.
    pub fn ingest(&mut self, msg: &FeedMessage) -> (r: Outcome)
        requires
            old(self).wf(),
        ensures
            final(self).wf(),
            sizes_all_positive(final(self).levels(Side::Bid)),
            sizes_all_positive(final(self).levels(Side::Ask)),
            final(self).instrument_spec() == old(self).instrument_spec(),
            (final(self).state_spec(), final(self).levels(Side::Bid), final(self).levels(
                Side::Ask,
            ), r) == ingest_step(
                old(self).instrument_spec(),
                old(self).state_spec(),
                old(self).levels(Side::Bid),
                old(self).levels(Side::Ask),
                *msg,
            ),
    {
        let r = self.route(msg);
        proof {
            self.lemma_sizes_positive();
        }
        r
    }

    fn route(&mut self, msg: &FeedMessage) -> (r: Outcome)
        requires
            old(self).wf(),
        ensures
            final(self).wf(),
            final(self).instrument_spec() == old(self).instrument_spec(),
            (final(self).state_spec(), final(self).levels(Side::Bid), final(self).levels(
                Side::Ask,
            ), r) == ingest_step(
                old(self).instrument_spec(),
                old(self).state_spec(),
                old(self).levels(Side::Bid),
                old(self).levels(Side::Ask),
                *msg,
            ),
    {
        match msg {
            FeedMessage::Snapshot(s) => {
                if !(s.instrument == self.instrument) || !sizes_positive(&s.bids)
                    || !sizes_positive(&s.asks) {
                    return Outcome::Rejected(BookError::MalformedMessage);
                }
                let _ = self.ledger.replace_side(Side::Bid, &s.bids);
                let _ = self.ledger.replace_side(Side::Ask, &s.asks);
                self.sequencer.on_snapshot(s.change_id);
                Outcome::Applied
            },
            FeedMessage::Diff(d) => {
                if !(d.instrument == self.instrument) {
                    return Outcome::Rejected(BookError::MalformedMessage);
                }
                let follows = match self.sequencer.state() {
                    SyncState::Synced(last) => last == d.prev_change_id,
                    _ => false,
                };
                if !follows {
                    self.sequencer.mark_gapped();
                    return Outcome::GapDetected;
                }
                if d.change_id <= d.prev_change_id || !entries_valid(&d.bids) || !entries_valid(
                    &d.asks,
                ) {
                    return Outcome::Rejected(BookError::MalformedMessage);
                }
                match self.sequencer.validate(d.prev_change_id, d.change_id) {
                    Verdict::Gap => Outcome::GapDetected,
                    Verdict::Continue => match self.ledger.apply_diff(&d.bids, &d.asks) {
                        Ok(()) => Outcome::Applied,
                        Err(e) => {
                            self.sequencer.mark_gapped();
                            Outcome::Rejected(e)
                        },
                    },
                }
            },
        }
    }

    /// The best bid and best ask, read together.
    pub fn snapshot(&self) -> (r: TopOfBook)
        requires
            self.wf(),
        ensures
            is_top(Side::Bid, self.levels(Side::Bid), r.best_bid),
            is_top(Side::Ask, self.levels(Side::Ask), r.best_ask),
    {
        TopOfBook {
            best_bid: self.ledger.best_of_side(Side::Bid),
            best_ask: self.ledger.best_of_side(Side::Ask),
        }
    }

    /// Where the change-id chain stands.
    pub fn state(&self) -> (r: SyncState)
        ensures
            r == self.state_spec(),
    {
        self.sequencer.state()
    }

    /// The levels of `side` in increasing key order.
    pub fn levels_of(&self, side: Side) -> (r: Vec<(u64, i64)>)
        requires
            self.wf(),
        ensures
            crate::ledger::sorted(r@),
            crate::ledger::levels_map(r@) == self.levels(side),
    {
        self.ledger.levels_of(side)
    }
}

} // verus!
