use orderbook::engine::{Diff, FeedMessage, Outcome, Snapshot, SyncEngine, TopOfBook};
use orderbook::ledger::{Action, BookError, DiffEntry, Ledger, Side};
use orderbook::sequencer::{Sequencer, SyncState, Verdict};
use orderbook::subscription::SubConfirmation;

const INSTRUMENT: &str = "BTC-PERPETUAL";

fn snap(id: u64, bids: Vec<(u64, i64)>, asks: Vec<(u64, i64)>) -> FeedMessage {
    FeedMessage::Snapshot(Snapshot {
        instrument: INSTRUMENT.to_string(),
        change_id: id,
        bids,
        asks,
    })
}

fn entry(action: Action, key: u64, size: i64) -> DiffEntry {
    DiffEntry { action, key, size }
}

fn diff(prev: u64, id: u64, bids: Vec<DiffEntry>, asks: Vec<DiffEntry>) -> FeedMessage {
    FeedMessage::Diff(Diff {
        instrument: INSTRUMENT.to_string(),
        change_id: id,
        prev_change_id: prev,
        bids,
        asks,
    })
}

fn engine() -> SyncEngine {
    SyncEngine::new(INSTRUMENT.to_string())
}

#[test]
fn snapshot_twice_is_idempotent() {
    let mut e = engine();
    let m = snap(7, vec![(100, 5), (99, 2)], vec![(101, 3)]);
    assert_eq!(e.ingest(&m), Outcome::Applied);
    let bids = e.levels_of(Side::Bid);
    let asks = e.levels_of(Side::Ask);
    let top = e.snapshot();
    assert_eq!(e.ingest(&m), Outcome::Applied);
    assert_eq!(e.levels_of(Side::Bid), bids);
    assert_eq!(e.levels_of(Side::Ask), asks);
    assert_eq!(e.snapshot(), top);
    assert_eq!(e.state(), SyncState::Synced(7));
}

#[test]
fn gap_leaves_ledger_as_after_last_applied_diff() {
    let mut e = engine();
    assert_eq!(e.ingest(&snap(100, vec![(100, 5)], vec![(101, 3)])), Outcome::Applied);
    let d1 = diff(100, 101, vec![entry(Action::New, 98, 4)], vec![entry(Action::Change, 101, 6)]);
    assert_eq!(e.ingest(&d1), Outcome::Applied);
    let bids = e.levels_of(Side::Bid);
    let asks = e.levels_of(Side::Ask);
    let d2 = diff(105, 106, vec![entry(Action::Delete, 100, 0)], vec![entry(Action::New, 102, 1)]);
    assert_eq!(e.ingest(&d2), Outcome::GapDetected);
    assert_eq!(e.levels_of(Side::Bid), bids);
    assert_eq!(e.levels_of(Side::Ask), asks);
    assert_eq!(bids, vec![(98, 4), (100, 5)]);
    assert_eq!(asks, vec![(101, 6)]);
    assert_eq!(e.state(), SyncState::Gapped);
}

#[test]
fn gapped_drops_diffs_until_snapshot() {
    let mut e = engine();
    e.ingest(&snap(100, vec![(100, 5)], vec![(101, 3)]));
    assert_eq!(e.ingest(&diff(105, 106, vec![], vec![])), Outcome::GapDetected);
    // Even a diff that names the old chain is dropped while gapped.
    assert_eq!(e.ingest(&diff(100, 101, vec![entry(Action::New, 99, 1)], vec![])), Outcome::GapDetected);
    assert_eq!(e.levels_of(Side::Bid), vec![(100, 5)]);
    assert_eq!(e.ingest(&snap(500, vec![(90, 1)], vec![(95, 2)])), Outcome::Applied);
    assert_eq!(e.state(), SyncState::Synced(500));
    assert_eq!(e.ingest(&diff(500, 501, vec![entry(Action::New, 91, 1)], vec![])), Outcome::Applied);
    assert_eq!(e.snapshot().best_bid, Some((91, 1)));
}

#[test]
fn diff_before_any_snapshot_is_a_gap() {
    let mut e = engine();
    assert_eq!(e.state(), SyncState::Uninitialized);
    assert_eq!(e.ingest(&diff(0, 1, vec![entry(Action::New, 10, 1)], vec![])), Outcome::GapDetected);
    assert_eq!(e.snapshot(), TopOfBook { best_bid: None, best_ask: None });
}

#[test]
fn best_tracks_extremes_after_every_ingest() {
    let mut e = engine();
    let steps = vec![
        snap(1, vec![(100, 5), (97, 1), (99, 2)], vec![(104, 1), (101, 3), (103, 2)]),
        diff(1, 2, vec![entry(Action::New, 102, 1)], vec![entry(Action::Delete, 101, 0)]),
        diff(2, 3, vec![entry(Action::Delete, 102, 0), entry(Action::Delete, 100, 0)], vec![]),
        diff(3, 4, vec![entry(Action::Change, 99, 9)], vec![entry(Action::New, 100, 4)]),
        diff(4, 5, vec![entry(Action::Delete, 99, 0), entry(Action::Delete, 97, 0)], vec![]),
    ];
    for m in steps.iter() {
        assert_eq!(e.ingest(m), Outcome::Applied);
        let top = e.snapshot();
        let bids = e.levels_of(Side::Bid);
        let asks = e.levels_of(Side::Ask);
        assert_eq!(top.best_bid, bids.iter().copied().max_by_key(|l| l.0));
        assert_eq!(top.best_ask, asks.iter().copied().min_by_key(|l| l.0));
        assert!(bids.iter().chain(asks.iter()).all(|l| l.1 > 0));
    }
    assert_eq!(e.snapshot().best_bid, None);
    assert_eq!(e.snapshot().best_ask, Some((100, 4)));
}

#[test]
fn delete_best_ask_moves_to_next_level() {
    let mut l = Ledger::new();
    assert_eq!(l.replace_side(Side::Ask, &vec![(100, 5), (101, 3)]), Ok(()));
    assert_eq!(l.best_of_side(Side::Ask), Some((100, 5)));
    assert_eq!(l.apply_entry(Side::Ask, Action::Delete, 100, 0), Ok(()));
    assert_eq!(l.best_of_side(Side::Ask), Some((101, 3)));
}

#[test]
fn delete_best_bid_moves_to_next_level() {
    let mut l = Ledger::new();
    assert_eq!(l.replace_side(Side::Bid, &vec![(100, 5), (99, 3)]), Ok(()));
    assert_eq!(l.apply_entry(Side::Bid, Action::Delete, 100, 0), Ok(()));
    assert_eq!(l.best_of_side(Side::Bid), Some((99, 3)));
    assert_eq!(l.apply_entry(Side::Bid, Action::Delete, 99, 0), Ok(()));
    assert_eq!(l.best_of_side(Side::Bid), None);
}

#[test]
fn new_then_change_targets_one_entry() {
    let mut l = Ledger::new();
    assert_eq!(l.apply_entry(Side::Bid, Action::New, 1, 4), Ok(()));
    assert_eq!(l.apply_entry(Side::Bid, Action::Change, 1, 9), Ok(()));
    assert_eq!(l.depth(Side::Bid), 1);
    assert_eq!(l.size_at(Side::Bid, 1), Some(9));
    assert_eq!(l.best_of_side(Side::Bid), Some((1, 9)));
}

#[test]
fn end_to_end_best_of_book() {
    let mut e = engine();
    assert_eq!(e.ingest(&snap(10, vec![(100, 5)], vec![(101, 3)])), Outcome::Applied);
    assert_eq!(e.snapshot(), TopOfBook { best_bid: Some((100, 5)), best_ask: Some((101, 3)) });
    assert_eq!(e.ingest(&diff(10, 11, vec![], vec![entry(Action::New, 102, 2)])), Outcome::Applied);
    assert_eq!(e.snapshot().best_ask, Some((101, 3)));
    assert_eq!(e.ingest(&diff(11, 12, vec![], vec![entry(Action::Delete, 101, 0)])), Outcome::Applied);
    assert_eq!(e.snapshot().best_ask, Some((102, 2)));
    assert_eq!(e.snapshot().best_bid, Some((100, 5)));
}

#[test]
fn invalid_diff_is_rejected_whole_and_breaks_chain() {
    let mut e = engine();
    e.ingest(&snap(1, vec![(100, 5)], vec![(101, 3)]));
    // The ask entry is fine, the bid Change names an absent level.
    let d = diff(1, 2, vec![entry(Action::Change, 50, 1)], vec![entry(Action::New, 102, 2)]);
    assert_eq!(e.ingest(&d), Outcome::Rejected(BookError::InvalidDiff));
    assert_eq!(e.levels_of(Side::Ask), vec![(101, 3)]);
    assert_eq!(e.levels_of(Side::Bid), vec![(100, 5)]);
    assert_eq!(e.state(), SyncState::Gapped);
}

#[test]
fn delete_of_absent_level_is_invalid() {
    let mut l = Ledger::new();
    assert_eq!(l.apply_entry(Side::Ask, Action::Delete, 7, 0), Err(BookError::InvalidDiff));
    assert_eq!(l.depth(Side::Ask), 0);
}

#[test]
fn malformed_messages_change_nothing() {
    let mut e = engine();
    e.ingest(&snap(1, vec![(100, 5)], vec![(101, 3)]));
    let bad = vec![
        diff(1, 2, vec![entry(Action::New, 99, -1)], vec![]),
        diff(1, 2, vec![], vec![entry(Action::Change, 101, 0)]),
        diff(1, 1, vec![], vec![]),
        FeedMessage::Diff(Diff {
            instrument: "ETH-PERPETUAL".to_string(),
            change_id: 2,
            prev_change_id: 1,
            bids: vec![],
            asks: vec![],
        }),
        snap(9, vec![(100, 0)], vec![]),
    ];
    for m in bad.iter() {
        assert_eq!(e.ingest(m), Outcome::Rejected(BookError::MalformedMessage));
        assert_eq!(e.state(), SyncState::Synced(1));
        assert_eq!(e.levels_of(Side::Bid), vec![(100, 5)]);
        assert_eq!(e.levels_of(Side::Ask), vec![(101, 3)]);
    }
    assert_eq!(e.ingest(&diff(1, 2, vec![], vec![])), Outcome::Applied);
}

#[test]
fn ledger_rejects_non_positive_new() {
    let mut l = Ledger::new();
    assert_eq!(l.apply_entry(Side::Bid, Action::New, 5, 0), Err(BookError::MalformedMessage));
    assert_eq!(l.replace_side(Side::Bid, &vec![(1, 1), (2, -3)]), Err(BookError::MalformedMessage));
    assert_eq!(l.depth(Side::Bid), 0);
}

#[test]
fn snapshot_later_entry_overrides_and_sorts() {
    let mut l = Ledger::new();
    assert_eq!(l.replace_side(Side::Bid, &vec![(5, 1), (3, 2), (5, 7), (9, 1)]), Ok(()));
    assert_eq!(l.levels_of(Side::Bid), vec![(3, 2), (5, 7), (9, 1)]);
    assert_eq!(l.best_of_side(Side::Bid), Some((9, 1)));
    assert_eq!(l.replace_side(Side::Bid, &vec![]), Ok(()));
    assert_eq!(l.best_of_side(Side::Bid), None);
    assert_eq!(l.levels_of(Side::Ask), vec![]);
}

#[test]
fn extreme_keys() {
    let mut l = Ledger::new();
    assert_eq!(l.apply_entry(Side::Ask, Action::New, u64::MAX, i64::MAX), Ok(()));
    assert_eq!(l.apply_entry(Side::Ask, Action::New, 0, 1), Ok(()));
    assert_eq!(l.best_of_side(Side::Ask), Some((0, 1)));
    assert_eq!(l.apply_entry(Side::Ask, Action::Delete, 0, 0), Ok(()));
    assert_eq!(l.best_of_side(Side::Ask), Some((u64::MAX, i64::MAX)));
}

#[test]
fn sequencer_transitions() {
    let mut s = Sequencer::new();
    assert_eq!(s.state(), SyncState::Uninitialized);
    assert_eq!(s.validate(0, 1), Verdict::Gap);
    s.on_snapshot(100);
    assert_eq!(s.validate(100, 101), Verdict::Continue);
    assert_eq!(s.state(), SyncState::Synced(101));
    assert_eq!(s.validate(105, 106), Verdict::Gap);
    assert_eq!(s.state(), SyncState::Gapped);
    s.on_snapshot(3);
    assert_eq!(s.state(), SyncState::Synced(3));
    s.mark_gapped();
    assert_eq!(s.state(), SyncState::Gapped);
}

#[test]
fn subscription_confirmation() {
    let c = SubConfirmation {
        id: 0,
        jsonrpc: "2.0".to_string(),
        result: vec!["book.ETH-PERPETUAL.100ms".to_string(), "book.BTC-PERPETUAL.100ms".to_string()],
        testnet: true,
    };
    assert!(c.confirms(&"book.BTC-PERPETUAL.100ms".to_string()));
    assert!(!c.confirms(&"book.BTC-PERPETUAL.raw".to_string()));
}

#[test]
fn action_names() {
    assert_eq!(Action::from_name(&"new".to_string()), Some(Action::New));
    assert_eq!(Action::from_name(&"change".to_string()), Some(Action::Change));
    assert_eq!(Action::from_name(&"delete".to_string()), Some(Action::Delete));
    assert_eq!(Action::from_name(&"Delete".to_string()), None);
    assert_eq!(Action::from_name(&"".to_string()), None);
}

#[test]
fn malformed_diff_that_breaks_chain_is_a_gap() {
    let mut e = engine();
    assert_eq!(e.ingest(&snap(7, vec![(100, 5)], vec![(101, 3)])), Outcome::Applied);
    let bad = diff(5, 6, vec![entry(Action::New, 99, -1)], vec![]);
    assert_eq!(e.ingest(&bad), Outcome::GapDetected);
    assert_eq!(e.state(), SyncState::Gapped);
    assert_eq!(e.ingest(&diff(7, 8, vec![entry(Action::New, 98, 1)], vec![])), Outcome::GapDetected);
    assert_eq!(e.levels_of(Side::Bid), vec![(100, 5)]);
}

#[test]
fn new_then_change_through_engine() {
    let mut e = engine();
    e.ingest(&snap(1, vec![(100, 5)], vec![(101, 3)]));
    assert_eq!(e.ingest(&diff(1, 2, vec![entry(Action::New, 1, 4)], vec![])), Outcome::Applied);
    assert_eq!(e.ingest(&diff(2, 3, vec![entry(Action::Change, 1, 9)], vec![])), Outcome::Applied);
    assert_eq!(e.levels_of(Side::Bid), vec![(1, 9), (100, 5)]);
}
