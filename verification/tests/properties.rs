//! End-to-end scenarios and cross-cutting behaviors: convergence under
//! op exchange, order-independence of delivery, idempotence, the append-only
//! log, timestamp round-trips, version monotonicity, and the export/reapply
//! round trip.

use chronofold::{Change, Chronofold, ChronofoldError, IndexRange, LogIndex, Op};

fn text(cfold: &Chronofold<char>) -> String {
    cfold.iter_elements().into_iter().collect()
}

#[test]
fn diverge_and_reconcile() {
    // Alice creates a chronofold on her machine, makes some initial changes
    // and sends a copy to Bob.
    let cfold = Chronofold::<char>::default();
    let mut session = cfold.session(1);
    session.extend("Hello chronfold!".chars().collect());
    let mut cfold_a = session.finish();
    let mut cfold_b = cfold_a.clone();

    // Alice adds some more text, ...
    let ops_a: Vec<Op<char>> = {
        let mut session = cfold_a.session(1);
        session.splice(
            IndexRange::Between(LogIndex(16), LogIndex(16)),
            " - a data structure for versioned text".chars().collect(),
        );
        let ops = session.iter_ops();
        cfold_a = session.finish();
        ops
    };

    // ... while Bob fixes a typo.
    let ops_b: Vec<Op<char>> = {
        let mut session = cfold_b.session(2);
        session.insert_after(LogIndex(11), 'o');
        let ops = session.iter_ops();
        cfold_b = session.finish();
        ops
    };

    // Now their respective states have diverged.
    assert_eq!(
        "Hello chronfold - a data structure for versioned text!",
        text(&cfold_a)
    );
    assert_eq!("Hello chronofold!", text(&cfold_b));

    // As soon as both have seen all ops, their states have converged.
    for op in ops_a {
        cfold_b.apply(op).unwrap();
    }
    for op in ops_b {
        cfold_a.apply(op).unwrap();
    }
    let final_text = "Hello chronofold - a data structure for versioned text!";
    assert_eq!(final_text, text(&cfold_a));
    assert_eq!(final_text, text(&cfold_b));
}

/// Applies ops in any order, buffering the ones whose reference is not yet
/// known.
fn apply_all(cfold: &mut Chronofold<char>, ops: &[Op<char>]) {
    let mut pending: Vec<Op<char>> = ops.to_vec();
    while !pending.is_empty() {
        let mut progressed = false;
        let mut still_pending = Vec::new();
        for op in pending {
            match cfold.apply(op) {
                Ok(()) => progressed = true,
                Err(ChronofoldError::ExistingTimestamp(_)) => progressed = true,
                Err(ChronofoldError::UnknownReference(o)) => still_pending.push(o),
                Err(ChronofoldError::FutureTimestamp(o)) => still_pending.push(o),
            }
        }
        assert!(progressed, "ops could not be applied in any order");
        pending = still_pending;
    }
}

#[test]
fn delivery_order_does_not_matter() {
    // Two authors edit concurrently; a third replica receives the combined
    // op set in three different orders and converges to the same sequence.
    let cfold = Chronofold::<char>::default();
    let mut session = cfold.session(1);
    session.extend("0".chars().collect());
    let mut cfold_a = session.finish();
    let mut cfold_b = cfold_a.clone();

    let ops_a: Vec<Op<char>> = {
        let mut session = cfold_a.session(1);
        session.extend("!".chars().collect());
        let ops = session.iter_ops();
        cfold_a = session.finish();
        ops
    };
    let ops_b: Vec<Op<char>> = {
        let mut session = cfold_b.session(2);
        session.extend("12".chars().collect());
        let ops = session.iter_ops();
        cfold_b = session.finish();
        ops
    };
    let base: Vec<Op<char>> = cfold_a.iter_ops(IndexRange::To(LogIndex(2)));

    let mut all: Vec<Op<char>> = Vec::new();
    all.extend(base.iter().cloned());
    all.extend(ops_a.iter().cloned());
    all.extend(ops_b.iter().cloned());

    let mut forward = Chronofold::<char>::new(0);
    apply_all(&mut forward, &all);
    let mut backward = Chronofold::<char>::new(0);
    let reversed: Vec<Op<char>> = all.iter().rev().cloned().collect();
    apply_all(&mut backward, &reversed);
    let mut interleaved = Chronofold::<char>::new(0);
    let mixed: Vec<Op<char>> = all
        .iter()
        .step_by(2)
        .chain(all.iter().skip(1).step_by(2))
        .cloned()
        .collect();
    apply_all(&mut interleaved, &mixed);

    assert_eq!("012!", text(&forward));
    assert_eq!(text(&forward), text(&backward));
    assert_eq!(text(&forward), text(&interleaved));
    // the version clocks agree as well
    assert_eq!(forward.version(), backward.version());
    assert_eq!(forward.version(), interleaved.version());
}

#[test]
fn causal_walk_visits_every_index_once() {
    // iterating `next` from the first entry visits every log index exactly
    // once, also after out-of-order weaving
    let cfold = Chronofold::<char>::default();
    let mut session = cfold.session(1);
    session.extend("013".chars().collect());
    session.insert_after(LogIndex(2), '2');
    session.remove(LogIndex(1));
    let cfold = session.finish();
    let mut walk: Vec<usize> = cfold.causal_order().into_iter().map(|i| i.0).collect();
    assert_eq!(6, walk.len());
    walk.sort();
    assert_eq!(vec![0, 1, 2, 3, 4, 5], walk);
}

#[test]
fn ops_roundtrip() {
    // A sequence of ops exported via `iter_ops` and re-applied to an empty
    // replica yields a replica with the same ops and the same elements.
    let cfold = Chronofold::<char>::default();
    let mut session = cfold.session(1);
    session.extend("water".chars().collect());
    session.remove(LogIndex(1));
    session.insert_after(LogIndex(3), 'l');
    let cfold = session.finish();

    let ops: Vec<Op<char>> = cfold.iter_ops(IndexRange::Full);
    let mut replica = Chronofold::<char>::new(0);
    for op in ops.iter().cloned() {
        match replica.apply(op) {
            Ok(()) => {}
            // the empty replica already carries the same root entry
            Err(ChronofoldError::ExistingTimestamp(o)) => {
                assert_eq!(Op::root(o.id), o);
            }
            Err(e) => panic!("unexpected error: {:?}", e),
        }
    }
    assert_eq!(ops, replica.iter_ops(IndexRange::Full));
    assert_eq!(text(&cfold), text(&replica));
}

#[test]
fn empty_replica() {
    let cfold = Chronofold::<char>::default();
    assert_eq!(0, cfold.len());
    assert!(cfold.is_empty());
    assert!(cfold.iter().is_empty());
    assert_eq!(vec![Change::Root], cfold.iter_changes());
    assert_eq!(Some(LogIndex(0)), cfold.last_index());
}

#[test]
fn push_then_remove_leaves_tombstone() {
    let cfold = Chronofold::<char>::default();
    let mut session = cfold.session(1);
    let idx = session.push_back('x');
    session.remove(idx);
    let cfold = session.finish();
    assert_eq!(0, cfold.len());
    // the element remains in the log, tombstoned
    assert_eq!(Some(&Change::Insert('x')), cfold.get(idx));
    assert_eq!(3, cfold.iter_changes().len());
}

#[test]
fn splice_empty_range_and_iter_is_noop() {
    let cfold = Chronofold::<char>::default();
    let mut session = cfold.session(1);
    session.extend("ab".chars().collect());
    let cfold = session.finish();
    let before = text(&cfold);
    let mut session = cfold.session(1);
    let last = session.splice(IndexRange::Between(LogIndex(1), LogIndex(1)), vec![]);
    let ops = session.iter_ops();
    let cfold = session.finish();
    assert_eq!(None, last);
    assert!(ops.is_empty());
    assert_eq!(before, text(&cfold));
}

#[test]
fn timestamps_roundtrip_through_log_index() {
    // for each local index i, log_index(timestamp(i)) == Some(i)
    let cfold = Chronofold::<char>::default();
    let mut session = cfold.session(1);
    session.extend("abc".chars().collect());
    session.remove(LogIndex(2));
    let cfold = session.finish();
    for i in 0..cfold.iter_changes().len() {
        let ts = cfold.timestamp(LogIndex(i)).unwrap();
        assert_eq!(Some(LogIndex(i)), cfold.log_index(&ts));
    }
}

#[test]
fn version_covers_applied_ops() {
    // after applying op o, version[o.id.author] >= o.id.log_index
    let cfold = Chronofold::<char>::default();
    let mut session = cfold.session(5);
    session.extend("hi".chars().collect());
    let mut cfold = session.finish();
    let op = Op::insert(
        chronofold::Timestamp(LogIndex(3), 9),
        Some(cfold.timestamp(LogIndex(2)).unwrap()),
        '!',
    );
    cfold.apply(op).unwrap();
    assert!(cfold.version().get(&5).unwrap() >= LogIndex(2));
    assert!(cfold.version().get(&9).unwrap() >= LogIndex(3));
    assert!(cfold.version().get(&0).unwrap() >= LogIndex(0));
}

#[test]
fn applying_twice_changes_nothing() {
    // idempotence: the second application is rejected and the replica state
    // is unchanged
    let mut cfold = Chronofold::<char>::default();
    let op = Op::insert(
        chronofold::Timestamp(LogIndex(1), 7),
        Some(chronofold::Timestamp(LogIndex(0), 0)),
        'z',
    );
    cfold.apply(op.clone()).unwrap();
    let ops_before = cfold.iter_ops(IndexRange::Full);
    let elements_before = text(&cfold);
    let err = cfold.apply(op.clone()).unwrap_err();
    assert_eq!(ChronofoldError::ExistingTimestamp(op), err);
    assert_eq!(ops_before, cfold.iter_ops(IndexRange::Full));
    assert_eq!(elements_before, text(&cfold));
}

#[test]
fn log_is_append_only() {
    // applying an op never mutates a prior log entry's change
    let cfold = Chronofold::<char>::default();
    let mut session = cfold.session(1);
    session.extend("ab".chars().collect());
    let mut cfold = session.finish();
    let before = cfold.iter_changes();
    let op = Op::delete(
        chronofold::Timestamp(LogIndex(3), 4),
        cfold.timestamp(LogIndex(2)).unwrap(),
    );
    cfold.apply(op).unwrap();
    let after = cfold.iter_changes();
    assert_eq!(before.len() + 1, after.len());
    assert_eq!(before[..], after[..before.len()]);
}

#[test]
fn push_front_prepends() {
    let cfold = Chronofold::<char>::default();
    let mut session = cfold.session(1);
    session.extend("bc".chars().collect());
    session.push_front('a');
    let cfold = session.finish();
    assert_eq!("abc", text(&cfold));
}

#[test]
fn error_message_for_large_identifiers() {
    let mut cfold = Chronofold::<char>::default();
    let op = Op::insert(
        chronofold::Timestamp(LogIndex(12), 305),
        Some(chronofold::Timestamp(LogIndex(10), 77)),
        '!',
    );
    let err = cfold.apply(op).unwrap_err();
    assert_eq!("future timestamp <12, 305>", err.message());
}
