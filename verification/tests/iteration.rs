use chronofold::{Change, Chronofold, IndexRange, LogIndex, Op, Timestamp};

#[test]
fn iter_subtree() {
    let cfold = Chronofold::<char>::default();
    let mut session = cfold.session(1);
    session.extend("013".chars().collect());
    let cfold = session.finish();
    let mut session = cfold.session(1);
    session.insert_after(LogIndex(2), '2');
    let cfold = session.finish();
    assert_eq!(
        vec![LogIndex(2), LogIndex(4), LogIndex(3)],
        cfold.iter_subtree(LogIndex(2))
    );
}

#[test]
fn iter_ops() {
    let cfold = Chronofold::<char>::default();
    let mut session = cfold.session(1);
    session.extend("Hi!".chars().collect());
    let cfold = session.finish();
    let op0 = Op::root(Timestamp(LogIndex(0), 0));
    let op1 = Op::insert(
        Timestamp(LogIndex(1), 1),
        Some(Timestamp(LogIndex(0), 0)),
        'H',
    );
    let op2 = Op::insert(
        Timestamp(LogIndex(2), 1),
        Some(Timestamp(LogIndex(1), 1)),
        'i',
    );
    let op3 = Op::insert(
        Timestamp(LogIndex(3), 1),
        Some(Timestamp(LogIndex(2), 1)),
        '!',
    );
    assert_eq!(
        vec![op0.clone(), op1.clone(), op2.clone()],
        cfold.iter_ops(IndexRange::To(LogIndex(3)))
    );
    assert_eq!(
        vec![op2, op3],
        cfold.iter_ops(IndexRange::From(LogIndex(2)))
    );
}

#[test]
fn iter_changes_in_log_order() {
    let cfold = Chronofold::<char>::default();
    let mut session = cfold.session(1);
    session.extend("ab".chars().collect());
    session.remove(LogIndex(1));
    let cfold = session.finish();
    assert_eq!(
        vec![
            Change::Root,
            Change::Insert('a'),
            Change::Insert('b'),
            Change::Delete
        ],
        cfold.iter_changes()
    );
}

#[test]
fn iter_range_bounds() {
    let cfold = Chronofold::<char>::default();
    let mut session = cfold.session(1);
    session.extend("abcd".chars().collect());
    let cfold = session.finish();
    let slice: Vec<char> = cfold
        .iter_range(IndexRange::Between(LogIndex(2), LogIndex(4)))
        .into_iter()
        .map(|(v, _)| v)
        .collect();
    assert_eq!(vec!['b', 'c'], slice);
    let tail: Vec<char> = cfold
        .iter_range(IndexRange::From(LogIndex(3)))
        .into_iter()
        .map(|(v, _)| v)
        .collect();
    assert_eq!(vec!['c', 'd'], tail);
}
