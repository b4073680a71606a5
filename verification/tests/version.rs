use chronofold::{Chronofold, IndexRange, LogIndex, Op, Timestamp, Version};

#[test]
fn partial_order() {
    assert!(v(vec![]) == v(vec![]));

    assert!(v(vec![]) < v(vec![t(0, 0)]));
    assert!(v(vec![t(0, 0)]) > v(vec![]));

    assert!(v(vec![t(0, 1)]) < v(vec![t(1, 1)]));
    assert!(v(vec![t(1, 1)]) > v(vec![t(0, 1)]));

    assert!(!(v(vec![t(0, 1)]) == v(vec![t(0, 2)])));
    assert!(!(v(vec![t(0, 1)]) < v(vec![t(0, 2)])));
    assert!(!(v(vec![t(0, 1)]) > v(vec![t(0, 2)])));
}

#[test]
fn iter_newer_ops() {
    let cfold = Chronofold::<char>::default();
    let mut session = cfold.session(1);
    session.extend("foo".chars().collect());
    let cfold = session.finish();
    let v1 = cfold.version().clone();
    let mut session = cfold.session(1);
    session.push_back('!');
    let cfold = session.finish();
    let mut session = cfold.session(2);
    session.push_back('?');
    let cfold = session.finish();

    assert_eq!(
        vec![
            Op::insert(t(4, 1), Some(t(3, 1)), '!'),
            Op::insert(t(5, 2), Some(t(4, 1)), '?')
        ],
        cfold.iter_newer_ops(&v1)
    );

    let mut v2 = Version::new();
    v2.inc(&Timestamp(LogIndex(1), 3));
    assert_eq!(
        vec![
            Op::root(t(0, 0)),
            Op::insert(t(1, 1), Some(t(0, 0)), 'f'),
            Op::insert(t(2, 1), Some(t(1, 1)), 'o'),
            Op::insert(t(3, 1), Some(t(2, 1)), 'o'),
            Op::insert(t(4, 1), Some(t(3, 1)), '!'),
            Op::insert(t(5, 2), Some(t(4, 1)), '?')
        ],
        cfold.iter_newer_ops(&v2)
    );

    // an op iteration over the full range yields the same ops
    assert_eq!(
        cfold.iter_newer_ops(&Version::new()),
        cfold.iter_ops(IndexRange::Full)
    );
}

fn t(log_index: usize, author: u64) -> Timestamp {
    Timestamp(LogIndex(log_index), author)
}

fn v(timestamps: Vec<Timestamp>) -> Version {
    let mut version = Version::new();
    for t in timestamps.iter() {
        version.inc(t);
    }
    version
}
