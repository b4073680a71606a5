use chronofold::{LogIndex, OffsetMap, RangeFromMap, RelativeNextIndex};

type IdxMap = OffsetMap<LogIndex, RelativeNextIndex>;

#[test]
fn get_default() {
    let map = IdxMap::new();
    assert_eq!(Some(LogIndex(1)), map.get(&LogIndex(0)));
}

#[test]
fn set_default() {
    let mut map = IdxMap::new();
    map.set(LogIndex(1), Some(LogIndex(2)));
    assert_eq!(Some(LogIndex(2)), map.get(&LogIndex(1)));
    assert_eq!(IdxMap::new(), map); // the default is not stored
}

#[test]
fn set_and_get_none() {
    let mut map = IdxMap::new();
    map.set(LogIndex(42), None);
    assert_eq!(None, map.get(&LogIndex(42)));
}

#[test]
fn set_and_get_value() {
    let mut map = IdxMap::new();
    map.set(LogIndex(42), Some(LogIndex(50)));
    map.set(LogIndex(50), Some(LogIndex(1)));
    assert_eq!(Some(LogIndex(50)), map.get(&LogIndex(42)));
    assert_eq!(Some(LogIndex(1)), map.get(&LogIndex(50)));
}

type NameMap = RangeFromMap<usize, &'static str>;

#[test]
fn get_empty() {
    let map = NameMap::new();
    assert_eq!(None, map.get(&0));
}

#[test]
fn set_and_get() {
    let mut map = NameMap::new();
    map.set(10, "alice");
    assert_eq!(None, map.get(&5));
    assert_eq!(Some("alice"), map.get(&10));
    assert_eq!(Some("alice"), map.get(&15));
}

#[test]
fn test_missing_compaction() {
    let mut m1 = RangeFromMap::<usize, usize>::new();
    let mut m2 = RangeFromMap::<usize, usize>::new();
    m1.set(20, 2);
    m2.set(20, 2);
    assert_eq!(m1, m2);

    m1.set(10, 1);
    m1.set(15, 1);
    m2.set(15, 1);
    m2.set(10, 1);
    assert_ne!(m1, m2);
}
