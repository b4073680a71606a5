//! Tests for the `Vec`-like API.
//!
//! The main purpose of these tests is not to cover all corner cases, but
//! rather to show that sessions behave like their counterparts on `Vec`.

use chronofold::{Change, Chronofold, IndexRange, LogIndex, Session};

#[test]
fn is_empty() {
    let vec = Vec::<char>::default();
    let cfold = Chronofold::<char>::default();
    let mut session = cfold.session(1);
    let idx = session.push_back('!');
    session.remove(idx);
    let cfold = session.finish();
    assert_eq!(vec.is_empty(), cfold.is_empty());
}

#[test]
fn len() {
    let mut vec = Vec::<char>::default();
    vec.extend("len".chars());
    let cfold = Chronofold::<char>::default();
    let mut session = cfold.session(1);
    session.extend("len".chars().collect());
    let idx = session.push_back('?');
    session.remove(idx);
    let cfold = session.finish();
    assert_eq!(vec.len(), cfold.len());
}

#[test]
fn get() {
    let mut vec = Vec::<char>::default();
    vec.extend("abc".chars());
    let cfold = Chronofold::<char>::default();
    let mut session = cfold.session(1);
    session.extend("abc".chars().collect());
    let cfold = session.finish();
    assert_eq!(Some(&'b'), vec.get(1));
    // log index 0 holds the root entry, so the first element lives at 1
    assert_eq!(Some(&Change::Insert('b')), cfold.get(LogIndex(2)));
}

#[test]
fn clear() {
    assert_elements_eq(
        "foobar".chars(),
        |vec| {
            vec.clear();
        },
        |cfold_session| {
            cfold_session.clear();
        },
    );
}

#[test]
fn insert_after() {
    assert_elements_eq(
        "fobar".chars(),
        |vec| {
            vec.insert(2, 'o');
        },
        |cfold_session| {
            cfold_session.insert_after(LogIndex(1), 'o');
        },
    );
}

#[test]
fn extend() {
    // Extend empty sequence:
    assert_elements_eq(
        "".chars(),
        |vec| {
            vec.extend("foo".chars());
        },
        |cfold_session| {
            cfold_session.extend("foo".chars().collect());
        },
    );

    // Extend non-empty sequence:
    assert_elements_eq(
        "foo".chars(),
        |vec| {
            vec.extend("bar".chars());
        },
        |cfold_session| {
            cfold_session.extend("bar".chars().collect());
        },
    );
}

#[test]
fn splice() {
    // Replace the whole sequence by using an unbounded range:
    assert_elements_eq(
        "bar".chars(),
        |vec| {
            vec.splice(.., "foo".chars());
        },
        |cfold_session| {
            cfold_session.splice(IndexRange::Full, "foo".chars().collect());
        },
    );

    // Insert a new sequence without removing anything. The chronofold's
    // log index of the fourth element is 4: the root entry occupies 0.
    assert_elements_eq(
        "foo!".chars(),
        |vec| {
            vec.splice(3..3, "bar".chars());
        },
        |cfold_session| {
            cfold_session.splice(
                IndexRange::Between(LogIndex(4), LogIndex(4)),
                "bar".chars().collect(),
            );
        },
    );

    // Insert a new sequence in an empty vector/chronofold:
    assert_elements_eq(
        "".chars(),
        |vec| {
            vec.splice(0..0, "foo".chars());
        },
        |cfold_session| {
            cfold_session.splice(
                IndexRange::Between(LogIndex(0), LogIndex(0)),
                "foo".chars().collect(),
            );
        },
    );

    // Extend a sequence by using an out-of-bound index. There's a subtle
    // difference here: `Vec::splice` only allows indices <= `Vec::len()`,
    // the chronofold extends for all out-of-bound indices.
    assert_elements_eq(
        "foo".chars(),
        |vec| {
            vec.splice(3..3, "bar".chars());
        },
        |cfold_session| {
            cfold_session.splice(
                IndexRange::Between(LogIndex(4), LogIndex(4)),
                "bar".chars().collect(),
            );
        },
    );
}

fn assert_elements_eq<I, T, F, G>(initial_values: I, mutate_vec: F, mutate_chronofold: G)
where
    I: Iterator<Item = T>,
    F: FnOnce(&mut Vec<T>) -> (),
    G: FnOnce(&mut Session<T>) -> (),
    T: PartialEq + Copy + std::fmt::Debug,
{
    let mut vec: Vec<T> = initial_values.collect();
    let cfold = Chronofold::<T>::default();
    let mut cfold_session = cfold.session(1);
    cfold_session.extend(vec.clone());

    mutate_vec(&mut vec);
    mutate_chronofold(&mut cfold_session);

    let cfold = cfold_session.finish();
    assert_eq!(vec, cfold.iter_elements());
}
