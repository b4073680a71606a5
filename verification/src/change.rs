use vstd::prelude::*;

verus! {

/// An entry in the chronofold's log.
#[derive(PartialEq, Eq, Clone, Copy, Debug)]
pub enum Change<T> {
    /// The sentinel origin of the sequence.
    Root,
    /// Introduces a value.
    Insert(T),
    /// A tombstone marker referring to another entry.
    Delete,
}

impl<T> Change<T> {
    /// Converts from `&Change<T>` to `Change<&T>`.
    pub fn as_ref(&self) -> (r: Change<&T>)
        ensures
            match (self, r) {
                (Change::Root, Change::Root) => true,
                (Change::Insert(x), Change::Insert(y)) => y == x,
                (Change::Delete, Change::Delete) => true,
                _ => false,
            },
    {
        match *self {
            Change::Root => Change::Root,
            Change::Insert(ref x) => Change::Insert(x),
            Change::Delete => Change::Delete,
        }
    }
}

impl<T: Copy> Change<&T> {
    /// Maps a `Change<&T>` to a `Change<T>` by copying its contents.
    pub fn cloned(self) -> (r: Change<T>)
        ensures
            match (self, r) {
                (Change::Root, Change::Root) => true,
                (Change::Insert(x), Change::Insert(y)) => y == *x,
                (Change::Delete, Change::Delete) => true,
                _ => false,
            },
    {
        match self {
            Change::Root => Change::Root,
            Change::Insert(x) => Change::Insert(*x),
            Change::Delete => Change::Delete,
        }
    }
}

} // verus!
