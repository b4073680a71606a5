use vstd::prelude::*;

verus! {

/// An index in the log of the chronofold.
///
/// The indices are `usize` as they are used to index into `Vec`s. They are
/// stable (entries are never removed from the log), but subjective for each
/// author.
#[derive(PartialEq, Eq, PartialOrd, Ord, Hash, Clone, Copy, Debug, Structural)]
pub struct LogIndex(pub usize);

/// A range of log indices.
///
/// Ranges select entries either in causal order (element iteration, splice)
/// or in log order (op iteration); which interpretation applies is up to the
/// function taking the range.
#[derive(PartialEq, Eq, Clone, Copy, Debug, Structural)]
pub enum IndexRange {
    /// Every index (`..`).
    Full,
    /// All indices from the given one onwards (`a..`).
    From(LogIndex),
    /// All indices up to, but excluding, the given one (`..b`).
    To(LogIndex),
    /// All indices up to and including the given one (`..=b`).
    ToIncluding(LogIndex),
    /// The indices of a half-open interval (`a..b`).
    Between(LogIndex, LogIndex),
    /// The indices of a closed interval (`a..=b`).
    BetweenIncluding(LogIndex, LogIndex),
}

/// The default offset of an `OffsetMap`'s values relative to their keys.
pub trait Offset: Sized {
    /// The offset added to a key to obtain the map's default value.
    spec fn delta() -> int;

    /// Executable mirror of [`Offset::delta`].
    fn exec_delta() -> (r: i64)
        ensures
            r as int == Self::delta(),
            -1 <= Self::delta() <= 1,
    ;
}

/// Marker for next-index maps: the next entry in causal order defaults to the
/// next entry in log order.
#[derive(PartialEq, Eq, Clone, Copy, Debug)]
pub struct RelativeNextIndex;

impl Offset for RelativeNextIndex {
    open spec fn delta() -> int {
        1
    }

    fn exec_delta() -> (r: i64) {
        1
    }
}

/// Marker for reference maps: the causal predecessor of an entry defaults to
/// the previous entry in log order.
#[derive(PartialEq, Eq, Clone, Copy, Debug)]
pub struct RelativeReference;

impl Offset for RelativeReference {
    open spec fn delta() -> int {
        -1
    }

    fn exec_delta() -> (r: i64) {
        -1
    }
}

/// Relies on `PhantomData`'s `Clone`: cloning a zero-sized marker returns a
/// zero-sized marker; no contract is needed.
pub assume_specification<T: core::marker::PointeeSized>[ <core::marker::PhantomData<T> as Clone>::clone ](
    v: &core::marker::PhantomData<T>,
) -> core::marker::PhantomData<T>;

/// The spec-level value of an optional log index.
pub open spec fn opt_index(o: Option<LogIndex>) -> Option<int> {
    match o {
        Some(i) => Some(i.0 as int),
        None => None,
    }
}

} // verus!
