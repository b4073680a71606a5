use vstd::prelude::*;
use crate::index::LogIndex;

verus! {

/// An ordered pair of the author's log index and the author.
///
/// The lexicographic order of timestamps forms an arbitrary total order that
/// is consistent with cause-effect ordering: if a timestamp is greater than
/// another, its associated event either happened after the other or was
/// concurrent.
#[derive(PartialEq, Eq, PartialOrd, Ord, Clone, Copy, Debug, Structural)]
pub struct Timestamp(pub LogIndex, pub u64);

impl Timestamp {
    /// The timestamp as a pair of mathematical integers.
    pub open spec fn key(self) -> (int, int) {
        (self.0.0 as int, self.1 as int)
    }
}

/// Lexicographic order on timestamp keys.
pub open spec fn ts_lt(a: (int, int), b: (int, int)) -> bool {
    a.0 < b.0 || (a.0 == b.0 && a.1 < b.1)
}

/// Compares two timestamps lexicographically.
pub fn timestamp_lt(a: &Timestamp, b: &Timestamp) -> (r: bool)
    ensures
        r <==> ts_lt(a.key(), b.key()),
{
    a.0.0 < b.0.0 || (a.0.0 == b.0.0 && a.1 < b.1)
}

/// An operation: the unit of change in the distributed context.
///
/// Ops are independent of the subjective orders in the chronofolds' logs.
/// Different authors exchange ops to keep their local replicas synchronized.
#[derive(PartialEq, Eq, Clone, Copy, Debug)]
pub struct Op<T> {
    pub id: Timestamp,
    pub payload: OpPayload<T>,
}

impl<T> Op<T> {
    pub fn new(id: Timestamp, payload: OpPayload<T>) -> (r: Op<T>)
        ensures
            r.id == id,
            r.payload == payload,
    {
        Op { id, payload }
    }

    pub fn root(id: Timestamp) -> (r: Op<T>)
        ensures
            r.id == id,
            r.payload is Root,
    {
        Op { id, payload: OpPayload::Root }
    }

    pub fn insert(id: Timestamp, reference: Option<Timestamp>, value: T) -> (r: Op<T>)
        ensures
            r.id == id,
            r.payload == OpPayload::Insert(reference, value),
    {
        Op { id, payload: OpPayload::Insert(reference, value) }
    }

    pub fn delete(id: Timestamp, reference: Timestamp) -> (r: Op<T>)
        ensures
            r.id == id,
            r.payload == OpPayload::<T>::Delete(reference),
    {
        Op { id, payload: OpPayload::Delete(reference) }
    }
}

impl<T: Copy> Op<&T> {
    /// Maps an `Op<&T>` to an `Op<T>` by copying the payload.
    pub fn cloned(self) -> (r: Op<T>)
        ensures
            r.id == self.id,
            match (self.payload, r.payload) {
                (OpPayload::Root, OpPayload::Root) => true,
                (OpPayload::Insert(t, x), OpPayload::Insert(u, y)) => t == u && y == *x,
                (OpPayload::Delete(t), OpPayload::Delete(u)) => t == u,
                _ => false,
            },
    {
        Op { id: self.id, payload: self.payload.cloned() }
    }
}

/// The payload of an operation.
///
/// Ops don't contain `Change<T>` directly, as changes can refer to other
/// entries by log index, which is only meaningful within the local replica.
/// The payload replaces such references by timestamps.
#[derive(PartialEq, Eq, Clone, Copy, Debug)]
pub enum OpPayload<T> {
    Root,
    Insert(Option<Timestamp>, T),
    Delete(Timestamp),
}

impl<T: Copy> OpPayload<T> {
    /// The reference timestamp of the payload, if any.
    pub fn reference(&self) -> (r: Option<Timestamp>)
        ensures
            r == self.spec_reference(),
    {
        match self {
            OpPayload::Root => None,
            OpPayload::Insert(reference, _) => *reference,
            OpPayload::Delete(reference) => Some(*reference),
        }
    }
}

impl<T> OpPayload<T> {
    /// The reference timestamp of the payload, if any.
    pub open spec fn spec_reference(self) -> Option<Timestamp> {
        match self {
            OpPayload::Root => None,
            OpPayload::Insert(reference, _) => reference,
            OpPayload::Delete(reference) => Some(reference),
        }
    }
}

impl<T: Copy> OpPayload<&T> {
    /// Maps an `OpPayload<&T>` to an `OpPayload<T>` by copying the value.
    pub fn cloned(self) -> (r: OpPayload<T>)
        ensures
            match (self, r) {
                (OpPayload::Root, OpPayload::Root) => true,
                (OpPayload::Insert(t, x), OpPayload::Insert(u, y)) => t == u && y == *x,
                (OpPayload::Delete(t), OpPayload::Delete(u)) => t == u,
                _ => false,
            },
    {
        match self {
            OpPayload::Root => OpPayload::Root,
            OpPayload::Insert(reference, t) => OpPayload::Insert(reference, *t),
            OpPayload::Delete(reference) => OpPayload::Delete(reference),
        }
    }
}

} // verus!
