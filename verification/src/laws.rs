use vstd::prelude::*;
use crate::change::Change;
use crate::weave::Weave;

verus! {

/// Idempotence: weaving a change in records its timestamp, so a second
/// application of the same op finds the timestamp present and — per
/// [`Chronofold::apply`](crate::Chronofold::apply)'s contract — is rejected
/// as `ExistingTimestamp` with the replica unchanged.
pub proof fn lemma_apply_once_makes_duplicate<T>(w: Weave<T>, id: (int, int), reference: Option<int>, change: Change<T>)
    requires
        w.wf(),
        !w.has_ts(id),
        0 <= id.0 <= w.len(),
        0 <= id.1 <= u64::MAX as int,
        match reference {
            Some(r) => 0 <= r < w.len(),
            None => true,
        },
        change is Delete ==> reference is Some,
        change is Root ==> reference is None,
    ensures
        w.weave_insert(id, reference, change).has_ts(id),
{
    let wn = w.weave_insert(id, reference, change);
    assert(wn.ts(w.len()) == id);
}

/// The log is append-only: weaving a change in never mutates an existing
/// entry; only a tombstone bit may flip, from clear to set, and only on the
/// entry a delete targets.
pub proof fn lemma_append_only<T>(w: Weave<T>, id: (int, int), reference: Option<int>, change: Change<T>)
    requires
        w.wf(),
        match reference {
            Some(r) => 0 <= r < w.len(),
            None => true,
        },
        change is Delete ==> reference is Some,
    ensures
        ({
            let wn = w.weave_insert(id, reference, change);
            &&& wn.log.len() == w.log.len() + 1
            &&& forall|i: int| 0 <= i < w.log.len() ==> #[trigger] wn.log[i] == w.log[i]
            &&& forall|i: int| 0 <= i < w.log.len() && #[trigger] w.deleted[i] ==> wn.deleted[i]
            &&& forall|i: int| 0 <= i < w.log.len() && #[trigger] wn.deleted[i] ==>
                    w.deleted[i] || (change is Delete && reference == Some(i))
        }),
{
    let wn = w.weave_insert(id, reference, change);
    assert forall|i: int| 0 <= i < w.log.len() implies #[trigger] wn.log[i] == w.log[i] by {
        assert(wn.log == w.log.push(change));
    }
}

/// Causal walk totality: the causal order of a well-formed replica visits
/// every log index exactly once. Together with the replica invariant — the
/// next-index map maps each entry of the causal order to the one after it —
/// iterating `next` from the first entry visits every log index exactly
/// once.
pub proof fn lemma_causal_walk_total<T>(w: Weave<T>)
    requires
        w.wf(),
    ensures
        w.order.len() == w.len(),
        forall|i: int| 0 <= i < w.len() ==> w.order.contains(i),
        forall|k1: int, k2: int| 0 <= k1 < k2 < w.len()
            ==> #[trigger] w.order[k1] != #[trigger] w.order[k2],
        w.order[0] == 0,
{
}

/// Timestamp round-trip: the timestamp of the entry at a local log index
/// identifies exactly that index, so `log_index(timestamp(i)) == Some(i)`.
pub proof fn lemma_timestamp_roundtrip<T>(w: Weave<T>, i: int)
    requires
        w.wf(),
        0 <= i < w.len(),
    ensures
        w.has_ts(w.ts(i)),
        w.ts_index(w.ts(i)) == i,
{
    w.lemma_ts_index_unique(w.ts(i), i);
}

/// Version monotonicity: after weaving in a change, the version covers the
/// change's originating index, and no author's recorded index decreases.
pub proof fn lemma_version_monotone<T>(w: Weave<T>, id: (int, int), reference: Option<int>, change: Change<T>)
    ensures
        ({
            let wn = w.weave_insert(id, reference, change);
            &&& wn.version.contains_key(id.1)
            &&& wn.version[id.1] >= id.0
            &&& forall|a: int| w.version.contains_key(a)
                    ==> wn.version.contains_key(a) && wn.version[a] >= w.version[a]
        }),
{
}

/// The version of a well-formed replica covers every applied entry.
pub proof fn lemma_version_covers_log<T>(w: Weave<T>, i: int)
    requires
        w.wf(),
        0 <= i < w.len(),
    ensures
        w.version.contains_key(w.authors[i]),
        w.version[w.authors[i]] >= w.origs[i],
{
}


/// Appending behaves like `Vec::push`: a local insert after the last visible
/// element (or after the root of an element-free replica) extends the
/// visible sequence by exactly that element.
///
/// The one excluded input is a replica whose root entry was tombstoned by a
/// delete op: there the new element is woven relative to the tombstones.
pub proof fn lemma_push_back_appends<T>(w: Weave<T>, author: int, value: T)
    requires
        w.wf(),
        0 <= author <= u64::MAX as int,
        w.visible().len() == 0 ==> !w.deleted[0],
    ensures
        ({
            let anchor = if w.visible().len() > 0 {
                w.visible().last().1
            } else {
                0int
            };
            let wn = w.weave_local(author, w.reparent(anchor), seq![Change::Insert(value)]);
            &&& wn.visible() == w.visible().push((value, w.len()))
            &&& wn.elements() == w.elements().push(value)
        }),
{
    let n = w.len();
    let anchor = if w.visible().len() > 0 {
        w.visible().last().1
    } else {
        0int
    };
    if w.visible().len() > 0 {
        crate::weave::lemma_vp_last_position(w, 1, n);
        let j = choose|j: int| 1 <= j < n && #[trigger] w.order[j] == w.visible_pairs(1, n).last().1
            && w.visible_at(w.order[j])
            && (forall|y: int| j < y < n ==> !w.visible_at(#[trigger] w.order[y]));
        assert(w.order[j] == anchor);
        assert(0 <= anchor < n);
        assert(!w.deleted[anchor]);
    }
    w.lemma_no_delete_children(anchor, n);
    assert(w.reparent(anchor) == anchor);
    let changes = seq![Change::Insert(value)];
    let wn = w.weave_insert((n, author), Some(anchor), Change::Insert(value));
    assert(changes.drop_first() =~= Seq::<Change<T>>::empty());
    assert(changes[0] == Change::Insert(value));
    assert(changes.len() == 1);
    assert(w.weave_local(author, anchor, changes)
        == wn.weave_local(author, n, changes.drop_first()));
    assert(wn.weave_local(author, n, changes.drop_first()) == wn);
    w.lemma_local_insert_visible(anchor, author, value);
    assert(wn.elements() =~= w.elements().push(value));
}

} // verus!
