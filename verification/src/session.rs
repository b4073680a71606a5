use vstd::prelude::*;
use crate::change::Change;
use crate::distributed::{Timestamp, Op};
use crate::index::{LogIndex, IndexRange};
use crate::iter::{index_before_spec, op_at, start_pos, end_pos, lemma_range_pos_bounds};
use crate::weave::{Weave, insert_changes_of};
use crate::Chronofold;

verus! {

/// The log indices of a sequence of visible pairs.
pub open spec fn pair_indices<T>(vp: Seq<(T, int)>) -> Seq<int> {
    Seq::new(vp.len(), |i: int| vp[i].1)
}

/// The model after removing each of the entries in `ids`, in order: one
/// local delete per entry.
pub open spec fn remove_all<T>(w: Weave<T>, author: int, ids: Seq<int>) -> Weave<T>
    decreases ids.len(),
{
    if ids.len() == 0 {
        w
    } else {
        remove_all(w.weave_local(author, ids[0], seq![Change::Delete]), author, ids.drop_first())
    }
}

/// The entry after which a splice over `range` inserts: the causal
/// predecessor of the range's start, or the root.
pub open spec fn splice_anchor<T>(w: Weave<T>, range: IndexRange) -> int {
    let before = match range {
        IndexRange::Full => None,
        IndexRange::To(_) => None,
        IndexRange::ToIncluding(_) => None,
        IndexRange::From(a) => index_before_spec(w, a),
        IndexRange::Between(a, _) => index_before_spec(w, a),
        IndexRange::BetweenIncluding(a, _) => index_before_spec(w, a),
    };
    match before {
        Some(i) => i,
        None => 0,
    }
}

/// The model after replacing the visible elements of `range` by `values`:
/// every live element of the range is removed, then the values are inserted
/// after the last element preceding the range (reparented past tombstones).
pub open spec fn splice_model<T>(w: Weave<T>, author: int, range: IndexRange, values: Seq<T>) -> Weave<T> {
    let removed = pair_indices(w.visible_pairs(start_pos(w, range), end_pos(w, range)));
    let w1 = remove_all(w, author, removed);
    w1.weave_local(author, w1.reparent(splice_anchor(w, range)), insert_changes_of(values))
}

/// The ops among log indices `[from, k)` authored by `author`.
pub open spec fn session_ops_upto<T>(w: Weave<T>, from: int, author: int, k: int) -> Seq<Op<T>>
    decreases k - from,
{
    if k <= from {
        Seq::empty()
    } else {
        let rest = session_ops_upto(w, from, author, k - 1);
        if w.authors[k - 1] == author {
            rest.push(op_at(w, k - 1))
        } else {
            rest
        }
    }
}

/// An editing session tied to one author.
///
/// `Session` provides functions you might know from `Vec`. Under the hood it
/// appends changes to the chronofold's log. A session takes the chronofold
/// over for its lifetime — so there is always just one session per
/// chronofold — and hands it back from [`Session::finish`].
pub struct Session<T> {
    chronofold: Chronofold<T>,
    author: u64,
    first_index: LogIndex,
}

impl<T: Copy> Chronofold<T> {
    /// Creates an editing session for a single author, taking the replica
    /// over for the session's lifetime.
    pub fn session(self, author: u64) -> (r: Session<T>)
        requires
            self.inv(),
        ensures
            r.inv(),
            r.fold() == self.weave(),
            r.sauthor() == author,
            r.sfirst() == self.weave().len(),
    {
        Session::new(author, self)
    }
}

impl<T: Copy> Session<T> {
    /// The model of the replica being edited.
    pub closed spec fn fold(self) -> Weave<T> {
        self.chronofold.weave()
    }

    /// The session's author.
    pub closed spec fn sauthor(self) -> u64 {
        self.author
    }

    /// The log length at the session's construction.
    pub closed spec fn sfirst(self) -> int {
        self.first_index.0 as int
    }

    /// The session's invariant.
    pub closed spec fn inv(self) -> bool {
        &&& self.chronofold.inv()
    &&& 0 <= self.first_index.0 as int <= self.chronofold.weave().len()
    }

    /// Creates an editing session for a single author.
    pub fn new(author: u64, chronofold: Chronofold<T>) -> (r: Session<T>)
        requires
            chronofold.inv(),
        ensures
            r.inv(),
            r.fold() == chronofold.weave(),
            r.sauthor() == author,
            r.sfirst() == chronofold.weave().len(),
    {
        let first_index = chronofold.next_log_index();
        Session { chronofold, author, first_index }
    }

    /// Ends the session, handing the replica back.
    pub fn finish(self) -> (r: Chronofold<T>)
        requires
            self.inv(),
        ensures
            r.inv(),
            r.weave() == self.fold(),
    {
        self.chronofold
    }

    /// Inserts an element after the element with log index `index` and
    /// returns the new element's log index.
    ///
    /// If `index` was removed, the new element is inserted after the
    /// tombstones, preserving the intent "insert after the visible element
    /// at this position" under concurrent removal.
    pub fn insert_after(&mut self, index: LogIndex, value: T) -> (r: LogIndex)
        requires
            old(self).inv(),
            (index.0 as int) < old(self).fold().len(),
        ensures
            final(self).inv(),
            final(self).fold() == old(self).fold().weave_local(
                old(self).sauthor() as int,
                old(self).fold().reparent(index.0 as int),
                seq![Change::Insert(value)]),
            final(self).sauthor() == old(self).sauthor(),
            final(self).sfirst() == old(self).sfirst(),
            r.0 as int == old(self).fold().len(),
            // inserting after an entry without tombstone splits the visible
            // sequence right there
            !old(self).fold().deleted[index.0 as int] ==> final(self).fold().visible()
                == old(self).fold().visible_pairs(1, old(self).fold().pos(index.0 as int) + 1)
                    + seq![(value, old(self).fold().len())]
                    + old(self).fold().visible_pairs(
                        old(self).fold().pos(index.0 as int) + 1, old(self).fold().len()),
    {
        let ghost w = self.chronofold.weave();
        proof {
            self.chronofold.lemma_inv_wf();
        }
        let reference = self.chronofold.reparent(index);
        let mut changes: Vec<Change<T>> = Vec::new();
        changes.push(Change::Insert(value));
        proof {
            assert(changes@ =~= seq![Change::<T>::Insert(value)]);
        }
        let r = match self.chronofold.apply_local_changes(self.author, reference, changes) {
            Some(i) => i,
            None => {
                proof {
                    assert(false);
                }
                LogIndex(0)
            },
        };
        proof {
            if !w.deleted[index.0 as int] {
                w.lemma_no_delete_children(index.0 as int, w.len());
                assert(w.reparent(index.0 as int) == index.0 as int);
                let cs = seq![Change::<T>::Insert(value)];
                let wn = w.weave_insert((w.len(), self.author as int), Some(index.0 as int),
                    Change::Insert(value));
                assert(cs.drop_first() =~= Seq::<Change<T>>::empty());
                assert(w.weave_local(self.author as int, index.0 as int, cs)
                    == wn.weave_local(self.author as int, w.len(), cs.drop_first()));
                assert(wn.weave_local(self.author as int, w.len(), cs.drop_first()) == wn);
                w.lemma_local_insert_splits(index.0 as int, self.author as int, value);
            }
        }
        r
    }

    /// Removes the element with log index `index` from the chronofold.
    ///
    /// This only marks the element as deleted: the log itself is extended by
    /// a `Change::Delete`.
    pub fn remove(&mut self, index: LogIndex)
        requires
            old(self).inv(),
            (index.0 as int) < old(self).fold().len(),
        ensures
            final(self).inv(),
            final(self).fold() == old(self).fold().weave_local(
                old(self).sauthor() as int,
                index.0 as int,
                seq![Change::Delete]),
            final(self).sauthor() == old(self).sauthor(),
            final(self).sfirst() == old(self).sfirst(),
            // removing hides exactly the targeted element
            final(self).fold().visible() == old(self).fold().visible_pairs_except(
                index.0 as int, 1, old(self).fold().len()),
            // a visible element disappears from its place in the sequence
            old(self).fold().visible_at(index.0 as int) ==> final(self).fold().visible()
                == old(self).fold().visible_pairs(1, old(self).fold().pos(index.0 as int))
                    + old(self).fold().visible_pairs(
                        old(self).fold().pos(index.0 as int) + 1, old(self).fold().len()),
    {
        let ghost w = self.chronofold.weave();
        let mut changes: Vec<Change<T>> = Vec::new();
        changes.push(Change::Delete);
        proof {
            assert(changes@ =~= seq![Change::<T>::Delete]);
        }
        self.chronofold.apply_local_changes(self.author, index, changes);
        proof {
            let cs = seq![Change::<T>::Delete];
            let wn = w.weave_insert((w.len(), self.author as int), Some(index.0 as int), Change::Delete);
            assert(cs.drop_first() =~= Seq::<Change<T>>::empty());
            assert(w.weave_local(self.author as int, index.0 as int, cs)
                == wn.weave_local(self.author as int, w.len(), cs.drop_first()));
            assert(wn.weave_local(self.author as int, w.len(), cs.drop_first()) == wn);
            w.lemma_delete_hides(index.0 as int, self.author as int);
            if w.visible_at(index.0 as int) {
                self.chronofold.lemma_inv_wf();
                w.lemma_pos(index.0 as int);
                let px = w.pos(index.0 as int);
                assert(px >= 1) by {
                    if px == 0 {
                        assert(w.order[0] == 0);
                        assert(w.log[0int] is Root);
                    }
                }
                w.lemma_vp_split_at(index.0 as int, 1, w.len(), px);
            }
        }
    }

    /// Appends an element to the back of the chronofold and returns the new
    /// element's log index.
    pub fn push_back(&mut self, value: T) -> (r: LogIndex)
        requires
            old(self).inv(),
        ensures
            final(self).inv(),
            ({
                let w = old(self).fold();
                let anchor = if w.visible().len() > 0 {
                    w.visible().last().1
                } else {
                    0int
                };
                final(self).fold() == w.weave_local(
                    old(self).sauthor() as int,
                    w.reparent(anchor),
                    seq![Change::Insert(value)])
            }),
            final(self).sauthor() == old(self).sauthor(),
            final(self).sfirst() == old(self).sfirst(),
            r.0 as int == old(self).fold().len(),
            // pushing appends: the visible sequence gains exactly the new
            // element, unless the root entry itself was tombstoned
            (old(self).fold().visible().len() > 0 || !old(self).fold().deleted[0]) ==>
                final(self).fold().visible() == old(self).fold().visible().push(
                    (value, old(self).fold().len())),
    {
        let ghost w = self.chronofold.weave();
        let visible = self.chronofold.iter();
        let anchor = if visible.len() > 0 {
            let (_, i) = visible[visible.len() - 1];
            proof {
                assert(visible@[visible@.len() - 1].1.0 as int == w.visible().last().1);
                self.chronofold.lemma_inv_wf();
                crate::weave::lemma_visible_pair_indices_in_range(w, 1, w.len());
            }
            i
        } else {
            LogIndex(0)
        };
        let r = self.insert_after(anchor, value);
        proof {
            if w.visible().len() > 0 || !w.deleted[0] {
                crate::laws::lemma_push_back_appends(w, self.author as int, value);
            }
        }
        r
    }

    /// Prepends an element to the chronofold and returns the new element's
    /// log index.
    pub fn push_front(&mut self, value: T) -> (r: LogIndex)
        requires
            old(self).inv(),
        ensures
            final(self).inv(),
            final(self).fold() == old(self).fold().weave_local(
                old(self).sauthor() as int,
                old(self).fold().reparent(0),
                seq![Change::Insert(value)]),
            final(self).sauthor() == old(self).sauthor(),
            final(self).sfirst() == old(self).sfirst(),
            r.0 as int == old(self).fold().len(),
            // prepending puts the new element first, unless the root entry
            // itself was tombstoned by a delete op
            !old(self).fold().deleted[0] ==> final(self).fold().visible()
                == seq![(value, old(self).fold().len())] + old(self).fold().visible(),
    {
        let ghost w = self.chronofold.weave();
        let r = self.insert_after(LogIndex(0), value);
        proof {
            self.chronofold.lemma_inv_wf();
            if !w.deleted[0] {
                w.lemma_pos(0);
                assert(w.pos(0) == 0) by {
                    if w.pos(0) != 0 {
                        assert(w.order[w.pos(0)] != w.order[0]);
                    }
                }
                assert(w.visible_pairs(1, 1) =~= Seq::<(T, int)>::empty());
                assert(Seq::<(T, int)>::empty() + seq![(value, w.len())] =~= seq![(value, w.len())]);
            }
        }
        r
    }

    /// Replaces the visible elements of `range` (interpreted in causal
    /// order) with the given values: the range's live elements are removed,
    /// then the values are inserted after the last element preceding the
    /// range. Returns the log index of the last inserted element, if any.
    pub fn splice(&mut self, range: IndexRange, values: Vec<T>) -> (r: Option<LogIndex>)
        requires
            old(self).inv(),
        ensures
            final(self).inv(),
            final(self).fold() == splice_model(
                old(self).fold(), old(self).sauthor() as int, range, values@),
            final(self).sauthor() == old(self).sauthor(),
            final(self).sfirst() == old(self).sfirst(),
            r is Some <==> values@.len() > 0,
    {
        let ghost w0 = self.chronofold.weave();
        let ghost author = self.author as int;
        let last_idx = match range {
            IndexRange::Full => LogIndex(0),
            IndexRange::To(_) => LogIndex(0),
            IndexRange::ToIncluding(_) => LogIndex(0),
            IndexRange::From(a) => self.anchor_of(a),
            IndexRange::Between(a, _) => self.anchor_of(a),
            IndexRange::BetweenIncluding(a, _) => self.anchor_of(a),
        };
        proof {
            assert(last_idx.0 as int == splice_anchor(w0, range));
        }
        let to_remove = self.chronofold.iter_range(range);
        let ghost ids = pair_indices(w0.visible_pairs(start_pos(w0, range), end_pos(w0, range)));
        proof {
            self.chronofold.lemma_inv_wf();
            lemma_range_pos_bounds(w0, range);
            crate::weave::lemma_visible_pair_indices_in_range(w0, start_pos(w0, range), end_pos(w0, range));
            assert(ids.skip(0) =~= ids);
        }
        let mut i: usize = 0;
        while i < to_remove.len()
            invariant
                self.inv(),
                self.author as int == author,
                self.first_index == old(self).first_index,
                0 <= i <= to_remove@.len(),
                to_remove@.len() == ids.len(),
                forall|x: int| 0 <= x < ids.len() ==> (#[trigger] to_remove@[x]).1.0 as int == ids[x],
                forall|x: int| 0 <= x < ids.len() ==> 0 <= #[trigger] ids[x] < w0.len(),
                w0.len() <= self.fold().len(),
                remove_all(w0, author, ids) == remove_all(self.fold(), author, ids.skip(i as int)),
                old(self).sfirst() == self.sfirst(),
            decreases to_remove@.len() - i,
        {
            let (_, idx) = to_remove[i];
            proof {
                assert(idx.0 as int == ids[i as int]);
                assert(ids.skip(i as int)[0] == ids[i as int]);
            }
            let mut changes: Vec<Change<T>> = Vec::new();
            changes.push(Change::Delete);
            proof {
                assert(changes@ =~= seq![Change::<T>::Delete]);
            }
            self.chronofold.apply_local_changes(self.author, idx, changes);
            proof {
                assert(ids.skip(i as int).drop_first() =~= ids.skip(i as int + 1));
            }
            i += 1;
        }
        proof {
            assert(ids.skip(i as int) =~= Seq::<int>::empty());
            assert(remove_all(w0, author, ids) == self.fold());
        }
        // insert the replacement values after the anchor, past tombstones
        let reference = self.chronofold.reparent(last_idx);
        let mut changes: Vec<Change<T>> = Vec::new();
        let mut k: usize = 0;
        while k < values.len()
            invariant
                0 <= k <= values@.len(),
                changes@.len() == k,
                forall|x: int| 0 <= x < k ==> #[trigger] changes@[x] == Change::Insert(values@[x]),
            decreases values@.len() - k,
        {
            changes.push(Change::Insert(values[k]));
            k += 1;
        }
        proof {
            assert(changes@ =~= insert_changes_of(values@));
        }
        self.chronofold.apply_local_changes(self.author, reference, changes)
    }

    /// The splice anchor for a range starting at `a`.
    fn anchor_of(&self, a: LogIndex) -> (r: LogIndex)
        requires
            self.inv(),
        ensures
            r.0 as int == match index_before_spec(self.fold(), a) {
                Some(i) => i,
                None => 0int,
            },
            (r.0 as int) < self.fold().len(),
    {
        proof {
            self.chronofold.lemma_inv_wf();
        }
        match self.chronofold.index_before(a) {
            Some(i) => i,
            None => LogIndex(0),
        }
    }

    /// Extends the chronofold with the given values; returns the log index
    /// of the last inserted element, if any.
    pub fn extend(&mut self, values: Vec<T>) -> (r: Option<LogIndex>)
        requires
            old(self).inv(),
        ensures
            final(self).inv(),
            ({
                let oob = LogIndex(old(self).fold().len() as usize);
                final(self).fold() == splice_model(
                    old(self).fold(), old(self).sauthor() as int,
                    IndexRange::Between(oob, oob), values@)
            }),
            final(self).sauthor() == old(self).sauthor(),
            final(self).sfirst() == old(self).sfirst(),
            r is Some <==> values@.len() > 0,
            // extending appends: unless the causal tail is tombstoned, the
            // visible sequence gains exactly the new values, in order
            !old(self).fold().deleted[old(self).fold().order[old(self).fold().len() - 1]] ==>
                final(self).fold().visible() == old(self).fold().visible() + Seq::new(
                    values@.len(), |i: int| (values@[i], old(self).fold().len() + i)),
    {
        let ghost w = self.chronofold.weave();
        let ghost vals = values@;
        let oob = self.chronofold.next_log_index();
        let r = self.splice(IndexRange::Between(oob, oob), values);
        proof {
            self.chronofold.lemma_inv_wf();
            let n = w.len();
            let range = IndexRange::Between(oob, oob);
            assert(start_pos(w, range) == n);
            assert(end_pos(w, range) == n);
            assert(w.visible_pairs(n, n) =~= Seq::<(T, int)>::empty());
            assert(pair_indices(w.visible_pairs(n, n)) =~= Seq::<int>::empty());
            assert(remove_all(w, self.author as int, pair_indices(w.visible_pairs(n, n))) == w);
            w.lemma_pos(n - 1);
            assert(index_before_spec(w, oob) == Some(w.order[n - 1]));
            assert(splice_anchor(w, range) == w.order[n - 1]);
            let tail = w.order[n - 1];
            if !w.deleted[tail] {
                assert(0 <= tail < n);
                w.lemma_no_delete_children(tail, n);
                assert(w.reparent(tail) == tail);
                w.lemma_local_batch_appends(self.author as int, tail, vals);
            }
        }
        r
    }

    /// Clears the chronofold, removing (tombstoning) all elements.
    pub fn clear(&mut self)
        requires
            old(self).inv(),
        ensures
            final(self).inv(),
            final(self).fold() == remove_all(
                old(self).fold(), old(self).sauthor() as int,
                pair_indices(old(self).fold().visible())),
            final(self).sauthor() == old(self).sauthor(),
            final(self).sfirst() == old(self).sfirst(),
            // afterwards, nothing is visible
            final(self).fold().visible() == Seq::<(T, int)>::empty(),
    {
        let ghost w0 = self.chronofold.weave();
        let ghost author = self.author as int;
        let to_remove = self.chronofold.iter();
        let ghost ids = pair_indices(w0.visible());
        proof {
            self.chronofold.lemma_inv_wf();
            crate::weave::lemma_visible_pair_indices_in_range(w0, 1, w0.len());
            assert(ids.skip(0) =~= ids);
            assert(w0.visible().skip(0) =~= w0.visible());
        }
        let mut i: usize = 0;
        while i < to_remove.len()
            invariant
                self.inv(),
                self.author as int == author,
                self.first_index == old(self).first_index,
                0 <= i <= to_remove@.len(),
                to_remove@.len() == ids.len(),
                ids.len() == w0.visible().len(),
                forall|x: int| 0 <= x < ids.len() ==> (#[trigger] to_remove@[x]).1.0 as int == ids[x],
                forall|x: int| 0 <= x < ids.len() ==> 0 <= #[trigger] ids[x] < w0.len(),
                forall|x: int| 0 <= x < ids.len() ==> #[trigger] w0.visible()[x].1 == ids[x],
                w0.len() <= self.fold().len(),
                remove_all(w0, author, ids) == remove_all(self.fold(), author, ids.skip(i as int)),
                self.fold().visible() == w0.visible().skip(i as int),
                old(self).sfirst() == self.sfirst(),
            decreases to_remove@.len() - i,
        {
            let ghost wi = self.fold();
            let (_, idx) = to_remove[i];
            proof {
                assert(idx.0 as int == ids[i as int]);
                assert(ids.skip(i as int)[0] == ids[i as int]);
                assert(w0.visible().skip(i as int)[0] == w0.visible()[i as int]);
                assert(wi.visible()[0].1 == ids[i as int]);
            }
            let mut changes: Vec<Change<T>> = Vec::new();
            changes.push(Change::Delete);
            proof {
                assert(changes@ =~= seq![Change::<T>::Delete]);
            }
            self.chronofold.apply_local_changes(self.author, idx, changes);
            proof {
                assert(ids.skip(i as int).drop_first() =~= ids.skip(i as int + 1));
                self.chronofold.lemma_inv_wf();
                let cs = seq![Change::<T>::Delete];
                let wn = wi.weave_insert((wi.len(), author), Some(idx.0 as int), Change::Delete);
                assert(cs.drop_first() =~= Seq::<Change<T>>::empty());
                assert(wi.weave_local(author, idx.0 as int, cs)
                    == wn.weave_local(author, wi.len(), cs.drop_first()));
                assert(wn.weave_local(author, wi.len(), cs.drop_first()) == wn);
                wi.lemma_delete_first_visible(author);
                assert(self.fold().visible() == wi.visible().drop_first());
                assert(wi.visible().drop_first() =~= w0.visible().skip(i as int + 1));
            }
            i += 1;
        }
        proof {
            assert(ids.skip(i as int) =~= Seq::<int>::empty());
            assert(w0.visible().skip(i as int) =~= Seq::<(T, int)>::empty());
        }
    }

    /// Materialises a new root entry and returns its log index.
    pub fn create_root(&mut self) -> (r: LogIndex)
        requires
            old(self).inv(),
        ensures
            final(self).inv(),
            final(self).fold() == old(self).fold().weave_insert(
                (old(self).fold().len(), old(self).sauthor() as int),
                None,
                Change::Root),
            final(self).sauthor() == old(self).sauthor(),
            final(self).sfirst() == old(self).sfirst(),
            r.0 as int == old(self).fold().len(),
    {
        let n = self.chronofold.next_log_index();
        let id = Timestamp(n, self.author);
        proof {
            let w = self.chronofold.weave();
            self.chronofold.lemma_inv_wf();
            if w.has_ts(id.key()) {
                let x = w.ts_index(id.key());
                assert(w.ts(x) == id.key());
                assert(w.origs[x] <= x);
            }
        }
        self.chronofold.apply_change(id, None, Change::Root)
    }

    /// Returns the ops created in this session, in log order.
    pub fn iter_ops(&self) -> (r: Vec<Op<T>>)
        requires
            self.inv(),
        ensures
            r@ == session_ops_upto(
                self.fold(), self.sfirst(), self.sauthor() as int, self.fold().len()),
    {
        let ghost w = self.chronofold.weave();
        proof {
            self.chronofold.lemma_inv_wf();
        }
        let n = self.chronofold.log_size();
        let mut r: Vec<Op<T>> = Vec::new();
        let mut k = self.first_index.0;
        while k < n
            invariant
                self.inv(),
                w == self.fold(),
                n as int == w.len(),
                self.sfirst() <= k as int <= n as int || k == self.first_index.0,
                self.first_index.0 <= k,
                r@ == session_ops_upto(w, self.sfirst(), self.sauthor() as int, k as int),
            decreases n - k,
        {
            let op = self.chronofold.op_for(LogIndex(k));
            if op.id.1 == self.author {
                proof {
                    assert(op.id.1 as int == w.authors[k as int]);
                }
                r.push(op);
            } else {
                proof {
                    assert(op.id.1 as int == w.authors[k as int]);
                }
            }
            k += 1;
        }
        r
    }
}

} // verus!
