//! A chronofold: a conflict-free replicated data structure (a CRDT) for
//! versioned sequences.
//!
//! A chronofold can be regarded either as a log of changes or as a sequence
//! of elements:
//!
//! - A *log index* is a 0-based index in the log of changes. These indices
//!   are stable (they stay the same after edits), but are subjective for
//!   each author.
//! - An *element* is a visible (not yet deleted) value of type `T`.
//! - *Log order* refers to the chronological order in which changes were
//!   added to the log.
//! - *Causal order* refers to the order of the linked list that the
//!   chronofold maintains over the log: traversing it yields the sequence in
//!   its current visible-plus-tombstoned order.
//!
//! A chronofold is edited either by applying [`Op`]s received from other
//! replicas, or by opening a [`Session`] which batches local edits.

use vstd::prelude::*;

mod change;
mod distributed;
mod error;
mod index;
mod iter;
mod laws;
mod offsetmap;
mod rangemap;
mod session;
mod version;
mod weave;

pub use crate::change::Change;
pub use crate::distributed::{Timestamp, Op, OpPayload, ts_lt, timestamp_lt};
pub use crate::error::ChronofoldError;
pub use crate::index::{LogIndex, IndexRange, Offset, RelativeNextIndex, RelativeReference, opt_index};
pub use crate::offsetmap::OffsetMap;
pub use crate::rangemap::{RangeFromMap, RangeKey, ValueEq};
pub use crate::iter::{entry_timestamp, op_at, ops_in, newer_than, newer_ops_upto, start_pos, end_pos, index_before_spec, subtree_seq, lemma_range_pos_bounds, lemma_visible_pairs_skip_front, lemma_ops_in_index};
pub use crate::session::{Session, pair_indices, remove_all, splice_anchor, splice_model, session_ops_upto};
pub use crate::error::{digit_char, decimal, timestamp_text, timestamp_str};
pub use crate::version::Version;
pub use crate::weave::{Weave, insert_changes_of, lemma_vp_invisible_suffix, lemma_vp_empty_invisible, lemma_vp_last_position, lemma_vp_congruent, lemma_vp_concat, lemma_vp_becomes_vpe, lemma_vp_becomes_vpe_shifted, lemma_visible_pair_indices_in_range};
pub use crate::laws::{lemma_apply_once_makes_duplicate, lemma_append_only, lemma_causal_walk_total, lemma_timestamp_roundtrip, lemma_version_monotone, lemma_version_covers_log};

verus! {

/// A conflict-free replicated data structure for versioned sequences.
///
/// The log of changes is append-only; all edits either append an entry or
/// flip a tombstone bit. The causal linked list is kept in compressed
/// secondary maps; the ghost `order` field carries the same linked list as a
/// sequence of log indices, and the invariant ties the two together.
#[derive(Clone)]
pub struct Chronofold<T> {
    log: Vec<Change<T>>,
    deleted: Vec<bool>,
    root: LogIndex,
    version: Version,
    next_indices: OffsetMap<LogIndex, RelativeNextIndex>,
    references: OffsetMap<LogIndex, RelativeReference>,
    authors: RangeFromMap<LogIndex, u64>,
    index_shifts: RangeFromMap<LogIndex, usize>,
    order: Ghost<Seq<int>>,
}

impl<T: Copy> Chronofold<T> {
    /// The mathematical model of this replica.
    pub closed spec fn weave(self) -> Weave<T> {
        Weave {
            log: self.log@,
            deleted: self.deleted@,
            order: self.order@,
            refs: Seq::new(self.log@.len(), |i: int| self.references.spec_get(i)),
            authors: Seq::new(self.log@.len(), |i: int| match self.authors.spec_get(i) {
                Some(a) => a as int,
                None => 0,
            }),
            origs: Seq::new(self.log@.len(), |i: int| i - (match self.index_shifts.spec_get(i) {
                Some(s) => s as int,
                None => 0,
            })),
            version: Map::new(
                |a: int| self.version.spec_get(a) is Some,
                |a: int| self.version.spec_get(a)->Some_0,
            ),
        }
    }

    /// The number of entries in the log.
    pub open spec fn log_len(self) -> int {
        self.weave().len()
    }

    /// The replica's invariant: the model is well formed, and the compressed
    /// maps agree with it.
    pub closed spec fn inv(self) -> bool {
        &&& self.weave().wf()
    &&& self.root == LogIndex(0usize)
    &&& self.deleted@.len() == self.log@.len()
    &&& self.order@.len() == self.log@.len()
    &&& self.next_indices.wf()
    &&& self.references.wf()
    &&& self.authors.wf()
    &&& self.index_shifts.wf()
    &&& self.version.wf()
    &&& self.authors.all_keys_le(self.log@.len() - 1)
    &&& self.index_shifts.all_keys_le(self.log@.len() - 1)
    &&& forall|i: int| 0 <= i < self.log@.len() ==> (#[trigger] self.authors.spec_get(i)) is Some
    &&& forall|i: int| 0 <= i < self.log@.len() ==> (#[trigger] self.index_shifts.spec_get(i)) is Some
    &&& forall|k: int| 0 <= k < self.log@.len() - 1 ==>
            #[trigger] self.next_indices.spec_get(self.order@[k]) == Some(self.order@[k + 1])
    &&& self.next_indices.spec_get(self.order@[self.log@.len() - 1]) is None
    }

    /// Constructs a new, empty chronofold with a root entry owned by
    /// `author`.
    pub fn new(author: u64) -> (r: Chronofold<T>)
        ensures
            r.inv(),
            r.weave().log =~= seq![Change::<T>::Root],
            r.weave().deleted =~= seq![false],
            r.weave().order =~= seq![0int],
            r.weave().refs =~= seq![None::<int>],
            r.weave().authors =~= seq![author as int],
            r.weave().origs =~= seq![0int],
            r.weave().version =~= Map::<int, int>::empty().insert(author as int, 0),
            r.weave().visible() =~= Seq::<(T, int)>::empty(),
    {
        let root_idx = LogIndex(0);
        let mut version = Version::new();
        version.inc(&Timestamp(root_idx, author));
        let mut next_indices = OffsetMap::new();
        next_indices.set(root_idx, None);
        let mut references = OffsetMap::new();
        references.set(root_idx, None);
        let mut authors = RangeFromMap::new();
        authors.set(root_idx, author);
        let mut index_shifts = RangeFromMap::new();
        index_shifts.set(root_idx, 0);
        let mut log: Vec<Change<T>> = Vec::new();
        log.push(Change::Root);
        let mut deleted: Vec<bool> = Vec::new();
        deleted.push(false);
        let ghost initial_order = seq![0int];
        let r = Chronofold {
            log,
            deleted,
            root: LogIndex(0),
            version,
            next_indices,
            authors,
            index_shifts,
            references,
            order: Ghost(initial_order),
        };
        proof {
            let w = r.weave();
            assert(w.log =~= seq![Change::<T>::Root]);
            assert(w.refs =~= seq![None::<int>]);
            assert(w.authors =~= seq![author as int]);
            assert(w.origs =~= seq![0int]);
            assert(w.version =~= Map::<int, int>::empty().insert(author as int, 0));
            assert(w.order[0] == 0int);
            assert(w.order.contains(0int));
            assert(w.visible() =~= Seq::<(T, int)>::empty());
        }
        r
    }

    /// The number of entries in the log, as an executable value.

    pub(crate) fn log_size(&self) -> (r: usize)
        ensures
            r as int == self.log_len(),
    {
        self.log.len()
    }

    /// The change at a valid log index, by value.
    pub(crate) fn log_at(&self, index: LogIndex) -> (r: Change<T>)
        requires
            (index.0 as int) < self.log_len(),
        ensures
            r == self.weave().log[index.0 as int],
    {
        self.log[index.0]
    }

    /// Returns a reference to a change in the chronofold's log.
    ///
    /// If `index` is out of bounds, `None` is returned.
    pub fn get(&self, index: LogIndex) -> (r: Option<&Change<T>>)
        ensures
            match r {
                Some(c) => (index.0 as int) < self.log_len() && *c == self.weave().log[index.0 as int],
                None => (index.0 as int) >= self.log_len(),
            },
    {
        if index.0 < self.log.len() {
            Some(&self.log[index.0])
        } else {
            None
        }
    }

    /// Returns the index of the last log entry (in log order).
    pub fn last_index(&self) -> (r: Option<LogIndex>)
        ensures
            match r {
                Some(i) => i.0 as int == self.log_len() - 1,
                None => self.log_len() == 0,
            },
    {
        if !self.log.is_empty() {
            Some(LogIndex(self.log.len() - 1))
        } else {
            None
        }
    }

    /// Returns a vector clock representing the version of this chronofold.
    pub fn version(&self) -> (r: &Version)
        ensures
            r == self.spec_version(),
    {
        &self.version
    }

    /// The replica's version clock.
    pub closed spec fn spec_version(self) -> Version {
        self.version
    }

    /// The globally unique timestamp of the entry at `index`.
    ///
    /// If `index` is out of bounds, `None` is returned.
    pub fn timestamp(&self, index: LogIndex) -> (r: Option<Timestamp>)
        requires
            self.inv(),
        ensures
            match r {
                Some(t) => (index.0 as int) < self.log_len()
                    && t.key() == self.weave().ts(index.0 as int),
                None => (index.0 as int) >= self.log_len(),
            },
    {
        if index.0 >= self.log.len() {
            return None;
        }
        let shift = match self.index_shifts.get(&index) {
            Some(s) => s,
            None => {
                proof {
                    assert(false);
                }
                0
            },
        };
        let author = match self.authors.get(&index) {
            Some(a) => a,
            None => {
                proof {
                    assert(false);
                }
                0
            },
        };
        proof {
            let i = index.0 as int;
            assert(self.weave().origs[i] == i - shift as int);
            assert(0 <= self.weave().origs[i]);
        }
        Some(Timestamp(LogIndex(index.0 - shift), author))
    }

    /// The local log index of the entry carrying `timestamp`, if the op with
    /// that timestamp has been applied.
    ///
    /// Originating indices never exceed local ones, so the scan may start at
    /// the timestamp's own index.
    pub fn log_index(&self, timestamp: &Timestamp) -> (r: Option<LogIndex>)
        requires
            self.inv(),
        ensures
            match r {
                Some(i) => (i.0 as int) < self.log_len()
                    && self.weave().ts(i.0 as int) == timestamp.key(),
                None => !self.weave().has_ts(timestamp.key()),
            },
    {
        let ghost w = self.weave();
        let n = self.log.len();
        let mut i: usize = timestamp.0.0;
        proof {
            assert forall|x: int| 0 <= x < i && x < n implies #[trigger] w.ts(x) != timestamp.key() by {
                assert(w.origs[x] <= x);
            }
        }
        while i < n
            invariant
                self.inv(),
                w == self.weave(),
                n as int == w.len(),
                0 <= i,
                forall|x: int| 0 <= x < i && x < n ==> #[trigger] w.ts(x) != timestamp.key(),
            decreases n - i,
        {
            match self.timestamp(LogIndex(i)) {
                Some(t) => {
                    if t == *timestamp {
                        return Some(LogIndex(i));
                    }
                },
                None => {
                    proof {
                        assert(false);
                    }
                },
            }
            i += 1;
        }
        proof {
            if w.has_ts(timestamp.key()) {
                let x = w.ts_index(timestamp.key());
                assert(w.ts(x) == timestamp.key());
            }
        }
        None
    }
}

impl<T: Copy> Chronofold<T> {
    /// The log index the next appended change will get.
    fn next_log_index(&self) -> (r: LogIndex)
        ensures
            r.0 == self.log_len(),
    {
        LogIndex(self.log_size())
    }

    /// Collects the log indices in causal order by walking the linked list
    /// from the root: the root entry first, then each entry's causal
    /// successor. Per [`lemma_causal_walk_total`], the walk visits every log
    /// index exactly once.
    pub fn causal_order(&self) -> (r: Vec<LogIndex>)
        requires
            self.inv(),
        ensures
            r@.len() == self.weave().len(),
            forall|k: int| 0 <= k < r@.len() ==> (#[trigger] r@[k]).0 as int == self.weave().order[k],
    {
        let ghost w = self.weave();
        let n = self.log_size();
        let mut r: Vec<LogIndex> = Vec::new();
        let mut cur: Option<LogIndex> = Some(LogIndex(0));
        while r.len() < n
            invariant
                self.inv(),
                w == self.weave(),
                n == w.len(),
                0 <= r@.len() <= n,
                forall|k: int| 0 <= k < r@.len() ==> (#[trigger] r@[k]).0 as int == w.order[k],
                cur == if r@.len() < n {
                    Some(LogIndex(w.order[r@.len() as int] as usize))
                } else {
                    None::<LogIndex>
                },
            decreases n - r@.len(),
        {
            let c = match cur {
                Some(c) => c,
                None => {
                    proof {
                        assert(false);
                    }
                    LogIndex(0)
                },
            };
            r.push(c);
            proof {
                assert(c.0 as int == w.order[r@.len() - 1]);
                assert(0 <= (c.0 as int) && (c.0 as int) < n);
            }
            cur = self.next_indices.get(&c);
            proof {
                let k = r@.len() - 1;
                if k < n - 1 {
                    assert(self.next_indices.spec_get(c.0 as int) == Some(w.order[k + 1]));
                } else {
                    assert(self.next_indices.spec_get(c.0 as int) is None);
                }
            }
        }
        r
    }

    /// Finds the entry after which a change with id `id` and reference
    /// `reference` is spliced into the causal order, per the sibling
    /// tie-break rule.
    #[verifier::rlimit(80)]
    fn find_predecessor(&self, id: &Timestamp, reference: LogIndex, is_del: bool) -> (r: LogIndex)
        requires
            self.inv(),
            (reference.0 as int) < self.weave().len(),
        ensures
            r.0 as int == self.weave().predecessor(Some(reference.0 as int), id.key(), is_del),
            (r.0 as int) < self.weave().len(),
    {
        let ghost w = self.weave();
        let ghost rr = reference.0 as int;
        let ord = self.causal_order();
        let n = ord.len();
        proof {
            assert(n == w.len());
        }
        // find the last winning sibling in causal order
        let mut best: Option<LogIndex> = None;
        let mut k: usize = 0;
        while k < n
            invariant
                self.inv(),
                w == self.weave(),
                n == w.len(),
                ord@.len() == n,
                forall|x: int| 0 <= x < n ==> (#[trigger] ord@[x]).0 as int == w.order[x],
                rr == reference.0 as int,
                0 <= rr < n,
                0 <= k <= n,
                opt_index(best) == w.last_winner_upto(rr, id.key(), is_del, k as int),
                match best {
                    Some(b) => (b.0 as int) < n,
                    None => true,
                },
            decreases n - k,
        {
            let e = ord[k];
            proof {
                assert(e.0 as int == w.order[k as int]);
                assert(0 <= (e.0 as int) && (e.0 as int) < n);
            }
            let is_sibling = match self.references.get(&e) {
                Some(p) => p.0 == reference.0,
                None => false,
            };
            let e_del = matches!(self.log_at(e), Change::Delete);
            let te = match self.timestamp(e) {
                Some(t) => t,
                None => {
                    proof {
                        assert(false);
                    }
                    *id
                },
            };
            let later = timestamp_lt(id, &te);
            let wins_now = is_sibling && (if is_del { e_del && later } else { e_del || later });
            proof {
                assert(wins_now == w.wins(e.0 as int, rr, id.key(), is_del));
            }
            if wins_now {
                best = Some(e);
            }
            k += 1;
        }
        let s = match best {
            None => {
                return reference;
            },
            Some(s) => s,
        };
        // walk the subtree of the last winning sibling; its last member in
        // causal order is the predecessor
        let ghost sp = w.pos(s.0 as int);
        proof {
            w.lemma_last_winner_upto(rr, id.key(), is_del, n as int);
            w.lemma_pos(s.0 as int);
        }
        let mut members: Vec<bool> = vec![false; n];
        let mut last = s;
        let mut started = false;
        let mut k2: usize = 0;
        while k2 < n
            invariant
                self.inv(),
                w == self.weave(),
                n == w.len(),
                ord@.len() == n,
                forall|x: int| 0 <= x < n ==> (#[trigger] ord@[x]).0 as int == w.order[x],
                members@.len() == n,
                0 <= k2 <= n,
                0 <= sp < n,
                w.order[sp] == s.0 as int,
                (s.0 as int) < n,
                started <==> k2 > sp,
                !started ==> last == s && (forall|x: int| 0 <= x < n ==> !(#[trigger] members@[x])),
                started ==> forall|x: int| 0 <= x < n ==>
                    ((#[trigger] members@[x]) <==> w.subtree_members(sp, k2 as int).contains(x)),
                started ==> last.0 as int == w.subtree_last(sp, k2 as int),
                (last.0 as int) < n,
            decreases n - k2,
        {
            let e = ord[k2];
            proof {
                assert(e.0 as int == w.order[k2 as int]);
                assert(0 <= (e.0 as int) && (e.0 as int) < n);
            }
            if started {
                proof {
                    w.lemma_subtree_in_range(sp, k2 as int);
                }
                let in_subtree = match self.references.get(&e) {
                    Some(p) => {
                        proof {
                            assert(w.refs[e.0 as int] == Some(p.0 as int));
                            assert(0 <= (p.0 as int) && (p.0 as int) < (e.0 as int));
                        }
                        members[p.0]
                    },
                    None => false,
                };
                if in_subtree {
                    let slot = &mut members[e.0];
                    *slot = true;
                    last = e;
                }
                proof {
                    let msp = w.subtree_members(sp, k2 as int);
                    let enew = w.order[k2 as int];
                    if w.refs[enew] matches Some(p) && msp.contains(p) {
                        assert(w.subtree_members(sp, k2 as int + 1) == msp.insert(enew));
                        assert(w.subtree_last(sp, k2 as int + 1) == enew);
                    } else {
                        assert(w.subtree_members(sp, k2 as int + 1) == msp);
                        assert(w.subtree_last(sp, k2 as int + 1) == w.subtree_last(sp, k2 as int));
                    }
                }
            } else if e.0 == s.0 {
                proof {
                    assert(k2 as int == sp) by {
                        w.lemma_pos(s.0 as int);
                    }
                }
                let slot = &mut members[e.0];
                *slot = true;
                started = true;
                proof {
                    assert(w.subtree_members(sp, sp + 1) =~= set![w.order[sp]]);
                    assert forall|x: int| 0 <= x < n implies
                        ((#[trigger] members@[x]) <==> w.subtree_members(sp, k2 as int + 1).contains(x)) by {
                        assert(w.subtree_members(sp, k2 as int + 1).contains(x) <==> x == s.0 as int);
                    }
                }
            } else {
                proof {
                    if k2 as int == sp {
                        assert(w.order[sp] == s.0 as int);
                        assert(false);
                    }
                }
            }
            k2 += 1;
        }
        proof {
            assert(started);
            assert(last.0 as int == w.subtree_last(sp, n as int));
        }
        last
    }
}


impl<T: Copy> Chronofold<T> {
    /// Weaves one change into the replica: finds the predecessor per the
    /// sibling tie-break rule, splices the new entry into the causal linked
    /// list after it, appends the change to the log and the secondary maps,
    /// and joins the id into the version.
    #[verifier::rlimit(100)]
    pub(crate) fn apply_change(&mut self, id: Timestamp, reference: Option<LogIndex>, change: Change<T>) -> (r: LogIndex)
        requires
            old(self).inv(),
            !old(self).weave().has_ts(id.key()),
            id.0.0 as int <= old(self).log_len(),
            match reference {
                Some(rf) => (rf.0 as int) < old(self).log_len(),
                None => true,
            },
            change is Delete ==> reference is Some,
            change is Root ==> reference is None,
        ensures
            final(self).inv(),
            final(self).weave() == old(self).weave().weave_insert(
                id.key(), opt_index(reference), change),
            r.0 as int == old(self).log_len(),
            final(self).log_len() == old(self).log_len() + 1,
    {
        let ghost w = self.weave();
        let is_del = matches!(change, Change::Delete);
        let pred = match reference {
            Some(rf) => self.find_predecessor(&id, rf, is_del),
            None => LogIndex(0),
        };
        proof {
            assert(pred.0 as int == w.predecessor(opt_index(reference), id.key(), change is Delete));
            w.lemma_predecessor_in_range(opt_index(reference), id.key(), change is Delete);
            w.lemma_pos(pred.0 as int);
        }
        let ghost pp = w.pos(pred.0 as int);
        let ghost wn = w.weave_insert(id.key(), opt_index(reference), change);
        let n = self.log.len();
        let next_of_pred = self.next_indices.get(&pred);
        proof {
            // the old linked list agrees with the old causal order at `pred`
            if pp < n - 1 {
                assert(self.next_indices.spec_get(w.order[pp]) == Some(w.order[pp + 1]));
            } else {
                assert(self.next_indices.spec_get(w.order[pp]) is None);
            }
        }
        self.next_indices.set(pred, Some(LogIndex(n)));
        if is_del {
            let del = match reference {
                Some(d) => d,
                None => {
                    proof {
                        assert(false);
                    }
                    LogIndex(0)
                },
            };
            let slot = &mut self.deleted[del.0];
            *slot = true;
        }
        self.log.push(change);
        self.deleted.push(false);
        self.next_indices.set(LogIndex(n), next_of_pred);
        self.authors.set(LogIndex(n), id.1);
        self.index_shifts.set(LogIndex(n), n - id.0.0);
        self.references.set(LogIndex(n), reference);
        self.version.inc(&id);
        proof {
            self.order@ = w.order.insert(pp + 1, n as int);
            w.order.insert_ensures(pp + 1, n as int);
            w.lemma_weave_insert_wf(id.key(), opt_index(reference), change);

            // the new executable state maps onto the model transformer
            let ws = self.weave();
            assert(ws.log =~= wn.log);
            assert(ws.deleted =~= wn.deleted);
            assert(ws.order =~= wn.order);
            assert(ws.refs =~= wn.refs) by {
                assert forall|i: int| 0 <= i < n + 1 implies ws.refs[i] == wn.refs[i] by {
                    if i < n {
                        assert(self.references.spec_get(i) == old(self).references.spec_get(i));
                        assert(wn.refs[i] == w.refs[i]);
                    } else {
                        assert(self.references.spec_get(i) == opt_index(reference));
                    }
                }
            }
            assert(ws.authors =~= wn.authors) by {
                old(self).authors.lemma_all_keys_le_mono(n as int - 1, n as int);
                assert forall|i: int| 0 <= i < n + 1 implies ws.authors[i] == wn.authors[i] by {
                    if i < n {
                        assert(self.authors.spec_get(i) == old(self).authors.spec_get(i));
                        assert(wn.authors[i] == w.authors[i]);
                    } else {
                        assert(self.authors.spec_get(i) matches Some(c) && c.veq(id.1));
                    }
                }
            }
            assert(ws.origs =~= wn.origs) by {
                old(self).index_shifts.lemma_all_keys_le_mono(n as int - 1, n as int);
                assert forall|i: int| 0 <= i < n + 1 implies ws.origs[i] == wn.origs[i] by {
                    if i < n {
                        assert(self.index_shifts.spec_get(i) == old(self).index_shifts.spec_get(i));
                        assert(wn.origs[i] == w.origs[i]);
                    } else {
                        assert(self.index_shifts.spec_get(i) matches Some(c) && c.veq((n - id.0.0) as usize));
                    }
                }
            }
            assert(ws.version =~= wn.version) by {
                assert forall|a: int| true implies
                    (ws.version.contains_key(a) <==> wn.version.contains_key(a))
                    && (ws.version.contains_key(a) ==> ws.version[a] == wn.version[a]) by {
                    if a == id.1 as int {
                        assert(self.version.spec_get(a) is Some);
                    } else {
                        assert(self.version.spec_get(a) == old(self).version.spec_get(a));
                    }
                }
            }
            assert(ws =~= wn);

            // the linked list still matches the causal order
            let o = self.order@;
            assert forall|k: int| 0 <= k < n implies
                #[trigger] self.next_indices.spec_get(o[k]) == Some(o[k + 1]) by {
                if k < pp {
                    assert(o[k] == w.order[k]);
                    assert(o[k + 1] == w.order[k + 1]);
                    assert(w.order[k] != w.order[pp]);
                    assert(w.order[k] != n as int);
                    assert(old(self).next_indices.spec_get(w.order[k]) == Some(w.order[k + 1]));
                } else if k == pp {
                    assert(o[k] == w.order[pp]);
                    assert(o[k + 1] == n as int);
                } else if k == pp + 1 {
                    assert(o[k] == n as int);
                    assert(o[k + 1] == w.order[k]);
                    assert(pp < n - 1);
                } else {
                    assert(o[k] == w.order[k - 1]);
                    assert(o[k + 1] == w.order[k]);
                    assert(w.order[k - 1] != w.order[pp]);
                    assert(w.order[k - 1] != n as int);
                    assert(old(self).next_indices.spec_get(w.order[k - 1]) == Some(w.order[k]));
                }
            }
            assert(self.next_indices.spec_get(o[n as int]) is None) by {
                if pp + 1 == n {
                    assert(o[n as int] == n as int);
                } else {
                    assert(o[n as int] == w.order[n - 1]);
                    assert(w.order[n - 1] != w.order[pp]);
                    assert(w.order[n - 1] != n as int);
                    assert(old(self).next_indices.spec_get(w.order[n - 1]) is None);
                }
            }

            old(self).authors.lemma_all_keys_le_mono(n as int - 1, n as int);
            old(self).index_shifts.lemma_all_keys_le_mono(n as int - 1, n as int);
            assert(self.weave().wf());
            assert(self.authors.all_keys_le(self.log@.len() - 1));
            assert(self.index_shifts.all_keys_le(self.log@.len() - 1));
            assert forall|i: int| 0 <= i < self.log@.len() implies (#[trigger] self.authors.spec_get(i)) is Some by {
                if i < n {
                    assert(self.authors.spec_get(i) == old(self).authors.spec_get(i));
                } else {
                    assert(self.authors.spec_get(i) matches Some(c) && c.veq(id.1));
                }
            }
            assert forall|i: int| 0 <= i < self.log@.len() implies (#[trigger] self.index_shifts.spec_get(i)) is Some by {
                if i < n {
                    assert(self.index_shifts.spec_get(i) == old(self).index_shifts.spec_get(i));
                } else {
                    assert(self.index_shifts.spec_get(i) matches Some(c) && c.veq((n - id.0.0) as usize));
                }
            }
            assert(self.inv());
        }
        LogIndex(n)
    }
}


/// The change a payload stores into the log.
pub open spec fn payload_change<T>(p: OpPayload<T>) -> Change<T> {
    match p {
        OpPayload::Root => Change::Root,
        OpPayload::Insert(_, v) => Change::Insert(v),
        OpPayload::Delete(_) => Change::Delete,
    }
}

/// The payload's reference timestamp resolved to a local log index.
pub open spec fn resolved_reference<T>(w: Weave<T>, p: OpPayload<T>) -> Option<int> {
    match p.spec_reference() {
        Some(t) => Some(w.ts_index(t.key())),
        None => None,
    }
}

impl<T: Copy> Chronofold<T> {
    /// The replica's invariant implies a well-formed model.
    pub proof fn lemma_inv_wf(self)
        requires
            self.inv(),
        ensures
            self.weave().wf(),
    {
    }

    /// The causal predecessor of the entry at a valid log index.
    pub(crate) fn reference_of(&self, index: LogIndex) -> (r: Option<LogIndex>)
        requires
            (index.0 as int) < self.log_len(),
            self.inv(),
        ensures
            opt_index(r) == self.weave().refs[index.0 as int],
            match r {
                Some(p) => (p.0 as int) < self.log_len(),
                None => true,
            },
    {
        self.references.get(&index)
    }

    /// Whether the entry at a valid log index is tombstoned.
    pub(crate) fn is_deleted(&self, index: LogIndex) -> (r: bool)
        requires
            (index.0 as int) < self.log_len(),
            self.inv(),
        ensures
            r == self.weave().deleted[index.0 as int],
    {
        self.deleted[index.0]
    }

    /// Applies an op to the chronofold.
    ///
    /// An op is rejected, and the replica left unchanged, in exactly three
    /// cases: its timestamp was applied already (`ExistingTimestamp`), its
    /// originating index exceeds the local log length (`FutureTimestamp`),
    /// or its reference timestamp is not yet known locally
    /// (`UnknownReference`). Otherwise the op's change is woven into the
    /// replica.
    pub fn apply(&mut self, op: Op<T>) -> (r: Result<(), ChronofoldError<T>>)
        requires
            old(self).inv(),
        ensures
            final(self).inv(),
            ({
                let w = old(self).weave();
                let wn = final(self).weave();
                match r {
                    Err(e) => wn == w && match e {
                        ChronofoldError::ExistingTimestamp(o) =>
                            o == op && w.has_ts(op.id.key()),
                        ChronofoldError::FutureTimestamp(o) =>
                            o == op && !w.has_ts(op.id.key())
                                && op.id.0.0 as int > w.len(),
                        ChronofoldError::UnknownReference(o) =>
                            o == op && !w.has_ts(op.id.key())
                                && op.id.0.0 as int <= w.len()
                                && (op.payload.spec_reference() matches Some(t)
                                    && !w.has_ts(t.key())),
                    },
                    Ok(()) => !w.has_ts(op.id.key())
                        && op.id.0.0 as int <= w.len()
                        && (match op.payload.spec_reference() {
                            Some(t) => w.has_ts(t.key()),
                            None => true,
                        })
                        && wn == w.weave_insert(
                            op.id.key(),
                            resolved_reference(w, op.payload),
                            payload_change(op.payload)),
                }
            }),
    {
        let ghost w = self.weave();
        // idempotence: an op with an already-applied timestamp is rejected
        match self.log_index(&op.id) {
            Some(i) => {
                proof {
                    w.lemma_ts_index_unique(op.id.key(), i.0 as int);
                }
                return Err(ChronofoldError::ExistingTimestamp(op));
            },
            None => {},
        }
        // indices in timestamps are greater or equal to their indices in
        // every local log, so an op from further ahead cannot be applied
        if op.id.0.0 > self.log.len() {
            return Err(ChronofoldError::FutureTimestamp(op));
        }
        match op.payload {
            OpPayload::Root => {
                self.apply_change(op.id, None, Change::Root);
                Ok(())
            },
            OpPayload::Insert(Some(t), value) => {
                match self.log_index(&t) {
                    Some(reference) => {
                        proof {
                            w.lemma_ts_index_unique(t.key(), reference.0 as int);
                        }
                        self.apply_change(op.id, Some(reference), Change::Insert(value));
                        Ok(())
                    },
                    None => Err(ChronofoldError::UnknownReference(op)),
                }
            },
            OpPayload::Insert(None, value) => {
                self.apply_change(op.id, None, Change::Insert(value));
                Ok(())
            },
            OpPayload::Delete(t) => {
                match self.log_index(&t) {
                    Some(reference) => {
                        proof {
                            w.lemma_ts_index_unique(t.key(), reference.0 as int);
                        }
                        self.apply_change(op.id, Some(reference), Change::Delete);
                        Ok(())
                    },
                    None => Err(ChronofoldError::UnknownReference(op)),
                }
            },
        }
    }

    /// The reference a local insert after `index` should use: the last
    /// delete targeting `index` in causal order, if any, so that the new
    /// insert lands after the tombstones.
    pub(crate) fn reparent(&self, index: LogIndex) -> (r: LogIndex)
        requires
            self.inv(),
            (index.0 as int) < self.log_len(),
        ensures
            r.0 as int == self.weave().reparent(index.0 as int),
            (r.0 as int) < self.log_len(),
    {
        let ghost w = self.weave();
        let ghost rr = index.0 as int;
        let ord = self.causal_order();
        let n = ord.len();
        let mut best: Option<LogIndex> = None;
        let mut k: usize = 0;
        while k < n
            invariant
                self.inv(),
                w == self.weave(),
                n == w.len(),
                ord@.len() == n,
                forall|x: int| 0 <= x < n ==> (#[trigger] ord@[x]).0 as int == w.order[x],
                rr == index.0 as int,
                0 <= rr < n,
                0 <= k <= n,
                opt_index(best) == w.last_delete_upto(rr, k as int),
                match best {
                    Some(b) => (b.0 as int) < n,
                    None => true,
                },
            decreases n - k,
        {
            let e = ord[k];
            proof {
                assert(e.0 as int == w.order[k as int]);
                assert(0 <= (e.0 as int) && (e.0 as int) < n);
            }
            let is_sibling = match self.references.get(&e) {
                Some(p) => p.0 == index.0,
                None => false,
            };
            let e_del = matches!(self.log_at(e), Change::Delete);
            if is_sibling && e_del {
                best = Some(e);
            }
            k += 1;
        }
        match best {
            Some(d) => d,
            None => index,
        }
    }

    /// Applies consecutive local changes: the first references `reference`,
    /// each further change references the one before it.
    ///
    /// A freshly minted local id carries the largest timestamp on this
    /// replica, so no sibling wins against it and each change is placed
    /// directly after its reference.
    pub(crate) fn apply_local_changes(&mut self, author: u64, reference: LogIndex, changes: Vec<Change<T>>) -> (r: Option<LogIndex>)
        requires
            old(self).inv(),
            (reference.0 as int) < old(self).log_len(),
            forall|i: int| 0 <= i < changes@.len() ==> !((#[trigger] changes@[i]) is Root),
        ensures
            final(self).inv(),
            final(self).weave() == old(self).weave().weave_local(
                author as int, reference.0 as int, changes@),
            final(self).log_len() == old(self).log_len() + changes@.len(),
            match r {
                Some(last) => changes@.len() > 0
                    && last.0 as int == old(self).log_len() + changes@.len() - 1,
                None => changes@.len() == 0,
            },
    {
        let ghost goal = old(self).weave().weave_local(author as int, reference.0 as int, changes@);
        let mut i: usize = 0;
        let mut cur_ref = reference;
        let mut last: Option<LogIndex> = None;
        proof {
            assert(changes@.skip(0) =~= changes@);
        }
        while i < changes.len()
            invariant
                self.inv(),
                0 <= i <= changes@.len(),
                forall|x: int| 0 <= x < changes@.len() ==> !((#[trigger] changes@[x]) is Root),
                (cur_ref.0 as int) < self.log_len(),
                self.log_len() == old(self).log_len() + i,
                goal == self.weave().weave_local(author as int, cur_ref.0 as int, changes@.skip(i as int)),
                goal == old(self).weave().weave_local(author as int, reference.0 as int, changes@),
                match last {
                    Some(l) => i > 0 && l.0 as int == old(self).log_len() + i - 1,
                    None => i == 0,
                },
            decreases changes@.len() - i,
        {
            let n = self.log.len();
            let id = Timestamp(LogIndex(n), author);
            proof {
                let w = self.weave();
                assert(!w.has_ts(id.key())) by {
                    if w.has_ts(id.key()) {
                        let x = w.ts_index(id.key());
                        assert(w.ts(x) == id.key());
                        assert(w.origs[x] <= x < n);
                    }
                }
                assert(changes@.skip(i as int)[0] == changes@[i as int]);
            }
            let change = changes[i];
            let new_index = self.apply_change(id, Some(cur_ref), change);
            proof {
                assert(changes@.skip(i as int).drop_first() =~= changes@.skip(i as int + 1));
            }
            last = Some(new_index);
            cur_ref = new_index;
            i += 1;
        }
        proof {
            assert(changes@.skip(i as int) =~= Seq::<Change<T>>::empty());
        }
        last
    }
}


impl<T: Copy> Default for Chronofold<T> {
    /// Constructs a new, empty chronofold with a root entry owned by the
    /// zero author.
    fn default() -> (r: Self)
        ensures
            r.inv(),
            r.weave().log =~= seq![Change::<T>::Root],
            r.weave().visible() =~= Seq::<(T, int)>::empty(),
            r.weave().authors =~= seq![0int],
    {
        Chronofold::new(0)
    }
}


impl<T: Copy> Chronofold<T> {
    /// Renders the log as a table of index, reference, next index, tombstone
    /// mark and change kind, one row per entry, for debugging.
    ///
    /// Values are not rendered, only identifiers, so `T` needs no
    /// human-readable form.
    pub fn formatted_log(&self) -> String
        requires
            self.inv(),
    {
        let mut out = "idx | ref | next | del | change\n".to_owned();
        let n = self.log.len();
        let mut i: usize = 0;
        while i < n
            invariant
                self.inv(),
                n as int == self.log_len(),
            decreases n - i,
        {
            let idx = LogIndex(i);
            out.append(crate::error::decimal_str(i as u64).as_str());
            out.append(" | ");
            proof {
                if i == 0 {
                    assert(self.weave().refs[0int] is None);
                }
            }
            match self.references.get(&idx) {
                Some(r) => {
                    out.append(crate::error::decimal_str(r.0 as u64).as_str());
                },
                None => {},
            }
            out.append(" | ");
            match self.next_indices.get(&idx) {
                Some(nx) => {
                    out.append(crate::error::decimal_str(nx.0 as u64).as_str());
                },
                None => {},
            }
            out.append(" | ");
            if self.deleted[i] {
                out.append("*");
            }
            out.append(" | ");
            match self.log[i] {
                Change::Root => out.append("Root"),
                Change::Insert(_) => out.append("Insert"),
                Change::Delete => out.append("Delete"),
            }
            out.append("\n");
            i += 1;
        }
        out
    }
}

} // verus!
