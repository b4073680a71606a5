use vstd::prelude::*;
use crate::change::Change;
use crate::distributed::ts_lt;

verus! {

/// The mathematical model of a chronofold replica.
///
/// The causal linked list is represented by `order`: the sequence of log
/// indices in causal (linked-list) order. The executable replica maintains
/// the same information as compressed index maps; its invariant ties those
/// maps to this model.
#[verifier::ext_equal]
pub ghost struct Weave<T> {
    /// The append-only log of changes, in log (arrival) order.
    pub log: Seq<Change<T>>,
    /// Tombstone bits: `deleted[i]` holds iff a delete targeting `i` was applied.
    pub deleted: Seq<bool>,
    /// The log indices in causal order; a permutation of `0..log.len()`.
    pub order: Seq<int>,
    /// The causal predecessor (op-time parent) of each entry.
    pub refs: Seq<Option<int>>,
    /// The author of each entry.
    pub authors: Seq<int>,
    /// The originating log index of each entry on its author's replica.
    pub origs: Seq<int>,
    /// The version vector: highest known originating index per author.
    pub version: Map<int, int>,
}

impl<T> Weave<T> {
    pub open spec fn len(self) -> int {
        self.log.len() as int
    }

    /// The globally unique timestamp of the entry at log index `i`.
    pub open spec fn ts(self, i: int) -> (int, int) {
        (self.origs[i], self.authors[i])
    }

    /// Whether some entry carries timestamp `t`.
    pub open spec fn has_ts(self, t: (int, int)) -> bool {
        exists|i: int| 0 <= i < self.len() && self.ts(i) == t
    }

    /// The log index of the entry carrying timestamp `t`.
    pub open spec fn ts_index(self, t: (int, int)) -> int {
        choose|i: int| 0 <= i < self.len() && self.ts(i) == t
    }

    /// The position of log index `i` in the causal order.
    pub open spec fn pos(self, i: int) -> int {
        choose|k: int| 0 <= k < self.order.len() && self.order[k] == i
    }

    /// Well-formedness of a replica model.
    pub open spec fn wf(self) -> bool {
        &&& self.log.len() >= 1
    &&& self.deleted.len() == self.log.len()
    &&& self.refs.len() == self.log.len()
    &&& self.authors.len() == self.log.len()
    &&& self.origs.len() == self.log.len()
    &&& self.order.len() == self.log.len()
    &&& self.log[0] is Root
    &&& self.refs[0] is None
    &&& forall|i: int| 0 <= i < self.len() ==> match #[trigger] self.refs[i] {
            Some(j) => 0 <= j < i,
            None => true,
        }
    &&& forall|i: int| 0 <= i < self.len() ==> 0 <= #[trigger] self.origs[i] <= i
    &&& forall|i: int| 0 <= i < self.len() ==> 0 <= #[trigger] self.authors[i] <= u64::MAX as int
    &&& forall|k: int| 0 <= k < self.len() ==> 0 <= #[trigger] self.order[k] < self.len()
    &&& forall|k1: int, k2: int| 0 <= k1 < k2 < self.len() ==> #[trigger] self.order[k1] != #[trigger] self.order[k2]
    &&& forall|i: int| 0 <= i < self.len() ==> self.order.contains(i)
    &&& self.order[0] == 0
    &&& forall|i: int, j: int| 0 <= i < j < self.len() ==> #[trigger] self.ts(i) != #[trigger] self.ts(j)
    &&& forall|i: int| 0 <= i < self.len() ==> self.version.contains_key(#[trigger] self.authors[i])
            && self.version[self.authors[i]] >= self.origs[i]
    &&& forall|i: int| 0 <= i < self.len() && (#[trigger] self.log[i]) is Delete ==> self.refs[i] is Some
    &&& forall|i: int| 0 <= i < self.len() && (#[trigger] self.log[i]) is Root ==> self.refs[i] is None
    &&& forall|i: int| 0 <= i < self.len() ==> (#[trigger] self.deleted[i] <==> exists|j: int|
            0 <= j < self.len() && (#[trigger] self.log[j]) is Delete && self.refs[j] == Some(i))
    }

    /// The position of log index `i` is well defined.
    pub proof fn lemma_pos(self, i: int)
        requires
            self.wf(),
            0 <= i < self.len(),
        ensures
            0 <= self.pos(i) < self.len(),
            self.order[self.pos(i)] == i,
            forall|k: int| 0 <= k < self.len() && self.order[k] == i ==> k == self.pos(i),
    {
        assert(self.order.contains(i));
        let k0 = choose|k: int| 0 <= k < self.order.len() && self.order[k] == i;
        assert(self.order[k0] == i);
        assert forall|k: int| 0 <= k < self.len() && self.order[k] == i implies k == self.pos(i) by {
            if k != self.pos(i) {
                assert(self.order[k] != self.order[self.pos(i)]);
            }
        }
    }

    /// Whether the entry at log index `e` competes with, and precedes, a new
    /// change with id `id` referencing `r`.
    ///
    /// Among the entries referencing `r`, a delete precedes every insert, a
    /// delete with greater timestamp precedes a delete, and an insert with
    /// greater timestamp precedes an insert.
    pub open spec fn wins(self, e: int, r: int, id: (int, int), is_del: bool) -> bool {
        &&& self.refs[e] == Some(r)
    &&& if is_del {
            self.log[e] is Delete && ts_lt(id, self.ts(e))
        } else {
            self.log[e] is Delete || ts_lt(id, self.ts(e))
        }
    }

    /// The last entry among the first `k` of the causal order that wins over
    /// a new change with id `id` referencing `r`.
    pub open spec fn last_winner_upto(self, r: int, id: (int, int), is_del: bool, k: int) -> Option<int>
        decreases k,
    {
        if k <= 0 {
            None
        } else if self.wins(self.order[k - 1], r, id, is_del) {
            Some(self.order[k - 1])
        } else {
            self.last_winner_upto(r, id, is_del, k - 1)
        }
    }

    /// The last entry in causal order that wins over a new change.
    pub open spec fn last_winner(self, r: int, id: (int, int), is_del: bool) -> Option<int> {
        self.last_winner_upto(r, id, is_del, self.order.len() as int)
    }

    /// The members of the subtree rooted at the entry at causal position
    /// `sp`, collected by a causal walk over positions below `k`.
    pub open spec fn subtree_members(self, sp: int, k: int) -> Set<int>
        decreases k - sp,
    {
        if k <= sp + 1 {
            set![self.order[sp]]
        } else {
            let m = self.subtree_members(sp, k - 1);
            let e = self.order[k - 1];
            if self.refs[e] matches Some(p) && m.contains(p) {
                m.insert(e)
            } else {
                m
            }
        }
    }

    /// The last member, in causal order, of the subtree rooted at the entry
    /// at causal position `sp`, considering positions below `k`.
    pub open spec fn subtree_last(self, sp: int, k: int) -> int
        decreases k - sp,
    {
        if k <= sp + 1 {
            self.order[sp]
        } else {
            let m = self.subtree_members(sp, k - 1);
            let e = self.order[k - 1];
            if self.refs[e] matches Some(p) && m.contains(p) {
                e
            } else {
                self.subtree_last(sp, k - 1)
            }
        }
    }

    /// Every subtree member is an entry of the causal order at or above `sp`.
    pub proof fn lemma_subtree_in_range(self, sp: int, k: int)
        requires
            self.wf(),
            0 <= sp < self.len(),
            k <= self.len(),
        ensures
            forall|e: int| self.subtree_members(sp, k).contains(e)
                ==> 0 <= e < self.len(),
            0 <= self.subtree_last(sp, k) < self.len(),
            self.subtree_members(sp, k).contains(self.subtree_last(sp, k)),
        decreases k - sp,
    {
        if k <= sp + 1 {
            assert(self.subtree_members(sp, k) =~= set![self.order[sp]]);
            assert forall|e: int| self.subtree_members(sp, k).contains(e) implies 0 <= e < self.len() by {
                assert(e == self.order[sp]);
            }
        } else {
            self.lemma_subtree_in_range(sp, k - 1);
            let m = self.subtree_members(sp, k - 1);
            let e = self.order[k - 1];
            assert(0 <= k - 1 < self.len());
            assert(0 <= self.order[k - 1] < self.len());
            if self.refs[e] matches Some(p) && m.contains(p) {
                assert(self.subtree_members(sp, k) == m.insert(e));
                assert(0 <= e < self.len());
                assert forall|x: int| self.subtree_members(sp, k).contains(x) implies 0 <= x < self.len() by {
                    if x != e {
                        assert(m.contains(x));
                    }
                }
            } else {
                assert(self.subtree_members(sp, k) == m);
            }
        }
    }

    /// The entry after which a new change is spliced into the causal order.
    ///
    /// A change without a reference is placed directly after the root. A
    /// change with reference `r` is placed after the whole subtree of the
    /// last of its winning siblings, or directly after `r` if no sibling
    /// wins.
    pub open spec fn predecessor(self, reference: Option<int>, id: (int, int), is_del: bool) -> int {
        match reference {
            None => 0,
            Some(r) => match self.last_winner(r, id, is_del) {
                None => r,
                Some(s) => self.subtree_last(self.pos(s), self.order.len() as int),
            },
        }
    }

    /// The last winner is an entry referencing `r`.
    pub proof fn lemma_last_winner_upto(self, r: int, id: (int, int), is_del: bool, k: int)
        requires
            self.wf(),
            k <= self.len(),
        ensures
            match self.last_winner_upto(r, id, is_del, k) {
                Some(s) => 0 <= s < self.len() && self.refs[s] == Some(r),
                None => true,
            },
        decreases k,
    {
        if k > 0 {
            self.lemma_last_winner_upto(r, id, is_del, k - 1);
        }
    }

    /// The predecessor of a new change is an existing entry.
    pub proof fn lemma_predecessor_in_range(self, reference: Option<int>, id: (int, int), is_del: bool)
        requires
            self.wf(),
            match reference {
                Some(r) => 0 <= r < self.len(),
                None => true,
            },
        ensures
            0 <= self.predecessor(reference, id, is_del) < self.len(),
    {
        match reference {
            None => {},
            Some(r) => {
                self.lemma_last_winner_upto(r, id, is_del, self.order.len() as int);
                match self.last_winner(r, id, is_del) {
                    None => {},
                    Some(s) => {
                        self.lemma_pos(s);
                        self.lemma_subtree_in_range(self.pos(s), self.order.len() as int);
                    },
                }
            },
        }
    }

    /// The last delete targeting `r` among the first `k` entries of the
    /// causal order.
    pub open spec fn last_delete_upto(self, r: int, k: int) -> Option<int>
        decreases k,
    {
        if k <= 0 {
            None
        } else {
            let e = self.order[k - 1];
            if self.refs[e] == Some(r) && self.log[e] is Delete {
                Some(e)
            } else {
                self.last_delete_upto(r, k - 1)
            }
        }
    }

    /// The reference a local insert after `r` should use: the last delete
    /// targeting `r` in causal order, or `r` itself if it has none.
    ///
    /// Referencing the delete keeps the intent "insert after the visible
    /// element at this position" under concurrent removal: the new insert
    /// lands after the tombstones.
    pub open spec fn reparent(self, r: int) -> int {
        match self.last_delete_upto(r, self.order.len() as int) {
            None => r,
            Some(d) => d,
        }
    }

    /// The last delete targeting `r` is an existing entry.
    pub proof fn lemma_last_delete_upto(self, r: int, k: int)
        requires
            self.wf(),
            k <= self.len(),
        ensures
            match self.last_delete_upto(r, k) {
                Some(d) => 0 <= d < self.len() && self.refs[d] == Some(r) && self.log[d] is Delete,
                None => true,
            },
        decreases k,
    {
        if k > 0 {
            self.lemma_last_delete_upto(r, k - 1);
        }
    }

    /// Timestamps identify entries uniquely.
    pub proof fn lemma_ts_index_unique(self, t: (int, int), i: int)
        requires
            self.wf(),
            0 <= i < self.len(),
            self.ts(i) == t,
        ensures
            self.has_ts(t),
            self.ts_index(t) == i,
    {
        assert(self.has_ts(t));
        let j = self.ts_index(t);
        if j != i {
            if j < i {
                assert(self.ts(j) != self.ts(i));
            } else {
                assert(self.ts(i) != self.ts(j));
            }
        }
    }

    /// The version value for author `a` after joining timestamp `id`.
    pub open spec fn joined(self, id: (int, int)) -> int {
        if self.version.contains_key(id.1) && self.version[id.1] >= id.0 {
            self.version[id.1]
        } else {
            id.0
        }
    }

    /// The model after weaving one change into the replica.
    pub open spec fn weave_insert(self, id: (int, int), reference: Option<int>, change: Change<T>) -> Weave<T> {
        let n = self.log.len() as int;
        let p = self.predecessor(reference, id, change is Delete);
        let pp = self.pos(p);
        let deleted1 = if change is Delete {
            self.deleted.update(match reference {
                Some(r) => r,
                None => 0,
            }, true)
        } else {
            self.deleted
        };
        Weave {
            log: self.log.push(change),
            deleted: deleted1.push(false),
            order: self.order.insert(pp + 1, n),
            refs: self.refs.push(reference),
            authors: self.authors.push(id.1),
            origs: self.origs.push(id.0),
            version: self.version.insert(id.1, self.joined(id)),
        }
    }

    /// The model after applying a batch of consecutive local changes: each
    /// change references the previous one.
    pub open spec fn weave_local(self, author: int, reference: int, changes: Seq<Change<T>>) -> Weave<T>
        decreases changes.len(),
    {
        if changes.len() == 0 {
            self
        } else {
            let n = self.log.len() as int;
            let next = self.weave_insert((n, author), Some(reference), changes[0]);
            next.weave_local(author, n, changes.drop_first())
        }
    }

    /// Whether the entry at log index `i` is a visible element.
    pub open spec fn visible_at(self, i: int) -> bool {
        self.log[i] is Insert && !self.deleted[i]
    }

    /// The value carried by the entry at log index `i`.
    pub open spec fn value_at(self, i: int) -> T
        recommends
            self.log[i] is Insert,
    {
        self.log[i]->Insert_0
    }

    /// The visible elements, with their log indices, among the causal
    /// positions in `[from, to)`.
    pub open spec fn visible_pairs(self, from: int, to: int) -> Seq<(T, int)>
        decreases to - from,
    {
        if to <= from {
            Seq::empty()
        } else {
            let rest = self.visible_pairs(from, to - 1);
            let e = self.order[to - 1];
            if self.visible_at(e) {
                rest.push((self.value_at(e), e))
            } else {
                rest
            }
        }
    }

    /// The visible elements of the replica, in causal order.
    pub open spec fn visible(self) -> Seq<(T, int)> {
        self.visible_pairs(1, self.order.len() as int)
    }

    /// The visible values of the replica, in causal order.
    pub open spec fn elements(self) -> Seq<T> {
        Seq::new(self.visible().len(), |i: int| self.visible()[i].0)
    }

    /// Well-formedness is preserved by weaving in a change with a fresh
    /// timestamp.
    pub proof fn lemma_weave_insert_wf(self, id: (int, int), reference: Option<int>, change: Change<T>)
        requires
            self.wf(),
            !self.has_ts(id),
            0 <= id.0 <= self.len(),
            0 <= id.1 <= u64::MAX as int,
            match reference {
                Some(r) => 0 <= r < self.len(),
                None => true,
            },
            change is Delete ==> reference is Some,
            change is Root ==> reference is None,
        ensures
            self.weave_insert(id, reference, change).wf(),
            self.weave_insert(id, reference, change).len() == self.len() + 1,
    {
        let n = self.len();
        let w = self.weave_insert(id, reference, change);
        let p = self.predecessor(reference, id, change is Delete);
        self.lemma_predecessor_in_range(reference, id, change is Delete);
        self.lemma_pos(p);
        let pp = self.pos(p);
        self.order.insert_ensures(pp + 1, n);
        assert(w.order.len() == n + 1);
        assert(w.log[0] is Root);
        assert(w.order[0] == 0);
        // the new order is a permutation of 0..n+1
        assert forall|k1: int, k2: int| 0 <= k1 < k2 < w.len() implies
            #[trigger] w.order[k1] != #[trigger] w.order[k2] by {
            let o1 = if k1 <= pp { self.order[k1] } else if k1 == pp + 1 { n } else { self.order[k1 - 1] };
            let o2 = if k2 <= pp { self.order[k2] } else if k2 == pp + 1 { n } else { self.order[k2 - 1] };
            assert(w.order[k1] == o1);
            assert(w.order[k2] == o2);
        }
        assert forall|i: int| 0 <= i < w.len() implies w.order.contains(i) by {
            if i == n {
                assert(w.order[pp + 1] == n);
            } else {
                assert(self.order.contains(i));
                let k = choose|k: int| 0 <= k < self.order.len() && self.order[k] == i;
                if k <= pp {
                    assert(w.order[k] == i);
                } else {
                    assert(w.order[k + 1] == i);
                }
            }
        }
        // timestamps stay unique
        assert forall|i: int, j: int| 0 <= i < j < w.len() implies
            #[trigger] w.ts(i) != #[trigger] w.ts(j) by {
            if j == n {
                assert(w.ts(i) == self.ts(i));
                if self.ts(i) == id {
                    assert(self.has_ts(id));
                }
            } else {
                assert(w.ts(i) == self.ts(i));
                assert(w.ts(j) == self.ts(j));
            }
        }
        // the version still covers every entry
        assert forall|i: int| 0 <= i < w.len() implies w.version.contains_key(#[trigger] w.authors[i])
            && w.version[w.authors[i]] >= w.origs[i] by {
            if i < n {
                assert(self.version.contains_key(self.authors[i]));
            }
        }
        // tombstone bits still characterise the deletes
        assert forall|i: int| 0 <= i < w.len() implies (#[trigger] w.deleted[i] <==> exists|j: int|
            0 <= j < w.len() && (#[trigger] w.log[j]) is Delete && w.refs[j] == Some(i)) by {
            if i < n {
                if w.deleted[i] {
                    if self.deleted[i] {
                        let j = choose|j: int| 0 <= j < n && (#[trigger] self.log[j]) is Delete
                            && self.refs[j] == Some(i);
                        assert(w.log[j] is Delete && w.refs[j] == Some(i));
                    } else {
                        assert(change is Delete && reference == Some(i));
                        assert(w.log[n] is Delete && w.refs[n] == Some(i));
                    }
                } else {
                    assert(!self.deleted[i]);
                    if exists|j: int| 0 <= j < w.len() && (#[trigger] w.log[j]) is Delete
                        && w.refs[j] == Some(i) {
                        let j = choose|j: int| 0 <= j < w.len() && (#[trigger] w.log[j]) is Delete
                            && w.refs[j] == Some(i);
                        if j < n {
                            assert(self.log[j] is Delete && self.refs[j] == Some(i));
                        } else {
                            assert(change is Delete && reference == Some(i));
                        }
                    }
                }
            } else {
                assert(!w.deleted[n]);
                if exists|j: int| 0 <= j < w.len() && (#[trigger] w.log[j]) is Delete
                    && w.refs[j] == Some(n) {
                    let j = choose|j: int| 0 <= j < w.len() && (#[trigger] w.log[j]) is Delete
                        && w.refs[j] == Some(n);
                    if j < n {
                        assert(0 <= self.refs[j]->Some_0 < j);
                    }
                }
            }
        }
    }
}


/// Every visible pair of a causal range carries an in-range log index.
pub proof fn lemma_visible_pair_indices_in_range<T>(w: Weave<T>, from: int, to: int)
    requires
        w.wf(),
        to <= w.len(),
        0 <= from,
    ensures
        forall|x: int| 0 <= x < w.visible_pairs(from, to).len()
            ==> 0 <= (#[trigger] w.visible_pairs(from, to)[x]).1 < w.len(),
    decreases to - from,
{
    if to <= from {
        assert(w.visible_pairs(from, to) =~= Seq::<(T, int)>::empty());
    } else {
        lemma_visible_pair_indices_in_range(w, from, to - 1);
        let rest = w.visible_pairs(from, to - 1);
        let vp = w.visible_pairs(from, to);
        let e = w.order[to - 1];
        assert(0 <= e < w.len());
        assert forall|x: int| 0 <= x < vp.len() implies 0 <= (#[trigger] vp[x]).1 < w.len() by {
            if w.visible_at(e) {
                assert(vp == rest.push((w.value_at(e), e)));
                if x < rest.len() {
                    assert(vp[x] == rest[x]);
                } else {
                    assert(vp[x] == (w.value_at(e), e));
                }
            } else {
                assert(vp == rest);
                assert(vp[x] == rest[x]);
            }
        }
    }
}


/// If every entry at causal positions `[mid, to)` is invisible, the visible
/// pairs of `[from, to)` are those of `[from, mid)`.
pub proof fn lemma_vp_invisible_suffix<T>(w: Weave<T>, from: int, mid: int, to: int)
    requires
        from <= mid <= to,
        forall|k: int| mid <= k < to ==> !w.visible_at(#[trigger] w.order[k]),
    ensures
        w.visible_pairs(from, to) == w.visible_pairs(from, mid),
    decreases to - mid,
{
    if to > mid {
        lemma_vp_invisible_suffix(w, from, mid, to - 1);
    }
}

/// If the visible pairs of `[from, to)` are empty, every entry at those
/// positions is invisible.
pub proof fn lemma_vp_empty_invisible<T>(w: Weave<T>, from: int, to: int)
    requires
        w.visible_pairs(from, to).len() == 0,
    ensures
        forall|k: int| from <= k < to ==> !w.visible_at(#[trigger] w.order[k]),
    decreases to - from,
{
    if to > from {
        lemma_vp_empty_invisible(w, from, to - 1);
    }
}

/// The last visible pair of `[from, to)` names the last visible causal
/// position in that range.
pub proof fn lemma_vp_last_position<T>(w: Weave<T>, from: int, to: int)
    requires
        w.visible_pairs(from, to).len() > 0,
    ensures
        exists|j: int| from <= j < to && #[trigger] w.order[j] == w.visible_pairs(from, to).last().1
            && w.visible_at(w.order[j])
            && (forall|y: int| j < y < to ==> !w.visible_at(#[trigger] w.order[y])),
    decreases to - from,
{
    if to <= from {
    } else {
        let e = w.order[to - 1];
        if w.visible_at(e) {
            assert(w.visible_pairs(from, to).last() == (w.value_at(e), e));
            assert(from <= to - 1 < to && w.order[to - 1] == w.visible_pairs(from, to).last().1
                && w.visible_at(w.order[to - 1])
                && (forall|y: int| to - 1 < y < to ==> !w.visible_at(#[trigger] w.order[y])));
        } else {
            lemma_vp_last_position(w, from, to - 1);
            let j = choose|j: int| from <= j < to - 1 && #[trigger] w.order[j] == w.visible_pairs(from, to - 1).last().1
                && w.visible_at(w.order[j])
                && (forall|y: int| j < y < to - 1 ==> !w.visible_at(#[trigger] w.order[y]));
            assert(forall|y: int| j < y < to ==> !w.visible_at(#[trigger] w.order[y]));
        }
    }
}

/// Two weaves that agree on the causal entries of `[from, to)` and on their
/// visibility have the same visible pairs there.
pub proof fn lemma_vp_congruent<T>(w1: Weave<T>, w2: Weave<T>, from: int, to: int)
    requires
        forall|k: int| from <= k < to ==> #[trigger] w1.order[k] == w2.order[k],
        forall|k: int| from <= k < to ==> (w1.visible_at(#[trigger] w1.order[k])
            <==> w2.visible_at(w2.order[k])),
        forall|k: int| from <= k < to && w1.visible_at(#[trigger] w1.order[k])
            ==> w1.value_at(w1.order[k]) == w2.value_at(w2.order[k]),
    ensures
        w1.visible_pairs(from, to) == w2.visible_pairs(from, to),
    decreases to - from,
{
    if to > from {
        lemma_vp_congruent(w1, w2, from, to - 1);
    }
}

impl<T> Weave<T> {
    /// An entry without tombstone has no delete child: no sibling scan finds
    /// a delete targeting it.
    pub proof fn lemma_no_delete_children(self, r: int, k: int)
        requires
            self.wf(),
            0 <= r < self.len(),
            !self.deleted[r],
            k <= self.len(),
        ensures
            self.last_delete_upto(r, k) is None,
        decreases k,
    {
        if k > 0 {
            self.lemma_no_delete_children(r, k - 1);
            let e = self.order[k - 1];
            if self.refs[e] == Some(r) && self.log[e] is Delete {
                assert(0 <= e < self.len());
                assert(self.deleted[r]);
            }
        }
    }

    /// A freshly minted local insert has no winning sibling when its
    /// reference carries no tombstone: its id is the largest timestamp on
    /// the replica, and no delete targets the reference.
    pub proof fn lemma_local_insert_no_winner(self, r: int, author: int, k: int)
        requires
            self.wf(),
            0 <= r < self.len(),
            !self.deleted[r],
            k <= self.len(),
        ensures
            self.last_winner_upto(r, (self.len(), author), false, k) is None,
        decreases k,
    {
        if k > 0 {
            self.lemma_local_insert_no_winner(r, author, k - 1);
            let e = self.order[k - 1];
            if self.wins(e, r, (self.len(), author), false) {
                assert(0 <= e < self.len());
                if self.log[e] is Delete {
                    assert(self.deleted[r]);
                } else {
                    assert(self.origs[e] <= e < self.len());
                    assert(!crate::distributed::ts_lt((self.len(), author), self.ts(e)));
                }
            }
        }
    }

    /// Weaving a local insert after an entry without tombstone places it
    /// directly after that entry, and the visible sequence gains the new
    /// element right there.
    pub proof fn lemma_local_insert_visible(self, r: int, author: int, value: T)
        requires
            self.wf(),
            0 <= r < self.len(),
            !self.deleted[r],
            0 <= author <= u64::MAX as int,
            // the reference is the last visible element, or the root of an
            // element-free replica
            if self.visible().len() > 0 {
                r == self.visible().last().1
            } else {
                r == 0
            },
        ensures
            ({
                let wn = self.weave_insert((self.len(), author), Some(r), Change::Insert(value));
                wn.visible() == self.visible().push((value, self.len()))
            }),
    {
        let n = self.len();
        let id = (n, author);
        let wn = self.weave_insert(id, Some(r), Change::Insert(value));
        self.lemma_local_insert_no_winner(r, author, n);
        assert(self.predecessor(Some(r), id, false) == r);
        self.lemma_pos(r);
        let pp = self.pos(r);
        self.order.insert_ensures(pp + 1, n);
        assert(wn.order.len() == n + 1);
        // positions after the anchor hold no visible entry
        assert forall|y: int| pp < y < n implies !self.visible_at(#[trigger] self.order[y]) by {
            if self.visible().len() > 0 {
                lemma_vp_last_position(self, 1, n);
                let j = choose|j: int| 1 <= j < n && #[trigger] self.order[j] == self.visible_pairs(1, n).last().1
                    && self.visible_at(self.order[j])
                    && (forall|y2: int| j < y2 < n ==> !self.visible_at(#[trigger] self.order[y2]));
                assert(self.order[j] == r);
                assert(j == pp);
            } else {
                lemma_vp_empty_invisible(self, 1, n);
            }
        }
        // the old entries keep their visibility in the new weave
        assert forall|k: int| 0 <= k < n implies (self.visible_at(#[trigger] self.order[k])
            <==> wn.visible_at(self.order[k])) by {
            assert(0 <= self.order[k] < n);
        }
        // up to and including the anchor, the visible pairs agree
        assert forall|k: int| 1 <= k < pp + 1 implies #[trigger] wn.order[k] == self.order[k] by {}
        lemma_vp_congruent(wn, self, 1, pp + 1);
        // the new element follows at once
        assert(wn.order[pp + 1] == n);
        assert(wn.visible_at(n));
        assert(wn.value_at(n) == value);
        assert(wn.visible_pairs(1, pp + 2) == wn.visible_pairs(1, pp + 1).push((value, n)));
        // beyond it, nothing is visible
        assert forall|k: int| pp + 2 <= k < n + 1 implies !wn.visible_at(#[trigger] wn.order[k]) by {
            assert(wn.order[k] == self.order[k - 1]);
        }
        lemma_vp_invisible_suffix(wn, 1, pp + 2, n + 1);
        lemma_vp_invisible_suffix(self, 1, pp + 1, n);
        assert(wn.visible() == self.visible_pairs(1, pp + 1).push((value, n)));
        assert(self.visible() == self.visible_pairs(1, pp + 1));
    }
}


/// Visible pairs concatenate over adjacent causal ranges.
pub proof fn lemma_vp_concat<T>(w: Weave<T>, a: int, b: int, c: int)
    requires
        a <= b <= c,
    ensures
        w.visible_pairs(a, c) == w.visible_pairs(a, b) + w.visible_pairs(b, c),
    decreases c - b,
{
    if c == b {
        assert(w.visible_pairs(b, c) =~= Seq::<(T, int)>::empty());
        assert(w.visible_pairs(a, c) =~= w.visible_pairs(a, b) + w.visible_pairs(b, c));
    } else {
        lemma_vp_concat(w, a, b, c - 1);
        let e = w.order[c - 1];
        if w.visible_at(e) {
            assert(w.visible_pairs(a, b) + w.visible_pairs(b, c)
                =~= (w.visible_pairs(a, b) + w.visible_pairs(b, c - 1)).push((w.value_at(e), e)));
        }
    }
}

impl<T> Weave<T> {
    /// The visible elements of the causal positions `[from, to)`, leaving
    /// out the entry at log index `x`.
    pub open spec fn visible_pairs_except(self, x: int, from: int, to: int) -> Seq<(T, int)>
        decreases to - from,
    {
        if to <= from {
            Seq::empty()
        } else {
            let rest = self.visible_pairs_except(x, from, to - 1);
            let e = self.order[to - 1];
            if self.visible_at(e) && e != x {
                rest.push((self.value_at(e), e))
            } else {
                rest
            }
        }
    }

    /// The visible pairs with one entry hidden, concatenated over adjacent
    /// causal ranges.
    pub proof fn lemma_vpe_concat(self, x: int, a: int, b: int, c: int)
        requires
            a <= b <= c,
        ensures
            self.visible_pairs_except(x, a, c)
                == self.visible_pairs_except(x, a, b) + self.visible_pairs_except(x, b, c),
        decreases c - b,
    {
        if c == b {
            assert(self.visible_pairs_except(x, b, c) =~= Seq::<(T, int)>::empty());
            assert(self.visible_pairs_except(x, a, c)
                =~= self.visible_pairs_except(x, a, b) + self.visible_pairs_except(x, b, c));
        } else {
            self.lemma_vpe_concat(x, a, b, c - 1);
            let e = self.order[c - 1];
            if self.visible_at(e) && e != x {
                assert(self.visible_pairs_except(x, a, b) + self.visible_pairs_except(x, b, c)
                    =~= (self.visible_pairs_except(x, a, b)
                        + self.visible_pairs_except(x, b, c - 1)).push((self.value_at(e), e)));
            }
        }
    }
}

/// Over a range whose entries the two weaves share, tombstoning `x` turns
/// the visible pairs into the pairs-except-`x`.
pub proof fn lemma_vp_becomes_vpe<T>(wn: Weave<T>, w: Weave<T>, x: int, from: int, to: int)
    requires
        forall|k: int| from <= k < to ==> #[trigger] wn.order[k] == w.order[k],
        forall|k: int| from <= k < to ==> (wn.visible_at(#[trigger] wn.order[k])
            <==> (w.visible_at(w.order[k]) && w.order[k] != x)),
        forall|k: int| from <= k < to && wn.visible_at(#[trigger] wn.order[k])
            ==> wn.value_at(wn.order[k]) == w.value_at(w.order[k]),
    ensures
        wn.visible_pairs(from, to) == w.visible_pairs_except(x, from, to),
    decreases to - from,
{
    if to > from {
        lemma_vp_becomes_vpe(wn, w, x, from, to - 1);
    }
}

/// The same, over a range whose entries are shifted one position to the
/// right in the new weave.
pub proof fn lemma_vp_becomes_vpe_shifted<T>(wn: Weave<T>, w: Weave<T>, x: int, lo: int, hi: int)
    requires
        forall|k: int| lo <= k < hi ==> #[trigger] wn.order[k + 1] == w.order[k],
        forall|k: int| lo <= k < hi ==> (wn.visible_at(#[trigger] wn.order[k + 1])
            <==> (w.visible_at(w.order[k]) && w.order[k] != x)),
        forall|k: int| lo <= k < hi && wn.visible_at(#[trigger] wn.order[k + 1])
            ==> wn.value_at(wn.order[k + 1]) == w.value_at(w.order[k]),
    ensures
        wn.visible_pairs(lo + 1, hi + 1) == w.visible_pairs_except(x, lo, hi),
    decreases hi - lo,
{
    if hi > lo {
        lemma_vp_becomes_vpe_shifted(wn, w, x, lo, hi - 1);
    }
}

impl<T> Weave<T> {
    /// Weaving in a delete hides exactly its target from the visible
    /// sequence.
    pub proof fn lemma_delete_hides(self, x: int, author: int)
        requires
            self.wf(),
            0 <= x < self.len(),
        ensures
            ({
                let wn = self.weave_insert((self.len(), author), Some(x), Change::Delete);
                wn.visible() == self.visible_pairs_except(x, 1, self.len())
            }),
    {
        let n = self.len();
        let id = (n, author);
        let wn = self.weave_insert(id, Some(x), Change::Delete);
        self.lemma_predecessor_in_range(Some(x), id, true);
        let p = self.predecessor(Some(x), id, true);
        self.lemma_pos(p);
        let pp = self.pos(p);
        self.order.insert_ensures(pp + 1, n);
        assert(wn.order.len() == n + 1);
        assert forall|k: int| 0 <= k < n implies (wn.visible_at(#[trigger] self.order[k])
            <==> (self.visible_at(self.order[k]) && self.order[k] != x)) by {
            assert(0 <= self.order[k] < n);
        }
        lemma_vp_becomes_vpe(wn, self, x, 1, pp + 1);
        assert(wn.order[pp + 1] == n);
        assert(!wn.visible_at(n));
        assert(wn.visible_pairs(1, pp + 2) == wn.visible_pairs(1, pp + 1));
        lemma_vp_becomes_vpe_shifted(wn, self, x, pp + 1, n);
        lemma_vp_concat(wn, 1, pp + 2, n + 1);
        assert(wn.visible_pairs(pp + 2, n + 1) == self.visible_pairs_except(x, pp + 1, n));
        self.lemma_vpe_concat(x, 1, pp + 1, n);
        assert(wn.visible() =~= self.visible_pairs_except(x, 1, n));
    }
}


impl<T> Weave<T> {
    /// A locally minted timestamp is fresh: originating indices never reach
    /// the local log length.
    pub proof fn lemma_fresh_ts(self, author: int)
        requires
            self.wf(),
        ensures
            !self.has_ts((self.len(), author)),
    {
        if self.has_ts((self.len(), author)) {
            let x = self.ts_index((self.len(), author));
            assert(self.ts(x) == (self.len(), author));
            assert(self.origs[x] <= x);
        }
    }

    /// A batch of local inserts chained off the causal tail appends its
    /// values to the visible sequence, in order.
    pub proof fn lemma_local_batch_appends(self, author: int, r: int, values: Seq<T>)
        requires
            self.wf(),
            0 <= author <= u64::MAX as int,
            r == self.order[self.len() - 1],
            !self.deleted[r],
        ensures
            ({
                let wn = self.weave_local(author, r, insert_changes_of(values));
                &&& wn.visible() == self.visible() + Seq::new(values.len(),
                        |i: int| (values[i], self.len() + i))
                &&& wn.wf()
                &&& wn.len() == self.len() + values.len()
            }),
        decreases values.len(),
    {
        let n = self.len();
        let cs = insert_changes_of(values);
        let wn = self.weave_local(author, r, cs);
        if values.len() == 0 {
            assert(wn == self);
            assert(wn.visible() =~= self.visible() + Seq::new(0, |i: int| (values[i], n + i)));
        } else {
            let id = (n, author);
            self.lemma_fresh_ts(author);
            assert(0 <= r < n);
            let w1 = self.weave_insert(id, Some(r), cs[0]);
            assert(cs[0] == Change::Insert(values[0]));
            self.lemma_weave_insert_wf(id, Some(r), cs[0]);
            // the new entry is spliced in directly after the causal tail
            self.lemma_local_insert_no_winner(r, author, n);
            assert(self.predecessor(Some(r), id, false) == r);
            self.lemma_pos(r);
            assert(self.pos(r) == n - 1) by {
                if self.pos(r) != n - 1 {
                    assert(self.order[self.pos(r)] != self.order[n - 1]);
                }
            }
            self.order.insert_ensures(n, n);
            assert(w1.order =~= self.order.push(n));
            // so the visible sequence gains the new element at the end
            assert forall|k: int| 1 <= k < n implies (w1.visible_at(#[trigger] w1.order[k])
                <==> self.visible_at(self.order[k])) by {
                assert(w1.order[k] == self.order[k]);
                assert(0 <= self.order[k] < n);
            }
            lemma_vp_congruent(w1, self, 1, n);
            assert(w1.visible_at(n));
            assert(w1.visible_pairs(1, n + 1) == w1.visible_pairs(1, n).push((values[0], n)));
            // the rest of the batch chains off the new causal tail
            assert(w1.order[w1.len() - 1] == n);
            assert(!w1.deleted[n]);
            w1.lemma_local_batch_appends(author, n, values.drop_first());
            assert(cs.drop_first() =~= insert_changes_of(values.drop_first()));
            assert(wn == w1.weave_local(author, n, insert_changes_of(values.drop_first())));
            assert(wn.visible() =~= self.visible() + Seq::new(values.len(),
                |i: int| (values[i], n + i)));
        }
    }
}

/// The changes inserting each value of `values`.
pub open spec fn insert_changes_of<T>(values: Seq<T>) -> Seq<Change<T>> {
    Seq::new(values.len(), |i: int| Change::Insert(values[i]))
}


/// Hiding an index that no entry of the range carries changes nothing.
pub proof fn lemma_vpe_absent<T>(w: Weave<T>, x: int, from: int, to: int)
    requires
        forall|k: int| from <= k < to ==> #[trigger] w.order[k] != x,
    ensures
        w.visible_pairs_except(x, from, to) == w.visible_pairs(from, to),
    decreases to - from,
{
    if to > from {
        lemma_vpe_absent(w, x, from, to - 1);
    }
}

impl<T> Weave<T> {
    /// A local insert after an entry without tombstone splits the visible
    /// sequence at that entry: the elements before it (itself included, if
    /// visible) keep their places, the new element follows, and the elements
    /// after it move one place up.
    pub proof fn lemma_local_insert_splits(self, r: int, author: int, value: T)
        requires
            self.wf(),
            0 <= r < self.len(),
            !self.deleted[r],
        ensures
            ({
                let wn = self.weave_insert((self.len(), author), Some(r), Change::Insert(value));
                wn.visible() == self.visible_pairs(1, self.pos(r) + 1)
                    + seq![(value, self.len())]
                    + self.visible_pairs(self.pos(r) + 1, self.len())
            }),
    {
        let n = self.len();
        let id = (n, author);
        let wn = self.weave_insert(id, Some(r), Change::Insert(value));
        self.lemma_local_insert_no_winner(r, author, n);
        assert(self.predecessor(Some(r), id, false) == r);
        self.lemma_pos(r);
        let pp = self.pos(r);
        self.order.insert_ensures(pp + 1, n);
        assert(wn.order.len() == n + 1);
        assert forall|k: int| 0 <= k < n implies (wn.visible_at(#[trigger] self.order[k])
            <==> self.visible_at(self.order[k])) by {
            assert(0 <= self.order[k] < n);
        }
        lemma_vp_concat(wn, 1, pp + 1, n + 1);
        lemma_vp_concat(wn, pp + 1, pp + 2, n + 1);
        lemma_vp_congruent(wn, self, 1, pp + 1);
        assert(wn.order[pp + 1] == n);
        assert(wn.visible_at(n));
        assert(wn.visible_pairs(pp + 1, pp + 1) =~= Seq::<(T, int)>::empty());
        assert(wn.visible_pairs(pp + 1, pp + 2) =~= seq![(value, n)]);
        assert forall|k: int| pp + 1 <= k < n implies #[trigger] wn.order[k + 1] == self.order[k]
            && (wn.visible_at(wn.order[k + 1]) <==> (self.visible_at(self.order[k]) && self.order[k] != -1))
            && (wn.visible_at(wn.order[k + 1]) ==> wn.value_at(wn.order[k + 1]) == self.value_at(self.order[k])) by {
            assert(0 <= self.order[k] < n);
        }
        lemma_vp_becomes_vpe_shifted(wn, self, -1, pp + 1, n);
        assert forall|k: int| pp + 1 <= k < n implies #[trigger] self.order[k] != -1 by {
            assert(0 <= self.order[k]);
        }
        lemma_vpe_absent(self, -1, pp + 1, n);
        assert(wn.visible() == wn.visible_pairs(1, pp + 1) + (wn.visible_pairs(pp + 1, pp + 2)
            + wn.visible_pairs(pp + 2, n + 1)));
        assert(wn.visible() =~= self.visible_pairs(1, pp + 1)
            + seq![(value, n)] + self.visible_pairs(pp + 1, n));
    }
}


/// The first visible pair of `[from, to)` names the first visible causal
/// position in that range.
pub proof fn lemma_vp_first_position<T>(w: Weave<T>, from: int, to: int)
    requires
        w.visible_pairs(from, to).len() > 0,
    ensures
        exists|j: int| from <= j < to && #[trigger] w.order[j] == w.visible_pairs(from, to)[0].1
            && w.visible_at(w.order[j])
            && (forall|y: int| from <= y < j ==> !w.visible_at(#[trigger] w.order[y])),
    decreases to - from,
{
    if to <= from {
    } else {
        let e = w.order[to - 1];
        let rest = w.visible_pairs(from, to - 1);
        if rest.len() > 0 {
            lemma_vp_first_position(w, from, to - 1);
            let j = choose|j: int| from <= j < to - 1 && #[trigger] w.order[j] == rest[0].1
                && w.visible_at(w.order[j])
                && (forall|y: int| from <= y < j ==> !w.visible_at(#[trigger] w.order[y]));
            if w.visible_at(e) {
                assert(w.visible_pairs(from, to)[0] == rest[0]);
            }
            assert(from <= j < to && w.order[j] == w.visible_pairs(from, to)[0].1);
        } else {
            assert(w.visible_at(e));
            assert(w.visible_pairs(from, to)[0] == (w.value_at(e), e));
            lemma_vp_empty_invisible(w, from, to - 1);
            assert(from <= to - 1 < to && w.order[to - 1] == w.visible_pairs(from, to)[0].1);
        }
    }
}

impl<T> Weave<T> {
    /// The visible pairs of a range split at a visible entry: the entry's
    /// pair sits between the pairs before and after its causal position, and
    /// hiding the entry removes exactly that pair.
    pub proof fn lemma_vp_split_at(self, x: int, from: int, to: int, px: int)
        requires
            self.wf(),
            0 <= from <= px < to <= self.len(),
            self.order[px] == x,
            self.visible_at(x),
        ensures
            self.visible_pairs(from, to) == self.visible_pairs(from, px)
                + seq![(self.value_at(x), x)] + self.visible_pairs(px + 1, to),
            self.visible_pairs_except(x, from, to) == self.visible_pairs(from, px)
                + self.visible_pairs(px + 1, to),
    {
        lemma_vp_concat(self, from, px, to);
        lemma_vp_concat(self, px, px + 1, to);
        assert(self.visible_pairs(px, px) =~= Seq::<(T, int)>::empty());
        assert(self.visible_pairs(px, px + 1) =~= seq![(self.value_at(x), x)]);
        self.lemma_vpe_concat(x, from, px, to);
        self.lemma_vpe_concat(x, px, px + 1, to);
        assert(self.visible_pairs_except(x, px, px) =~= Seq::<(T, int)>::empty());
        assert(self.visible_pairs_except(x, px, px + 1) =~= Seq::<(T, int)>::empty());
        assert forall|k: int| from <= k < px implies #[trigger] self.order[k] != x by {
            if self.order[k] == self.order[px] && k != px {
                assert(false);
            }
        }
        lemma_vpe_absent(self, x, from, px);
        assert forall|k: int| px + 1 <= k < to implies #[trigger] self.order[k] != x by {
            if self.order[k] == self.order[px] && k != px {
                assert(false);
            }
        }
        lemma_vpe_absent(self, x, px + 1, to);
        assert(self.visible_pairs(from, to) =~= self.visible_pairs(from, px)
            + seq![(self.value_at(x), x)] + self.visible_pairs(px + 1, to));
        assert(self.visible_pairs_except(x, from, to) =~= self.visible_pairs(from, px)
            + self.visible_pairs(px + 1, to));
    }

    /// Weaving in a delete that targets the first visible element shortens
    /// the visible sequence by exactly its first element.
    pub proof fn lemma_delete_first_visible(self, author: int)
        requires
            self.wf(),
            self.visible().len() > 0,
        ensures
            ({
                let x = self.visible()[0].1;
                let wn = self.weave_insert((self.len(), author), Some(x), Change::Delete);
                &&& 0 <= x < self.len()
                &&& wn.visible() == self.visible().drop_first()
            }),
    {
        let n = self.len();
        let x = self.visible()[0].1;
        lemma_vp_first_position(self, 1, n);
        let j = choose|j: int| 1 <= j < n && #[trigger] self.order[j] == self.visible()[0].1
            && self.visible_at(self.order[j])
            && (forall|y: int| 1 <= y < j ==> !self.visible_at(#[trigger] self.order[y]));
        assert(0 <= x < n);
        let wn = self.weave_insert((n, author), Some(x), Change::Delete);
        self.lemma_delete_hides(x, author);
        self.lemma_vp_split_at(x, 1, n, j);
        lemma_vp_invisible_suffix(self, 1, 1, j);
        assert(self.visible_pairs(1, j) =~= Seq::<(T, int)>::empty());
        assert(self.visible() == self.visible_pairs(1, j)
            + seq![(self.value_at(x), x)] + self.visible_pairs(j + 1, n));
        assert(wn.visible() == self.visible_pairs(1, j) + self.visible_pairs(j + 1, n));
        assert(wn.visible() =~= self.visible().drop_first());
    }
}

} // verus!
