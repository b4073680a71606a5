use vstd::prelude::*;
use crate::change::Change;
use crate::distributed::{Timestamp, Op, OpPayload};
use crate::index::{LogIndex, IndexRange, opt_index};
use crate::version::Version;
use crate::weave::Weave;
use crate::Chronofold;

verus! {

/// The timestamp of the entry at log index `i`, as an executable value.
pub open spec fn entry_timestamp<T>(w: Weave<T>, i: int) -> Timestamp {
    Timestamp(LogIndex(w.origs[i] as usize), w.authors[i] as u64)
}

/// The op that reconstitutes the entry at log index `i`.
pub open spec fn op_at<T>(w: Weave<T>, i: int) -> Op<T> {
    Op {
        id: entry_timestamp(w, i),
        payload: match w.log[i] {
            Change::Root => OpPayload::Root,
            Change::Insert(v) => OpPayload::Insert(
                match w.refs[i] {
                    Some(j) => Some(entry_timestamp(w, j)),
                    None => None,
                },
                v,
            ),
            Change::Delete => OpPayload::Delete(entry_timestamp(w, w.refs[i]->Some_0)),
        },
    }
}

/// The ops of the log-order index range `[from, to)`.
pub open spec fn ops_in<T>(w: Weave<T>, from: int, to: int) -> Seq<Op<T>>
    decreases to - from,
{
    if to <= from {
        Seq::empty()
    } else {
        ops_in(w, from, to - 1).push(op_at(w, to - 1))
    }
}

/// Whether `version` has not yet seen the op.
pub open spec fn newer_than<T>(version: Version, op: Op<T>) -> bool {
    match version.spec_get(op.id.1 as int) {
        Some(m) => op.id.0.0 as int > m,
        None => true,
    }
}

/// The ops among the first `k` log entries that `version` has not seen.
pub open spec fn newer_ops_upto<T>(w: Weave<T>, version: Version, k: int) -> Seq<Op<T>>
    decreases k,
{
    if k <= 0 {
        Seq::empty()
    } else {
        let rest = newer_ops_upto(w, version, k - 1);
        if newer_than(version, op_at(w, k - 1)) {
            rest.push(op_at(w, k - 1))
        } else {
            rest
        }
    }
}

/// The causal position at which iteration over `range` starts.
pub open spec fn start_pos<T>(w: Weave<T>, range: IndexRange) -> int {
    let base = match range {
        IndexRange::Full => 1,
        IndexRange::To(_) => 1,
        IndexRange::ToIncluding(_) => 1,
        IndexRange::From(a) => if (a.0 as int) < w.len() { w.pos(a.0 as int) } else { w.len() },
        IndexRange::Between(a, _) => if (a.0 as int) < w.len() { w.pos(a.0 as int) } else { w.len() },
        IndexRange::BetweenIncluding(a, _) => if (a.0 as int) < w.len() { w.pos(a.0 as int) } else { w.len() },
    };
    if base < w.len() && w.log[w.order[base]] is Root {
        base + 1
    } else {
        base
    }
}

/// The causal position at which iteration over `range` stops.
pub open spec fn end_pos<T>(w: Weave<T>, range: IndexRange) -> int {
    match range {
        IndexRange::Full => w.len(),
        IndexRange::From(_) => w.len(),
        IndexRange::To(b) => if (b.0 as int) < w.len() { w.pos(b.0 as int) } else { w.len() },
        IndexRange::Between(_, b) => if (b.0 as int) < w.len() { w.pos(b.0 as int) } else { w.len() },
        IndexRange::ToIncluding(b) => if (b.0 as int) < w.len() { w.pos(b.0 as int) + 1 } else { w.len() },
        IndexRange::BetweenIncluding(_, b) => if (b.0 as int) < w.len() { w.pos(b.0 as int) + 1 } else { w.len() },
    }
}

/// A causal range skips an invisible entry at its start.
pub proof fn lemma_visible_pairs_skip_front<T>(w: Weave<T>, from: int, to: int)
    requires
        0 <= from < to,
        !w.visible_at(w.order[from]),
    ensures
        w.visible_pairs(from, to) == w.visible_pairs(from + 1, to),
    decreases to - from,
{
    if to == from + 1 {
        assert(w.visible_pairs(from, from) =~= Seq::<(T, int)>::empty());
        assert(w.visible_pairs(from + 1, to) =~= Seq::<(T, int)>::empty());
        assert(w.visible_pairs(from, to) == w.visible_pairs(from, from));
    } else {
        lemma_visible_pairs_skip_front(w, from, to - 1);
    }
}

/// The first position of `a` in the causal order vector, or its length.
pub(crate) fn position_of(ord: &Vec<LogIndex>, a: LogIndex) -> (r: usize)
    ensures
        r <= ord@.len(),
        (r as int) < ord@.len() ==> ord@[r as int] == a,
        forall|x: int| 0 <= x < r ==> #[trigger] ord@[x] != a,
{
    let mut k: usize = 0;
    while k < ord.len()
        invariant
            0 <= k <= ord@.len(),
            forall|x: int| 0 <= x < k ==> #[trigger] ord@[x] != a,
        decreases ord@.len() - k,
    {
        if ord[k].0 == a.0 {
            return k;
        }
        k += 1;
    }
    k
}

impl<T: Copy> Chronofold<T> {
    /// Resolves a range of log indices to causal positions.
    fn causal_positions(&self, range: IndexRange, ord: &Vec<LogIndex>) -> (r: (usize, usize))
        requires
            self.inv(),
            ord@.len() == self.weave().len(),
            forall|x: int| 0 <= x < ord@.len() ==> (#[trigger] ord@[x]).0 as int == self.weave().order[x],
        ensures
            r.0 as int == start_pos(self.weave(), range),
            r.1 as int == end_pos(self.weave(), range),
            r.0 <= ord@.len(),
            r.1 <= ord@.len(),
    {
        let ghost w = self.weave();
        let n = ord.len();
        let base = match range {
            IndexRange::Full => 1usize,
            IndexRange::To(_) => 1usize,
            IndexRange::ToIncluding(_) => 1usize,
            IndexRange::From(a) => self.resolve_start(a, ord),
            IndexRange::Between(a, _) => self.resolve_start(a, ord),
            IndexRange::BetweenIncluding(a, _) => self.resolve_start(a, ord),
        };
        proof {
            if n == 0 {
                assert(w.len() >= 1);
            }
        }
        let ps = if base < n && matches!(self.log_at(ord[base]), Change::Root) {
            base + 1
        } else {
            base
        };
        let pe = match range {
            IndexRange::Full => n,
            IndexRange::From(_) => n,
            IndexRange::To(b) => self.resolve_start(b, ord),
            IndexRange::Between(_, b) => self.resolve_start(b, ord),
            IndexRange::ToIncluding(b) => {
                let p = self.resolve_start(b, ord);
                if p < n {
                    p + 1
                } else {
                    n
                }
            },
            IndexRange::BetweenIncluding(_, b) => {
                let p = self.resolve_start(b, ord);
                if p < n {
                    p + 1
                } else {
                    n
                }
            },
        };
        (ps, pe)
    }

    /// The causal position of `a`, or the log length if `a` is out of
    /// bounds.
    fn resolve_start(&self, a: LogIndex, ord: &Vec<LogIndex>) -> (r: usize)
        requires
            self.inv(),
            ord@.len() == self.weave().len(),
            forall|x: int| 0 <= x < ord@.len() ==> (#[trigger] ord@[x]).0 as int == self.weave().order[x],
        ensures
            r as int == if (a.0 as int) < self.weave().len() {
                self.weave().pos(a.0 as int)
            } else {
                self.weave().len()
            },
            (a.0 as int) < self.weave().len() ==> (r as int) < self.weave().len(),
            r <= ord@.len(),
    {
        let ghost w = self.weave();
        if a.0 >= self.log_size() {
            return ord.len();
        }
        let p = position_of(ord, a);
        proof {
            self.lemma_inv_wf();
            w.lemma_pos(a.0 as int);
            let wp = w.pos(a.0 as int);
            assert(ord@[wp] == a);
            if p as int != wp {
                assert(ord@[p as int] == a);
            }
        }
        p
    }

    /// Returns the visible elements and their log indices, in causal order,
    /// restricted to the causal range.
    pub fn iter_range(&self, range: IndexRange) -> (r: Vec<(T, LogIndex)>)
        requires
            self.inv(),
        ensures
            ({
                let w = self.weave();
                let vp = w.visible_pairs(start_pos(w, range), end_pos(w, range));
                r@.len() == vp.len()
                    && forall|x: int| 0 <= x < vp.len() ==> (#[trigger] r@[x]).0 == vp[x].0
                        && r@[x].1.0 as int == vp[x].1
            }),
    {
        let ghost w = self.weave();
        let ord = self.causal_order();
        let (ps, pe) = self.causal_positions(range, &ord);
        let mut r: Vec<(T, LogIndex)> = Vec::new();
        let mut k = ps;
        proof {
            assert(w.visible_pairs(ps as int, ps as int) =~= Seq::<(T, int)>::empty());
            if pe < ps {
                assert(w.visible_pairs(ps as int, pe as int) =~= Seq::<(T, int)>::empty());
            }
        }
        while k < pe
            invariant
                self.inv(),
                w == self.weave(),
                ord@.len() == w.len(),
                forall|x: int| 0 <= x < ord@.len() ==> (#[trigger] ord@[x]).0 as int == w.order[x],
                ps <= k,
                pe <= ord@.len(),
                k <= pe || k == ps,
                ({
                    let vp = w.visible_pairs(ps as int, k as int);
                    r@.len() == vp.len()
                        && forall|x: int| 0 <= x < vp.len() ==> (#[trigger] r@[x]).0 == vp[x].0
                            && r@[x].1.0 as int == vp[x].1
                }),
            decreases pe - k,
        {
            let e = ord[k];
            proof {
                assert(e.0 as int == w.order[k as int]);
                assert(0 <= (e.0 as int) && (e.0 as int) < w.len());
            }
            match self.log_at(e) {
                Change::Insert(v) => {
                    if !self.is_deleted(e) {
                        r.push((v, e));
                    }
                },
                _ => {},
            }
            k += 1;
        }
        proof {
            if pe < ps {
                assert(w.visible_pairs(ps as int, pe as int) =~= w.visible_pairs(ps as int, ps as int));
            }
        }
        r
    }

    /// Returns the visible elements and their log indices, in causal order.
    pub fn iter(&self) -> (r: Vec<(T, LogIndex)>)
        requires
            self.inv(),
        ensures
            ({
                let v = self.weave().visible();
                r@.len() == v.len()
                    && forall|x: int| 0 <= x < v.len() ==> (#[trigger] r@[x]).0 == v[x].0
                        && r@[x].1.0 as int == v[x].1
            }),
    {
        let ghost w = self.weave();
        let r = self.iter_range(IndexRange::Full);
        proof {
            self.lemma_inv_wf();
            if 1 < w.len() && w.log[w.order[1]] is Root {
                assert(!w.visible_at(w.order[1]));
                lemma_visible_pairs_skip_front(w, 1, w.len());
            }
            if w.len() == 1 {
                assert(w.visible_pairs(1, 1) =~= Seq::<(T, int)>::empty());
                assert(w.visible_pairs(2, 1) =~= Seq::<(T, int)>::empty());
            }
        }
        r
    }

    /// Returns the visible values, in causal order.
    pub fn iter_elements(&self) -> (r: Vec<T>)
        requires
            self.inv(),
        ensures
            r@ == self.weave().elements(),
    {
        let pairs = self.iter();
        let mut r: Vec<T> = Vec::new();
        let mut k: usize = 0;
        let ghost w = self.weave();
        while k < pairs.len()
            invariant
                0 <= k <= pairs@.len(),
                r@.len() == k,
                pairs@.len() == w.visible().len(),
                forall|x: int| 0 <= x < pairs@.len() ==> (#[trigger] pairs@[x]).0 == w.visible()[x].0,
                forall|x: int| 0 <= x < k ==> #[trigger] r@[x] == w.visible()[x].0,
            decreases pairs@.len() - k,
        {
            let (v, _) = pairs[k];
            r.push(v);
            k += 1;
        }
        proof {
            assert(r@ =~= w.elements());
        }
        r
    }

    /// Returns the number of visible elements in the chronofold.
    pub fn len(&self) -> (r: usize)
        requires
            self.inv(),
        ensures
            r as int == self.weave().visible().len(),
    {
        self.iter().len()
    }

    /// Returns `true` if the chronofold contains no visible elements.
    pub fn is_empty(&self) -> (r: bool)
        requires
            self.inv(),
        ensures
            r <==> self.weave().visible().len() == 0,
    {
        self.len() == 0
    }

    /// Returns the changes of the log, in log order.
    pub fn iter_changes(&self) -> (r: Vec<Change<T>>)
        requires
            self.inv(),
        ensures
            r@ == self.weave().log,
    {
        let n = self.log_size();
        let mut r: Vec<Change<T>> = Vec::new();
        let mut k: usize = 0;
        let ghost w = self.weave();
        while k < n
            invariant
                self.inv(),
                w == self.weave(),
                n as int == w.len(),
                0 <= k <= n,
                r@.len() == k,
                forall|x: int| 0 <= x < k ==> #[trigger] r@[x] == w.log[x],
            decreases n - k,
        {
            r.push(self.log_at(LogIndex(k)));
            k += 1;
        }
        proof {
            assert(r@ =~= w.log);
        }
        r
    }

    /// Reconstitutes the op for the entry at a valid log index.
    pub(crate) fn op_for(&self, k: LogIndex) -> (r: Op<T>)
        requires
            self.inv(),
            (k.0 as int) < self.log_len(),
        ensures
            r == op_at(self.weave(), k.0 as int),
    {
        let ghost w = self.weave();
        proof {
            self.lemma_inv_wf();
        }
        let id = match self.timestamp(k) {
            Some(t) => t,
            None => {
                proof {
                    assert(false);
                }
                Timestamp(LogIndex(0), 0)
            },
        };
        proof {
            assert(id.0.0 as int == w.origs[k.0 as int]);
            assert(id.1 as int == w.authors[k.0 as int]);
            assert(id == entry_timestamp(w, k.0 as int));
        }
        let reference: Option<Timestamp> = match self.reference_of(k) {
            Some(p) => match self.timestamp(p) {
                Some(t) => {
                    proof {
                        assert(t == entry_timestamp(w, p.0 as int));
                    }
                    Some(t)
                },
                None => {
                    proof {
                        assert(false);
                    }
                    None
                },
            },
            None => None,
        };
        let payload = match self.log_at(k) {
            Change::Root => OpPayload::Root,
            Change::Insert(v) => OpPayload::Insert(reference, v),
            Change::Delete => {
                match reference {
                    Some(t) => OpPayload::Delete(t),
                    None => {
                        proof {
                            assert(w.log[k.0 as int] is Delete);
                            assert(w.refs[k.0 as int] is Some);
                            assert(false);
                        }
                        OpPayload::Root
                    },
                }
            },
        };
        Op { id, payload }
    }

    /// Returns the ops of a log-order index range, in log order.
    ///
    /// Ops are independent of this replica's subjective order: each op
    /// reconstitutes its id and reference timestamps from the secondary
    /// maps.
    pub fn iter_ops(&self, range: IndexRange) -> (r: Vec<Op<T>>)
        requires
            self.inv(),
        ensures
            ({
                let w = self.weave();
                r@ == ops_in(w, log_range_start(w, range), log_range_end(w, range))
            }),
    {
        let ghost w = self.weave();
        let n = self.log_size();
        let s = match range {
            IndexRange::Full => 0usize,
            IndexRange::To(_) => 0usize,
            IndexRange::ToIncluding(_) => 0usize,
            IndexRange::From(a) => if a.0 < n { a.0 } else { n },
            IndexRange::Between(a, _) => if a.0 < n { a.0 } else { n },
            IndexRange::BetweenIncluding(a, _) => if a.0 < n { a.0 } else { n },
        };
        let e = match range {
            IndexRange::Full => n,
            IndexRange::From(_) => n,
            IndexRange::To(b) => if b.0 < n { b.0 } else { n },
            IndexRange::Between(_, b) => if b.0 < n { b.0 } else { n },
            IndexRange::ToIncluding(b) => if b.0 < n { b.0 + 1 } else { n },
            IndexRange::BetweenIncluding(_, b) => if b.0 < n { b.0 + 1 } else { n },
        };
        let mut r: Vec<Op<T>> = Vec::new();
        let mut k = s;
        proof {
            assert(ops_in(w, s as int, s as int) =~= Seq::<Op<T>>::empty());
            if e < s {
                assert(ops_in(w, s as int, e as int) =~= Seq::<Op<T>>::empty());
            }
        }
        while k < e
            invariant
                self.inv(),
                w == self.weave(),
                e <= w.len(),
                s <= k,
                k <= e || k == s,
                r@ == ops_in(w, s as int, k as int),
            decreases e - k,
        {
            let op = self.op_for(LogIndex(k));
            r.push(op);
            k += 1;
        }
        r
    }

    /// Returns the ops that a peer at `version` has not seen, in log order.
    pub fn iter_newer_ops(&self, version: &Version) -> (r: Vec<Op<T>>)
        requires
            self.inv(),
        ensures
            r@ == newer_ops_upto(self.weave(), *version, self.weave().len()),
    {
        let ghost w = self.weave();
        let n = self.log_size();
        let mut r: Vec<Op<T>> = Vec::new();
        let mut k: usize = 0;
        while k < n
            invariant
                self.inv(),
                w == self.weave(),
                n as int == w.len(),
                0 <= k <= n,
                r@ == newer_ops_upto(w, *version, k as int),
            decreases n - k,
        {
            let op = self.op_for(LogIndex(k));
            let keep = match version.get(&op.id.1) {
                None => true,
                Some(idx) => op.id.0.0 > idx.0,
            };
            if keep {
                r.push(op);
            }
            k += 1;
        }
        r
    }
}

/// The first log index of a log-order range.
pub open spec fn log_range_start<T>(w: Weave<T>, range: IndexRange) -> int {
    match range {
        IndexRange::Full => 0,
        IndexRange::To(_) => 0,
        IndexRange::ToIncluding(_) => 0,
        IndexRange::From(a) => if (a.0 as int) < w.len() { a.0 as int } else { w.len() },
        IndexRange::Between(a, _) => if (a.0 as int) < w.len() { a.0 as int } else { w.len() },
        IndexRange::BetweenIncluding(a, _) => if (a.0 as int) < w.len() { a.0 as int } else { w.len() },
    }
}

/// The first log index past a log-order range.
pub open spec fn log_range_end<T>(w: Weave<T>, range: IndexRange) -> int {
    match range {
        IndexRange::Full => w.len(),
        IndexRange::From(_) => w.len(),
        IndexRange::To(b) => if (b.0 as int) < w.len() { b.0 as int } else { w.len() },
        IndexRange::Between(_, b) => if (b.0 as int) < w.len() { b.0 as int } else { w.len() },
        IndexRange::ToIncluding(b) => if (b.0 as int) < w.len() { b.0 as int + 1 } else { w.len() },
        IndexRange::BetweenIncluding(_, b) => if (b.0 as int) < w.len() { b.0 as int + 1 } else { w.len() },
    }
}


/// The causal predecessor of `a`: the last entry of the causal walk from
/// `a`'s reference that lies before `a`.
///
/// The root is its own predecessor. An entry without a reference has none.
/// An index at or beyond the end of the log is treated as the index the next
/// appended entry would get: its walk starts at the last log entry and runs
/// to the causal tail.
pub open spec fn index_before_spec<T>(w: Weave<T>, a: LogIndex) -> Option<int> {
    if (a.0 as int) < w.len() && w.log[a.0 as int] is Root {
        Some(a.0 as int)
    } else {
        let rr = if (a.0 as int) < w.len() {
            w.refs[a.0 as int]
        } else {
            Some(w.len() - 1)
        };
        match rr {
            None => None,
            Some(r) => {
                let pa = if (a.0 as int) < w.len() {
                    w.pos(a.0 as int)
                } else {
                    w.len()
                };
                let rp = w.pos(r);
                Some(if pa > rp {
                    w.order[pa - 1]
                } else {
                    w.order[w.len() - 1]
                })
            },
        }
    }
}

impl<T: Copy> Chronofold<T> {
    /// Returns the previous log index in causal order, per
    /// [`index_before_spec`].
    pub(crate) fn index_before(&self, a: LogIndex) -> (r: Option<LogIndex>)
        requires
            self.inv(),
        ensures
            opt_index(r) == index_before_spec(self.weave(), a),
            match r {
                Some(i) => (i.0 as int) < self.weave().len(),
                None => true,
            },
    {
        let ghost w = self.weave();
        proof {
            self.lemma_inv_wf();
        }
        let n = self.log_size();
        if a.0 < n && matches!(self.log_at(a), Change::Root) {
            return Some(a);
        }
        let rr: Option<LogIndex> = if a.0 < n {
            self.reference_of(a)
        } else {
            Some(LogIndex(n - 1))
        };
        let r = match rr {
            None => {
                return None;
            },
            Some(r) => r,
        };
        let ord = self.causal_order();
        let pa = if a.0 < n {
            self.resolve_start(a, &ord)
        } else {
            n
        };
        let rp = self.resolve_start(r, &ord);
        proof {
            w.lemma_pos(r.0 as int);
        }
        if pa > rp {
            Some(ord[pa - 1])
        } else {
            Some(ord[n - 1])
        }
    }
}


/// Range positions lie within the causal order.
pub proof fn lemma_range_pos_bounds<T>(w: Weave<T>, range: IndexRange)
    requires
        w.wf(),
    ensures
        0 <= start_pos(w, range) <= w.len(),
        0 <= end_pos(w, range) <= w.len(),
{
    match range {
        IndexRange::Full => {},
        IndexRange::From(a) => {
            if (a.0 as int) < w.len() {
                w.lemma_pos(a.0 as int);
            }
        },
        IndexRange::To(b) => {
            if (b.0 as int) < w.len() {
                w.lemma_pos(b.0 as int);
            }
        },
        IndexRange::ToIncluding(b) => {
            if (b.0 as int) < w.len() {
                w.lemma_pos(b.0 as int);
            }
        },
        IndexRange::Between(a, b) => {
            if (a.0 as int) < w.len() {
                w.lemma_pos(a.0 as int);
            }
            if (b.0 as int) < w.len() {
                w.lemma_pos(b.0 as int);
            }
        },
        IndexRange::BetweenIncluding(a, b) => {
            if (a.0 as int) < w.len() {
                w.lemma_pos(a.0 as int);
            }
            if (b.0 as int) < w.len() {
                w.lemma_pos(b.0 as int);
            }
        },
    }
}


/// The members of the subtree rooted at causal position `sp`, in causal
/// order, collected over positions below `k`.
pub open spec fn subtree_seq<T>(w: Weave<T>, sp: int, k: int) -> Seq<int>
    decreases k - sp,
{
    if k <= sp + 1 {
        seq![w.order[sp]]
    } else {
        let prev = subtree_seq(w, sp, k - 1);
        let e = w.order[k - 1];
        if w.refs[e] matches Some(p) && w.subtree_members(sp, k - 1).contains(p) {
            prev.push(e)
        } else {
            prev
        }
    }
}

impl<T: Copy> Chronofold<T> {
    /// Returns the log indices of the subtree rooted at `root`, in causal
    /// order: `root` itself and every entry whose reference transitively
    /// lies within the subtree.
    ///
    /// The first item is always `root`.
    pub fn iter_subtree(&self, root: LogIndex) -> (r: Vec<LogIndex>)
        requires
            self.inv(),
            (root.0 as int) < self.log_len(),
        ensures
            ({
                let w = self.weave();
                let ss = subtree_seq(w, w.pos(root.0 as int), w.len());
                r@.len() == ss.len()
                    && forall|x: int| 0 <= x < ss.len() ==> (#[trigger] r@[x]).0 as int == ss[x]
            }),
    {
        let ghost w = self.weave();
        proof {
            self.lemma_inv_wf();
            w.lemma_pos(root.0 as int);
        }
        let ghost sp = w.pos(root.0 as int);
        let ord = self.causal_order();
        let n = ord.len();
        let mut members: Vec<bool> = vec![false; n];
        let mut r: Vec<LogIndex> = Vec::new();
        let mut started = false;
        let mut k: usize = 0;
        while k < n
            invariant
                self.inv(),
                w == self.weave(),
                n == w.len(),
                ord@.len() == n,
                forall|x: int| 0 <= x < n ==> (#[trigger] ord@[x]).0 as int == w.order[x],
                members@.len() == n,
                0 <= k <= n,
                0 <= sp < n,
                w.order[sp] == root.0 as int,
                (root.0 as int) < n,
                started <==> k > sp,
                !started ==> r@.len() == 0 && (forall|x: int| 0 <= x < n ==> !(#[trigger] members@[x])),
                started ==> forall|x: int| 0 <= x < n ==>
                    ((#[trigger] members@[x]) <==> w.subtree_members(sp, k as int).contains(x)),
                started ==> ({
                    let ss = subtree_seq(w, sp, k as int);
                    r@.len() == ss.len()
                        && forall|x: int| 0 <= x < ss.len() ==> (#[trigger] r@[x]).0 as int == ss[x]
                }),
            decreases n - k,
        {
            let e = ord[k];
            proof {
                assert(e.0 as int == w.order[k as int]);
                assert(0 <= (e.0 as int) && (e.0 as int) < n);
            }
            if started {
                proof {
                    w.lemma_subtree_in_range(sp, k as int);
                }
                let in_subtree = match self.reference_of(e) {
                    Some(p) => members[p.0],
                    None => false,
                };
                if in_subtree {
                    let slot = &mut members[e.0];
                    *slot = true;
                    r.push(e);
                }
                proof {
                    let msp = w.subtree_members(sp, k as int);
                    let enew = w.order[k as int];
                    if w.refs[enew] matches Some(p) && msp.contains(p) {
                        assert(w.subtree_members(sp, k as int + 1) == msp.insert(enew));
                        assert(subtree_seq(w, sp, k as int + 1) == subtree_seq(w, sp, k as int).push(enew));
                    } else {
                        assert(w.subtree_members(sp, k as int + 1) == msp);
                        assert(subtree_seq(w, sp, k as int + 1) == subtree_seq(w, sp, k as int));
                    }
                }
            } else if e.0 == root.0 {
                proof {
                    assert(k as int == sp) by {
                        w.lemma_pos(root.0 as int);
                    }
                }
                let slot = &mut members[e.0];
                *slot = true;
                r.push(e);
                started = true;
                proof {
                    assert(w.subtree_members(sp, sp + 1) =~= set![w.order[sp]]);
                    assert(subtree_seq(w, sp, k as int + 1) =~= seq![w.order[sp]]);
                    assert forall|x: int| 0 <= x < n implies
                        ((#[trigger] members@[x]) <==> w.subtree_members(sp, k as int + 1).contains(x)) by {
                        assert(w.subtree_members(sp, k as int + 1).contains(x) <==> x == root.0 as int);
                    }
                }
            } else {
                proof {
                    if k as int == sp {
                        assert(w.order[sp] == root.0 as int);
                        assert(false);
                    }
                }
            }
            k += 1;
        }
        proof {
            assert(started);
        }
        r
    }
}


/// The ops of a log-order range line up with its entries.
pub proof fn lemma_ops_in_index<T>(w: Weave<T>, from: int, to: int)
    requires
        from <= to,
    ensures
        ops_in(w, from, to).len() == to - from,
        forall|k: int| 0 <= k < to - from ==> #[trigger] ops_in(w, from, to)[k] == op_at(w, from + k),
    decreases to - from,
{
    if to > from {
        lemma_ops_in_index(w, from, to - 1);
    }
}

} // verus!
