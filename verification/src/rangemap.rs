use vstd::prelude::*;
use core::marker::PhantomData;
use crate::index::LogIndex;

verus! {

/// A key usable in a [`RangeFromMap`]: totally ordered via a `usize` value.
pub trait RangeKey: Sized + Copy {
    /// The key as a mathematical integer.
    spec fn kval(self) -> int;

    /// Executable mirror of [`RangeKey::kval`].
    fn exec_kval(&self) -> (r: usize)
        ensures
            r as int == self.kval(),
    ;
}

impl RangeKey for usize {
    open spec fn kval(self) -> int {
        self as int
    }

    fn exec_kval(&self) -> usize {
        *self
    }
}

impl RangeKey for LogIndex {
    open spec fn kval(self) -> int {
        self.0 as int
    }

    fn exec_kval(&self) -> usize {
        self.0
    }
}

/// A value storable in a [`RangeFromMap`]: values can be tested for equality.
pub trait ValueEq: Sized + Copy {
    /// Spec-level equality of two values.
    spec fn veq(self, other: Self) -> bool;

    /// Equality of values is reflexive.
    proof fn veq_refl(self)
        ensures
            self.veq(self),
    ;

    /// Executable mirror of [`ValueEq::veq`].
    fn same(&self, other: &Self) -> (r: bool)
        ensures
            r <==> self.veq(*other),
    ;
}

impl ValueEq for u64 {
    open spec fn veq(self, other: Self) -> bool {
        self == other
    }

    proof fn veq_refl(self) {
    }

    fn same(&self, other: &Self) -> bool {
        *self == *other
    }
}

impl ValueEq for usize {
    open spec fn veq(self, other: Self) -> bool {
        self == other
    }

    proof fn veq_refl(self) {
    }

    fn same(&self, other: &Self) -> bool {
        *self == *other
    }
}

/// Relies on str's `PartialEq`: two string slices compare equal iff their
/// character contents are equal.
#[verifier::external_body]
fn str_content_eq(a: &str, b: &str) -> (r: bool)
    ensures
        r <==> a@ == b@,
{
    a == b
}

impl<'a> ValueEq for &'a str {
    open spec fn veq(self, other: Self) -> bool {
        self@ == other@
    }

    proof fn veq_refl(self) {
    }

    fn same(&self, other: &Self) -> bool {
        str_content_eq(self, other)
    }
}

/// The value governing key `k`: the value of the greatest stored key at most
/// `k`, if any.
pub open spec fn range_find<V>(s: Seq<(usize, V)>, k: int) -> Option<V>
    decreases s.len(),
{
    if s.len() == 0 {
        None
    } else if s.last().0 <= k {
        Some(s.last().1)
    } else {
        range_find(s.drop_last(), k)
    }
}

/// A map containing values for ranges of keys (i.e. `key..`).
///
/// Only the value at the start of a run of keys is stored; all subsequent
/// keys inherit it until the next override.
#[derive(PartialEq, Eq, Clone, Debug)]
pub struct RangeFromMap<K, V> {
    entries: Vec<(usize, V)>,
    key_marker: PhantomData<K>,
}

impl<K: RangeKey, V: ValueEq> RangeFromMap<K, V> {
    /// The stored run starts, in ascending key order.
    pub closed spec fn pairs(self) -> Seq<(usize, V)> {
        self.entries@
    }

    /// The value read for a key.
    pub open spec fn spec_get(self, k: int) -> Option<V> {
        range_find(self.pairs(), k)
    }

    /// Keys are strictly sorted, so each key starts at most one run.
    pub closed spec fn wf(self) -> bool {
        forall|i: int, j: int|
            0 <= i < j < self.entries@.len() ==> (#[trigger] self.entries@[i]).0 < (#[trigger] self.entries@[j]).0
    }

    /// All stored keys are at most `b`.
    pub closed spec fn all_keys_le(self, b: int) -> bool {
        forall|i: int| 0 <= i < self.entries@.len() ==> (#[trigger] self.entries@[i]).0 <= b
    }

    /// A bound on the stored keys is preserved upward.
    pub proof fn lemma_all_keys_le_mono(self, b1: int, b2: int)
        requires
            self.all_keys_le(b1),
            b1 <= b2,
        ensures
            self.all_keys_le(b2),
    {
    }

    /// Beyond all stored keys, every key reads the same value.
    pub proof fn lemma_get_above_all(self, b: int, q: int)
        requires
            self.all_keys_le(b),
            q >= b,
        ensures
            self.spec_get(q) == self.spec_get(b),
        decreases self.pairs().len(),
    {
        if self.pairs().len() > 0 {
            if !(self.pairs().last().0 <= b) {
                assert(false);
            }
        }
    }

    /// Constructs an empty map.
    pub fn new() -> (r: Self)
        ensures
            r.wf(),
            r.pairs().len() == 0,
            forall|k: int| #[trigger] r.spec_get(k) is None,
            forall|b: int| #[trigger] r.all_keys_le(b),
    {
        RangeFromMap { entries: Vec::new(), key_marker: PhantomData }
    }

    /// Reads the value governing `key`.
    pub fn get(&self, key: &K) -> (r: Option<V>)
        requires
            self.wf(),
        ensures
            r == self.spec_get(key.kval()),
    {
        let k = key.exec_kval();
        let ghost ks = k as int;
        let mut i: usize = self.entries.len();
        proof {
            assert(self.entries@.take(i as int) =~= self.entries@);
        }
        while i > 0
            invariant
                ks == k as int,
                ks == key.kval(),
                0 <= i <= self.entries@.len(),
                range_find(self.entries@, ks) == range_find(self.entries@.take(i as int), ks),
                self.wf(),
            decreases i,
        {
            let (ek, ev) = self.entries[i - 1];
            proof {
                let s = self.entries@.take(i as int);
                assert(s.last() == self.entries@[i as int - 1]);
            }
            if ek <= k {
                proof {
                    let s = self.entries@.take(i as int);
                    assert(s.last().0 as int <= ks);
                    assert(range_find(s, ks) == Some(s.last().1));
                }
                return Some(ev);
            }
            proof {
                let s = self.entries@.take(i as int);
                assert(s.last().0 as int > ks);
                assert(range_find(s, ks) == range_find(s.drop_last(), ks));
                assert(s.drop_last() =~= self.entries@.take(i as int - 1));
            }
            i -= 1;
        }
        proof {
            assert(self.entries@.take(0) =~= Seq::<(usize, V)>::empty());
        }
        None
    }

    /// Sets a key-value pair, omitting the write if `value` is already the
    /// value read for `key`.
    #[verifier::rlimit(80)]
    pub fn set(&mut self, key: K, value: V)
        requires
            old(self).wf(),
        ensures
            final(self).wf(),
            (match old(self).spec_get(key.kval()) {
                Some(c) => c.veq(value),
                None => false,
            }) ==> *final(self) == *old(self),
            forall|q: int| q < key.kval() ==> #[trigger] final(self).spec_get(q) == old(self).spec_get(q),
            final(self).spec_get(key.kval()) == Some(value)
                || (old(self).spec_get(key.kval()) matches Some(c) && c.veq(value)),
            forall|b: int| old(self).all_keys_le(b) && key.kval() <= b ==> #[trigger] final(self).all_keys_le(b),
            old(self).all_keys_le(key.kval()) ==> forall|q: int| q >= key.kval() ==> (
                #[trigger] final(self).spec_get(q) matches Some(c) && c.veq(value)),
    {
        let k = key.exec_kval();
        let ghost ks = k as int;
        let skip_write = match self.get(&key) {
            Some(c) => c.same(&value),
            None => false,
        };
        if skip_write {
            proof {
                if old(self).all_keys_le(ks) {
                    assert forall|q: int| q >= ks implies (
                        #[trigger] final(self).spec_get(q) matches Some(c) && c.veq(value)) by {
                        self.lemma_get_above_all(ks, q);
                    }
                }
            }
            return;
        }
        let mut j: usize = 0;
        while j < self.entries.len() && self.entries[j].0 < k
            invariant
                ks == k as int,
                0 <= j <= self.entries@.len(),
                forall|i: int| 0 <= i < j ==> (#[trigger] self.entries@[i]).0 < k,
                self.wf(),
                *self == *old(self),
            decreases self.entries@.len() - j,
        {
            j += 1;
        }
        let exists_here = j < self.entries.len() && self.entries[j].0 == k;
        if exists_here {
            self.entries.remove(j);
        }
        let ghost pre = self.entries@.subrange(0, j as int);
        let ghost post = self.entries@.subrange(j as int, self.entries@.len() as int);
        proof {
            assert(self.entries@ =~= pre + post);
            assert forall|i: int| 0 <= i < post.len() implies (#[trigger] post[i]).0 > k by {
                if exists_here {
                    assert(post[i] == old(self).entries@[j as int + 1 + i]);
                    assert(old(self).entries@[j as int].0 < old(self).entries@[j as int + 1 + i].0);
                } else {
                    assert(post[i] == old(self).entries@[j as int + i]);
                    assert(old(self).entries@[j as int].0 >= k);
                    if i > 0 {
                        assert(old(self).entries@[j as int].0 < old(self).entries@[j as int + i].0);
                    }
                    assert(post[i].0 >= k);
                    if post[i].0 == k {
                        assert(false);
                    }
                }
            }
        }
        self.entries.insert(j, (k, value));
        proof {
            assert(self.entries@ =~= pre + (seq![(k, value)] + post));
            let s = self.entries@;
            assert forall|a: int, b: int|
                0 <= a < b < s.len() implies (#[trigger] s[a]).0 < (#[trigger] s[b]).0 by {
                let t = pre + (seq![(k, value)] + post);
                assert(s[a] == t[a]);
                assert(s[b] == t[b]);
            }
            let mid = seq![(k, value)];
            let orig = old(self).entries@;
            if exists_here {
                assert(orig =~= pre + (seq![orig[j as int]] + post));
            } else {
                assert(orig =~= pre + post);
            }
            lemma_range_find_parts(pre, mid, post, orig, ks,
                if exists_here { Some(j as int) } else { None });
            value.veq_refl();
            assert forall|b: int| old(self).all_keys_le(b) && ks <= b implies #[trigger] final(self).all_keys_le(b) by {
                let t = pre + (mid + post);
                assert forall|i: int| 0 <= i < s.len() implies (#[trigger] s[i]).0 <= b by {
                    assert(s[i] == t[i]);
                    if i < pre.len() {
                        assert(pre[i] == orig[i]);
                    } else if i > pre.len() {
                        if exists_here {
                            assert(post[i - pre.len() as int - 1] == orig[i]);
                        } else {
                            assert(post[i - pre.len() as int - 1] == orig[i - 1]);
                        }
                    }
                }
            }
            if old(self).all_keys_le(ks) {
                assert(post.len() == 0) by {
                    if post.len() > 0 {
                        if exists_here {
                            assert(post[0] == orig[pre.len() as int + 1]);
                        } else {
                            assert(post[0] == orig[pre.len() as int]);
                        }
                        assert(post[0].0 > k);
                        assert(false);
                    }
                }
                assert forall|q: int| q >= ks implies (
                    #[trigger] final(self).spec_get(q) matches Some(c) && c.veq(value)) by {
                    assert(range_find(pre + (mid + post), q) == Some(mid[0].1));
                }
            }
        }
    }
}

/// Relates `range_find` on a sequence with a run start inserted at its sorted
/// position to `range_find` on the original sequence.
proof fn lemma_range_find_parts<V>(
    pre: Seq<(usize, V)>,
    mid: Seq<(usize, V)>,
    post: Seq<(usize, V)>,
    orig: Seq<(usize, V)>,
    ks: int,
    replaced: Option<int>,
)
    requires
        mid.len() == 1,
        mid[0].0 == ks,
        forall|i: int| 0 <= i < pre.len() ==> (#[trigger] pre[i]).0 < ks,
        forall|i: int| 0 <= i < post.len() ==> (#[trigger] post[i]).0 > ks,
        match replaced {
            Some(j) => j == pre.len() && orig =~= pre + (seq![orig[j]] + post) && 0 <= j < orig.len()
                && orig[j].0 == ks,
            None => orig =~= pre + post,
        },
    ensures
        forall|q: int| q < ks ==> #[trigger] range_find(pre + (mid + post), q) == range_find(orig, q),
        range_find(pre + (mid + post), ks) == Some(mid[0].1),
        forall|q: int| q >= ks && (forall|i: int| 0 <= i < post.len() ==> (#[trigger] post[i]).0 > q)
            ==> #[trigger] range_find(pre + (mid + post), q) == Some(mid[0].1),
{
    let s = pre + (mid + post);
    assert forall|q: int| q < ks implies #[trigger] range_find(s, q) == range_find(orig, q) by {
        assert forall|i: int| pre.len() <= i < s.len() implies (#[trigger] s[i]).0 > q by {
            if i == pre.len() {
                assert(s[i] == mid[0]);
            } else {
                assert(s[i] == post[i - pre.len() as int - 1]);
            }
        }
        lemma_range_find_skip_high(s, pre, q);
        match replaced {
            Some(j) => {
                assert forall|i: int| pre.len() <= i < orig.len() implies (#[trigger] orig[i]).0 > q by {
                    if i > j {
                        assert(orig[i] == post[i - j - 1]);
                    } else {
                        assert(orig[i].0 == ks);
                    }
                }
                lemma_range_find_skip_high(orig, pre, q);
            },
            None => {
                assert forall|i: int| pre.len() <= i < orig.len() implies (#[trigger] orig[i]).0 > q by {
                    assert(orig[i] == post[i - pre.len() as int]);
                }
                lemma_range_find_skip_high(orig, pre, q);
            },
        }
    }
    assert(s[pre.len() as int] == mid[0]);
    assert(range_find(s, ks) == Some(mid[0].1)) by {
        assert forall|i: int| pre.len() < i < s.len() implies (#[trigger] s[i]).0 > ks by {
            assert(s[i] == post[i - pre.len() as int - 1]);
        }
        lemma_range_find_hits(s, pre.len() as int, ks);
    }
    assert forall|q: int| q >= ks && (forall|i: int| 0 <= i < post.len() ==> (#[trigger] post[i]).0 > q)
        implies #[trigger] range_find(s, q) == Some(mid[0].1) by {
        assert forall|i: int| pre.len() < i < s.len() implies (#[trigger] s[i]).0 > q by {
            assert(s[i] == post[i - pre.len() as int - 1]);
        }
        lemma_range_find_hits(s, pre.len() as int, q);
    }
}

/// `range_find` below every key of a trailing segment ignores that segment.
proof fn lemma_range_find_skip_high<V>(s: Seq<(usize, V)>, pre: Seq<(usize, V)>, q: int)
    requires
        pre.len() <= s.len(),
        forall|i: int| 0 <= i < pre.len() ==> #[trigger] s[i] == pre[i],
        forall|i: int| pre.len() <= i < s.len() ==> (#[trigger] s[i]).0 > q,
    ensures
        range_find(s, q) == range_find(pre, q),
    decreases s.len(),
{
    if s.len() == 0 {
        assert(pre =~= s);
    } else if s.len() == pre.len() {
        assert(pre =~= s);
    } else {
        assert(s.last().0 > q);
        lemma_range_find_skip_high(s.drop_last(), pre, q);
    }
}

/// `range_find` at or above a key whose successors are all greater returns
/// that key's value.
proof fn lemma_range_find_hits<V>(s: Seq<(usize, V)>, j: int, q: int)
    requires
        0 <= j < s.len(),
        s[j].0 <= q,
        forall|i: int| j < i < s.len() ==> (#[trigger] s[i]).0 > q,
    ensures
        range_find(s, q) == Some(s[j].1),
    decreases s.len(),
{
    if j == s.len() - 1 {
    } else {
        assert(s.last().0 > q);
        lemma_range_find_hits(s.drop_last(), j, q);
    }
}

} // verus!
