use vstd::prelude::*;
use crate::index::LogIndex;
use crate::distributed::Timestamp;

verus! {

/// The log index recorded for an author: the first entry with that author.
pub open spec fn author_find(s: Seq<(u64, usize)>, a: int) -> Option<int>
    decreases s.len(),
{
    if s.len() == 0 {
        None
    } else if s[0].0 == a {
        Some(s[0].1 as int)
    } else {
        author_find(s.drop_first(), a)
    }
}

/// `author_find` over a concatenation takes the first sequence's answer if it
/// has one.
proof fn lemma_author_find_add(a: Seq<(u64, usize)>, b: Seq<(u64, usize)>, k: int)
    ensures
        author_find(a + b, k) == if author_find(a, k) is Some {
            author_find(a, k)
        } else {
            author_find(b, k)
        },
    decreases a.len(),
{
    if a.len() == 0 {
        assert(a + b =~= b);
    } else {
        assert((a + b).drop_first() =~= a.drop_first() + b);
        lemma_author_find_add(a.drop_first(), b, k);
    }
}

/// If no element of `s` has author `a`, then `author_find` finds nothing.
proof fn lemma_author_find_none(s: Seq<(u64, usize)>, a: int)
    requires
        forall|i: int| 0 <= i < s.len() ==> (#[trigger] s[i]).0 != a,
    ensures
        author_find(s, a) is None,
    decreases s.len(),
{
    if s.len() > 0 {
        lemma_author_find_none(s.drop_first(), a);
    }
}

/// A vector clock representing the chronofold's version: the highest known
/// originating log index per author.
#[derive(Clone, Debug)]
pub struct Version {
    entries: Vec<(u64, usize)>,
}

impl Version {
    /// The recorded (author, log index) pairs, in ascending author order.
    pub closed spec fn pairs(self) -> Seq<(u64, usize)> {
        self.entries@
    }

    /// The version's log index for an author.
    pub open spec fn spec_get(self, a: int) -> Option<int> {
        author_find(self.pairs(), a)
    }

    /// Authors are strictly sorted, so each author is recorded at most once.
    pub closed spec fn wf(self) -> bool {
        forall|i: int, j: int|
            0 <= i < j < self.entries@.len() ==> (#[trigger] self.entries@[i]).0 < (#[trigger] self.entries@[j]).0
    }

    /// Constructs a new, empty version.
    pub fn new() -> (r: Self)
        ensures
            r.wf(),
            r.pairs().len() == 0,
            forall|a: int| #[trigger] r.spec_get(a) is None,
    {
        Version { entries: Vec::new() }
    }

    /// Returns the version's log index for `author`.
    pub fn get(&self, author: &u64) -> (r: Option<LogIndex>)
        ensures
            match r {
                Some(i) => self.spec_get(*author as int) == Some(i.0 as int),
                None => self.spec_get(*author as int) is None,
            },
    {
        let a = *author;
        let ghost asp = a as int;
        proof {
            assert(self.entries@.skip(0) =~= self.entries@);
        }
        let mut i: usize = 0;
        while i < self.entries.len()
            invariant
                asp == a as int,
                a == *author,
                0 <= i <= self.entries@.len(),
                author_find(self.entries@, asp) == author_find(self.entries@.skip(i as int), asp),
            decreases self.entries@.len() - i,
        {
            let (ea, ev) = self.entries[i];
            proof {
                let s = self.entries@.skip(i as int);
                assert(s[0] == self.entries@[i as int]);
            }
            if ea == a {
                proof {
                    let s = self.entries@.skip(i as int);
                    assert(s[0].0 as int == asp);
                    assert(author_find(s, asp) == Some(s[0].1 as int));
                }
                return Some(LogIndex(ev));
            }
            proof {
                let s = self.entries@.skip(i as int);
                assert(s[0].0 as int != asp);
                assert(author_find(s, asp) == author_find(s.drop_first(), asp));
                assert(s.drop_first() =~= self.entries@.skip(i as int + 1));
            }
            i += 1;
        }
        proof {
            assert(self.entries@.skip(i as int) =~= Seq::<(u64, usize)>::empty());
        }
        None
    }

    /// Increments the version using a timestamp: the author's recorded index
    /// becomes the maximum of its previous value and the timestamp's index.
    #[verifier::rlimit(50)]
    pub fn inc(&mut self, timestamp: &Timestamp)
        requires
            old(self).wf(),
        ensures
            final(self).wf(),
            forall|a: int| a != timestamp.1 as int ==> #[trigger] final(self).spec_get(a) == old(self).spec_get(a),
            final(self).spec_get(timestamp.1 as int) == Some(match old(self).spec_get(timestamp.1 as int) {
                Some(m) => if m >= timestamp.0.0 as int { m } else { timestamp.0.0 as int },
                None => timestamp.0.0 as int,
            }),
    {
        let a = timestamp.1;
        let idx = timestamp.0.0;
        let ghost asp = a as int;
        let mut j: usize = 0;
        while j < self.entries.len() && self.entries[j].0 < a
            invariant
                asp == a as int,
                0 <= j <= self.entries@.len(),
                forall|i: int| 0 <= i < j ==> (#[trigger] self.entries@[i]).0 < a,
                self.wf(),
                *self == *old(self),
            decreases self.entries@.len() - j,
        {
            j += 1;
        }
        let exists_here = j < self.entries.len() && self.entries[j].0 == a;
        let new_val = if exists_here {
            let (_, cur) = self.entries[j];
            if cur >= idx { cur } else { idx }
        } else {
            idx
        };
        let ghost orig = self.entries@;
        if exists_here {
            self.entries.remove(j);
        }
        let ghost pre = self.entries@.subrange(0, j as int);
        let ghost post = self.entries@.subrange(j as int, self.entries@.len() as int);
        proof {
            assert(self.entries@ =~= pre + post);
            assert forall|i: int| 0 <= i < post.len() implies (#[trigger] post[i]).0 > a by {
                if exists_here {
                    assert(post[i] == orig[j as int + 1 + i]);
                    assert(orig[j as int].0 < orig[j as int + 1 + i].0);
                } else {
                    assert(post[i] == orig[j as int + i]);
                    assert(orig[j as int].0 >= a);
                    if i > 0 {
                        assert(orig[j as int].0 < orig[j as int + i].0);
                    }
                    if post[i].0 == a {
                        assert(false);
                    }
                }
            }
            assert forall|i: int| 0 <= i < pre.len() implies (#[trigger] pre[i]).0 < a by {
                assert(pre[i] == orig[i]);
            }
        }
        self.entries.insert(j, (a, new_val));
        proof {
            let mid: Seq<(u64, usize)> = seq![(a, new_val)];
            assert(self.entries@ =~= pre + (mid + post));
            assert forall|x: int, y: int|
                0 <= x < y < self.entries@.len() implies (#[trigger] self.entries@[x]).0 < (#[trigger] self.entries@[y]).0 by {
                let t = pre + (mid + post);
                assert(self.entries@[x] == t[x]);
                assert(self.entries@[y] == t[y]);
                if x == pre.len() {
                    assert(t[y] == post[y - pre.len() as int - 1]);
                } else if y == pre.len() {
                } else if x > pre.len() {
                    assert(t[x] == post[x - pre.len() as int - 1]);
                    assert(t[y] == post[y - pre.len() as int - 1]);
                } else if y > pre.len() {
                    assert(t[y] == post[y - pre.len() as int - 1]);
                }
            }
            lemma_author_find_none(pre, asp);
            assert(author_find(orig, asp) == if exists_here {
                Some(orig[j as int].1 as int)
            } else {
                None
            }) by {
                if exists_here {
                    assert(orig =~= pre + (seq![orig[j as int]] + post));
                    lemma_author_find_add(pre, seq![orig[j as int]] + post, asp);
                    lemma_author_find_add(seq![orig[j as int]], post, asp);
                    assert(seq![orig[j as int]][0].0 as int == asp);
                } else {
                    assert(orig =~= pre + post);
                    lemma_author_find_add(pre, post, asp);
                    lemma_author_find_none(post, asp);
                }
            }
            assert forall|q: int| true implies #[trigger] author_find(self.entries@, q) == (
                if q == asp {
                    Some(new_val as int)
                } else {
                    author_find(orig, q)
                }
            ) by {
                lemma_author_find_add(pre, mid + post, q);
                lemma_author_find_add(mid, post, q);
                if exists_here {
                    assert(orig =~= pre + (seq![orig[j as int]] + post));
                    lemma_author_find_add(pre, seq![orig[j as int]] + post, q);
                    lemma_author_find_add(seq![orig[j as int]], post, q);
                } else {
                    assert(orig =~= pre + post);
                    lemma_author_find_add(pre, post, q);
                }
                if q != asp {
                    lemma_author_find_none(mid, q);
                    if exists_here {
                        lemma_author_find_none(seq![orig[j as int]], q);
                    }
                }
            }
        }
    }

    /// Returns the timestamps recorded in this version, one per author, in
    /// ascending author order.
    pub fn iter(&self) -> (r: Vec<Timestamp>)
        ensures
            r@.len() == self.pairs().len(),
            forall|i: int| 0 <= i < r@.len() ==> #[trigger] r@[i]
                == Timestamp(LogIndex(self.pairs()[i].1), self.pairs()[i].0),
    {
        let mut r: Vec<Timestamp> = Vec::new();
        let mut i: usize = 0;
        while i < self.entries.len()
            invariant
                0 <= i <= self.entries@.len(),
                r@.len() == i,
                forall|x: int| 0 <= x < i ==> #[trigger] r@[x]
                    == Timestamp(LogIndex(self.entries@[x].1), self.entries@[x].0),
            decreases self.entries@.len() - i,
        {
            let (a, v) = self.entries[i];
            r.push(Timestamp(LogIndex(v), a));
            i += 1;
        }
        r
    }

    /// Whether every entry of `other` is covered by this version.
    fn dominates(&self, other: &Version) -> (r: bool)
        ensures
            r <==> Self::spec_dominates(*self, *other),
    {
        let mut i: usize = 0;
        while i < other.entries.len()
            invariant
                0 <= i <= other.entries@.len(),
                forall|x: int| 0 <= x < i ==> match self.spec_get((#[trigger] other.entries@[x]).0 as int) {
                    Some(m) => m >= other.entries@[x].1 as int,
                    None => false,
                },
            decreases other.entries@.len() - i,
        {
            let (a, v) = other.entries[i];
            match self.get(&a) {
                Some(m) => {
                    if m.0 < v {
                        return false;
                    }
                },
                None => {
                    return false;
                },
            }
            i += 1;
        }
        true
    }

    /// Whether `u` covers every entry of `v`.
    pub open spec fn spec_dominates(u: Version, v: Version) -> bool {
        forall|x: int| 0 <= x < v.pairs().len() ==> match u.spec_get((#[trigger] v.pairs()[x]).0 as int) {
            Some(m) => m >= v.pairs()[x].1 as int,
            None => false,
        }
    }
}

impl PartialEq for Version {
    fn eq(&self, other: &Version) -> (r: bool) {
        if self.entries.len() != other.entries.len() {
            return false;
        }
        let ghost n = self.entries@.len();
        let mut i: usize = 0;
        while i < self.entries.len()
            invariant
                self.entries@.len() == other.entries@.len(),
                0 <= i <= self.entries@.len(),
                forall|x: int| 0 <= x < i ==> #[trigger] self.entries@[x] == other.entries@[x],
            decreases self.entries@.len() - i,
        {
            let (a, v) = self.entries[i];
            let (b, w) = other.entries[i];
            if a != b || v != w {
                return false;
            }
            i += 1;
        }
        proof {
            assert(self.entries@ =~= other.entries@);
        }
        true
    }
}

impl Eq for Version {
}

impl vstd::std_specs::cmp::PartialEqSpecImpl for Version {
    open spec fn obeys_eq_spec() -> bool {
        true
    }

    open spec fn eq_spec(&self, other: &Version) -> bool {
        self.pairs() == other.pairs()
    }
}

impl PartialOrd for Version {
    fn partial_cmp(&self, other: &Version) -> (r: Option<core::cmp::Ordering>) {
        if self == other {
            Some(core::cmp::Ordering::Equal)
        } else if self.dominates(other) {
            Some(core::cmp::Ordering::Greater)
        } else if other.dominates(self) {
            Some(core::cmp::Ordering::Less)
        } else {
            None
        }
    }
}

impl vstd::std_specs::cmp::PartialOrdSpecImpl for Version {
    open spec fn obeys_partial_cmp_spec() -> bool {
        true
    }

    open spec fn partial_cmp_spec(&self, other: &Version) -> Option<core::cmp::Ordering> {
        if self.pairs() == other.pairs() {
            Some(core::cmp::Ordering::Equal)
        } else if Version::spec_dominates(*self, *other) {
            Some(core::cmp::Ordering::Greater)
        } else if Version::spec_dominates(*other, *self) {
            Some(core::cmp::Ordering::Less)
        } else {
            None
        }
    }
}

} // verus!
