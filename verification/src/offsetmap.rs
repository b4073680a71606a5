use vstd::prelude::*;
use core::marker::PhantomData;
use crate::index::{LogIndex, Offset, opt_index};

verus! {

/// A map from log indices to optional log indices whose default value for an
/// absent key is the key shifted by `O::delta()`.
///
/// Only entries that deviate from the default are stored (plus an explicit
/// `None` marker where a chain terminates), which compresses the common case
/// of consecutively appended entries.
#[derive(PartialEq, Eq, Clone, Debug)]
pub struct OffsetMap<K, O> {
    entries: Vec<(usize, Option<usize>)>,
    key_marker: PhantomData<K>,
    offset_marker: PhantomData<O>,
}

/// The stored exception for key `k`, if any: the first entry with key `k`.
pub open spec fn find_at(s: Seq<(usize, Option<usize>)>, k: int) -> Option<Option<int>>
    decreases s.len(),
{
    if s.len() == 0 {
        None
    } else if s[0].0 == k {
        Some(match s[0].1 {
            Some(v) => Some(v as int),
            None => None,
        })
    } else {
        find_at(s.drop_first(), k)
    }
}

/// `find_at` over a concatenation takes the first sequence's answer if it has
/// one.
pub proof fn lemma_find_at_add(a: Seq<(usize, Option<usize>)>, b: Seq<(usize, Option<usize>)>, k: int)
    ensures
        find_at(a + b, k) == if find_at(a, k) is Some {
            find_at(a, k)
        } else {
            find_at(b, k)
        },
    decreases a.len(),
{
    if a.len() == 0 {
        assert(a + b =~= b);
    } else {
        assert((a + b).drop_first() =~= a.drop_first() + b);
        lemma_find_at_add(a.drop_first(), b, k);
    }
}

/// If no element of `s` has key `k`, then `find_at` finds nothing.
pub proof fn lemma_find_at_none(s: Seq<(usize, Option<usize>)>, k: int)
    requires
        forall|i: int| 0 <= i < s.len() ==> (#[trigger] s[i]).0 != k,
    ensures
        find_at(s, k) is None,
    decreases s.len(),
{
    if s.len() > 0 {
        lemma_find_at_none(s.drop_first(), k);
    }
}

impl<K, O: Offset> OffsetMap<K, O> {
    /// The stored exception for key `k`, if any.
    pub closed spec fn stored_at(self, k: int) -> Option<Option<int>> {
        find_at(self.entries@, k)
    }

    /// Whether an exception is stored for key `k`.
    pub open spec fn has_stored(self, k: int) -> bool {
        self.stored_at(k) is Some
    }

    /// The value read for key `k`: the stored exception, or the default.
    pub open spec fn spec_get(self, k: int) -> Option<int> {
        match self.stored_at(k) {
            Some(v) => v,
            None => Some(k + O::delta()),
        }
    }

    /// Keys are strictly sorted, so each key is stored at most once.
    pub closed spec fn wf(self) -> bool {
        forall|i: int, j: int|
            0 <= i < j < self.entries@.len() ==> (#[trigger] self.entries@[i]).0 < (#[trigger] self.entries@[j]).0
    }

    /// Constructs an empty map: every key reads its default.
    pub fn new() -> (r: Self)
        ensures
            r.wf(),
            forall|k: int| !(#[trigger] r.has_stored(k)),
            forall|k: int| #[trigger] r.spec_get(k) == Some(k + O::delta()),
    {
        let r = OffsetMap { entries: Vec::new(), key_marker: PhantomData, offset_marker: PhantomData };
        proof {
            assert forall|k: int| !(#[trigger] r.has_stored(k)) by {
                lemma_find_at_none(r.entries@, k);
            }
        }
        r
    }

    /// Reads the value for `key`, the default applied.
    pub fn get(&self, key: &LogIndex) -> (r: Option<LogIndex>)
        requires
            self.wf(),
            self.has_stored(key.0 as int) || 0 <= key.0 + O::delta() <= usize::MAX,
        ensures
            opt_index(r) == self.spec_get(key.0 as int),
    {
        let k = key.0;
        let ghost ks = k as int;
        proof {
            assert(self.entries@.skip(0) =~= self.entries@);
        }
        let mut i: usize = 0;
        while i < self.entries.len()
            invariant
                ks == k as int,
                k == key.0,
                0 <= i <= self.entries@.len(),
                find_at(self.entries@, ks) == find_at(self.entries@.skip(i as int), ks),
                self.wf(),
                self.has_stored(ks) || 0 <= ks + O::delta() <= usize::MAX,
            decreases self.entries@.len() - i,
        {
            let (ek, ev) = self.entries[i];
            proof {
                let s = self.entries@.skip(i as int);
                assert(s[0] == self.entries@[i as int]);
                assert(s[0] == (ek, ev));
            }
            if ek == k {
                proof {
                    let s = self.entries@.skip(i as int);
                    assert(s[0].0 as int == ks);
                    assert(find_at(s, ks) == Some(match s[0].1 {
                        Some(v) => Some(v as int),
                        None => None,
                    }));
                }
                return match ev {
                    Some(v) => Some(LogIndex(v)),
                    None => None,
                };
            }
            proof {
                let s = self.entries@.skip(i as int);
                assert(s[0].0 as int != ks);
                assert(find_at(s, ks) == find_at(s.drop_first(), ks));
                assert(s.drop_first() =~= self.entries@.skip(i as int + 1));
            }
            i += 1;
        }
        proof {
            assert(self.entries@.skip(i as int) =~= Seq::<(usize, Option<usize>)>::empty());
            assert(!self.has_stored(ks));
        }
        let d = O::exec_delta();
        let v = ((k as i128) + (d as i128)) as usize;
        Some(LogIndex(v))
    }

    /// Writes the value for `key`, omitting the write if `value` equals the
    /// defaulted value.
    #[verifier::rlimit(50)]
    pub fn set(&mut self, key: LogIndex, value: Option<LogIndex>)
        requires
            old(self).wf(),
        ensures
            final(self).wf(),
            forall|q: int| q != key.0 as int ==> #[trigger] final(self).stored_at(q) == old(self).stored_at(q),
            forall|q: int| q != key.0 as int ==> #[trigger] final(self).spec_get(q) == old(self).spec_get(q),
            final(self).spec_get(key.0 as int) == opt_index(value),
            final(self).has_stored(key.0 as int) == (opt_index(value) != Some(key.0 + O::delta())),
    {
        let k = key.0;
        let ghost ks = k as int;
        let d = O::exec_delta();
        let is_default = match value {
            Some(v) => (v.0 as i128) == (k as i128) + (d as i128),
            None => false,
        };
        let mut j: usize = 0;
        while j < self.entries.len() && self.entries[j].0 < k
            invariant
                ks == k as int,
                k == key.0,
                d as int == O::delta(),
                is_default == (opt_index(value) == Some(ks + O::delta())),
                0 <= j <= self.entries@.len(),
                forall|i: int| 0 <= i < j ==> (#[trigger] self.entries@[i]).0 < k,
                self.wf(),
                *self == *old(self),
            decreases self.entries@.len() - j,
        {
            j += 1;
        }
        let ghost pre = self.entries@.subrange(0, j as int);
        let ghost post0 = self.entries@.subrange(j as int, self.entries@.len() as int);
        proof {
            assert(self.entries@ =~= pre + post0);
            assert forall|i: int| 0 <= i < post0.len() implies (#[trigger] post0[i]).0 >= k by {
                assert(post0[i] == self.entries@[j as int + i]);
                assert(self.entries@[j as int].0 >= k);
                if i > 0 {
                    assert(self.entries@[j as int].0 < self.entries@[j as int + i].0);
                }
            }
        }
        let exists_here = j < self.entries.len() && self.entries[j].0 == k;
        if exists_here {
            self.entries.remove(j);
        }
        let ghost mid = self.entries@.subrange(j as int, self.entries@.len() as int);
        proof {
            assert(self.entries@ =~= pre + mid);
            if exists_here {
                assert(mid =~= post0.drop_first());
            } else {
                assert(mid =~= post0);
            }
            assert forall|i: int| 0 <= i < mid.len() implies (#[trigger] mid[i]).0 > k by {
                if exists_here {
                    assert(mid[i] == post0[i + 1]);
                    assert(old(self).entries@[j as int].0 < old(self).entries@[j as int + 1 + i].0);
                } else {
                    assert(mid[i].0 >= k);
                    assert(mid[i] == old(self).entries@[j as int + i]);
                    if mid[i].0 == k {
                        assert(i > 0 ==> old(self).entries@[j as int].0 < old(self).entries@[j as int + i].0);
                        assert(old(self).entries@[j as int].0 == k);
                        assert(false);
                    }
                }
            }
        }
        let ghost sv_spec: Option<usize> = match value {
            Some(v) => Some(v.0),
            None => None,
        };
        if !is_default {
            let sv = match value {
                Some(v) => Some(v.0),
                None => None,
            };
            self.entries.insert(j, (k, sv));
            proof {
                assert(self.entries@ =~= pre + (seq![(k, sv)] + mid));
            }
        }
        proof {
            let ins: Seq<(usize, Option<usize>)> = if !is_default {
                seq![(k, sv_spec)]
            } else {
                Seq::empty()
            };
            if is_default {
                assert(Seq::<(usize, Option<usize>)>::empty() + mid =~= mid);
            }
            assert(self.entries@ =~= pre + (ins + mid));
            lemma_find_at_none(pre, ks);
            lemma_find_at_none(mid, ks);
            if !is_default {
                assert(find_at(ins, ks) == Some(opt_index(value)));
            }
            assert forall|q: int| true implies #[trigger] find_at(self.entries@, q) == (
                if q == ks {
                    if is_default { None } else { Some(opt_index(value)) }
                } else {
                    find_at(old(self).entries@, q)
                }
            ) by {
                lemma_find_at_add(pre, ins + mid, q);
                lemma_find_at_add(ins, mid, q);
                lemma_find_at_add(pre, post0, q);
                if q != ks {
                    if !is_default {
                        lemma_find_at_none(ins, q);
                    }
                    if exists_here {
                        assert(post0[0].0 == k);
                        assert(find_at(post0, q) == find_at(post0.drop_first(), q));
                    }
                }
            }
            assert(final(self).spec_get(ks) == opt_index(value)) by {
                if is_default {
                    assert(find_at(self.entries@, ks) is None);
                }
            }
            assert forall|a: int, b: int|
                0 <= a < b < self.entries@.len() implies (#[trigger] self.entries@[a]).0 < (#[trigger] self.entries@[b]).0 by {
                let s = pre + (ins + mid);
                assert(self.entries@[a] == s[a]);
                assert(self.entries@[b] == s[b]);
            }
        }
    }
}

} // verus!
