//! A small association store keyed by 64-bit ids, the backing for stream
//! tables, reassembly tables, and scheduler queues.
//!
//! Entries are held in insertion order with distinct keys; lookups are
//! specified by `spec_get`, the first (and, keys being distinct, only)
//! entry under a key.

use vstd::prelude::*;

verus! {

/// Whether the keys of `s` are pairwise distinct.
pub open spec fn keys_distinct<V>(s: Seq<(u64, V)>) -> bool {
    forall|i: int, j: int| 0 <= i < j < s.len() ==> s[i].0 != s[j].0
}

/// The value under `k` in `s`: the first entry with that key.
pub open spec fn seq_get<V>(s: Seq<(u64, V)>, k: u64) -> Option<V>
    decreases s.len(),
{
    if s.len() == 0 {
        None
    } else if s[0].0 == k {
        Some(s[0].1)
    } else {
        seq_get(s.drop_first(), k)
    }
}

/// `seq_get` finds a key exactly when some entry carries it.
pub proof fn lemma_seq_get_contains<V>(s: Seq<(u64, V)>, k: u64)
    ensures
        seq_get(s, k) is Some <==> exists|i: int| 0 <= i < s.len() && s[i].0 == k,
    decreases s.len(),
{
    if s.len() > 0 {
        lemma_seq_get_contains(s.drop_first(), k);
        if s[0].0 != k {
            if seq_get(s, k) is Some {
                let i = choose|i: int| 0 <= i < s.drop_first().len() && s.drop_first()[i].0 == k;
                assert(s[i + 1].0 == k);
            }
            if exists|i: int| 0 <= i < s.len() && s[i].0 == k {
                let i = choose|i: int| 0 <= i < s.len() && s[i].0 == k;
                assert(s.drop_first()[i - 1].0 == k);
            }
        }
    }
}

/// With distinct keys, `seq_get` returns exactly the value at any index
/// whose entry carries the key.
pub proof fn lemma_seq_get_at<V>(s: Seq<(u64, V)>, i: int)
    requires
        keys_distinct(s),
        0 <= i < s.len(),
    ensures
        seq_get(s, s[i].0) == Some(s[i].1),
    decreases s.len(),
{
    if i == 0 {
    } else {
        assert(s[0].0 != s[i].0);
        assert(keys_distinct(s.drop_first())) by {
            assert(forall|a: int, b: int|
                0 <= a < b < s.drop_first().len() ==> s.drop_first()[a] == s[a + 1]
                    && s.drop_first()[b] == s[b + 1]);
        }
        lemma_seq_get_at(s.drop_first(), i - 1);
        assert(s.drop_first()[i - 1] == s[i]);
    }
}

/// Appending an entry under a fresh key leaves every other lookup unchanged
/// and makes the new key found.
pub proof fn lemma_seq_get_push<V>(s: Seq<(u64, V)>, k: u64, v: V, k2: u64)
    ensures
        seq_get(s.push((k, v)), k2) == if seq_get(s, k2) is Some {
            seq_get(s, k2)
        } else if k2 == k {
            Some(v)
        } else {
            None::<V>
        },
    decreases s.len(),
{
    if s.len() == 0 {
        assert(s.push((k, v)).drop_first() =~= Seq::<(u64, V)>::empty());
    } else {
        assert(s.push((k, v)).drop_first() =~= s.drop_first().push((k, v)));
        lemma_seq_get_push(s.drop_first(), k, v, k2);
    }
}

/// Removing the entry at an index makes its key unfound and leaves every
/// other lookup unchanged, provided keys are distinct.
pub proof fn lemma_seq_get_remove<V>(s: Seq<(u64, V)>, i: int, k2: u64)
    requires
        keys_distinct(s),
        0 <= i < s.len(),
    ensures
        seq_get(s.remove(i), k2) == if k2 == s[i].0 {
            None::<V>
        } else {
            seq_get(s, k2)
        },
    decreases s.len(),
{
    if k2 == s[i].0 {
        lemma_seq_get_contains(s.remove(i), k2);
        if seq_get(s.remove(i), k2) is Some {
            let j = choose|j: int| 0 <= j < s.remove(i).len() && s.remove(i)[j].0 == k2;
            if j < i {
                assert(s[j].0 == k2);
            } else {
                assert(s[j + 1].0 == k2);
            }
        }
    } else {
        if i == 0 {
            assert(s.remove(0) =~= s.drop_first());
        } else {
            assert(keys_distinct(s.drop_first())) by {
                assert(forall|a: int, b: int|
                    0 <= a < b < s.drop_first().len() ==> s.drop_first()[a] == s[a + 1]
                        && s.drop_first()[b] == s[b + 1]);
            }
            assert(s.remove(i).drop_first() =~= s.drop_first().remove(i - 1));
            lemma_seq_get_remove(s.drop_first(), i - 1, k2);
        }
    }
}

/// With distinct keys, a successful lookup names an actual entry.
pub proof fn lemma_seq_get_index<V>(s: Seq<(u64, V)>, k: u64)
    requires
        keys_distinct(s),
        seq_get(s, k) is Some,
    ensures
        exists|i: int| 0 <= i < s.len() && s[i].0 == k && seq_get(s, k) == Some(s[i].1),
{
    lemma_seq_get_contains(s, k);
    let i = choose|i: int| 0 <= i < s.len() && s[i].0 == k;
    lemma_seq_get_at(s, i);
}

/// Distinctness of keys survives removing an entry.
pub proof fn lemma_keys_distinct_remove<V>(s: Seq<(u64, V)>, i: int)
    requires
        keys_distinct(s),
        0 <= i < s.len(),
    ensures
        keys_distinct(s.remove(i)),
{
    assert forall|a: int, b: int| 0 <= a < b < s.remove(i).len() implies s.remove(i)[a].0
        != s.remove(i)[b].0 by {
        let a0 = if a < i { a } else { a + 1 };
        let b0 = if b < i { b } else { b + 1 };
        assert(s.remove(i)[a] == s[a0] && s.remove(i)[b] == s[b0]);
    }
}

/// An association store with distinct 64-bit keys.
pub struct KvVec<V> {
    entries: Vec<(u64, V)>,
}

impl<V> KvVec<V> {
    /// The entries in insertion order.
    pub closed spec fn seq(&self) -> Seq<(u64, V)> {
        self.entries@
    }

    /// Whether the keys are pairwise distinct; every operation preserves it.
    pub open spec fn wf(&self) -> bool {
        keys_distinct(self.seq())
    }

    /// The value under `k`, if an entry carries that key.
    pub open spec fn spec_get(&self, k: u64) -> Option<V> {
        seq_get(self.seq(), k)
    }

    /// Whether an entry carries key `k`.
    pub open spec fn spec_contains(&self, k: u64) -> bool {
        self.spec_get(k) is Some
    }

    /// An empty store.
    pub fn new() -> (r: Self)
        ensures
            r.wf(),
            r.seq() == Seq::<(u64, V)>::empty(),
            forall|k: u64| r.spec_get(k) is None,
    {
        let r = KvVec { entries: Vec::new() };
        proof {
            assert forall|k: u64| r.spec_get(k) is None by {
                lemma_seq_get_contains(r.seq(), k);
            }
        }
        r
    }

    /// How many entries the store holds.
    pub fn len(&self) -> (r: usize)
        ensures
            r == self.seq().len(),
    {
        self.entries.len()
    }

    /// The entry at position `i`.
    pub fn at(&self, i: usize) -> (r: &(u64, V))
        requires
            i < self.seq().len(),
        ensures
            *r == self.seq()[i as int],
    {
        &self.entries[i]
    }

    /// The position of the entry under `k`, if any.
    pub fn find(&self, k: u64) -> (r: Option<usize>)
        requires
            self.wf(),
        ensures
            match r {
                Some(i) => i < self.seq().len() && self.seq()[i as int].0 == k && self.spec_get(k)
                    == Some(self.seq()[i as int].1),
                None => self.spec_get(k) is None,
            },
    {
        let n = self.entries.len();
        let mut i: usize = 0;
        while i < n
            invariant
                i <= n,
                n == self.seq().len(),
                self.wf(),
                forall|j: int| 0 <= j < i ==> self.seq()[j].0 != k,
            decreases n - i,
        {
            if self.entries[i].0 == k {
                proof {
                    lemma_seq_get_at(self.seq(), i as int);
                }
                return Some(i);
            }
            i = i + 1;
        }
        proof {
            lemma_seq_get_contains(self.seq(), k);
        }
        None
    }

    /// A reference to the value under `k`, if any.
    pub fn get(&self, k: u64) -> (r: Option<&V>)
        requires
            self.wf(),
        ensures
            match r {
                Some(v) => self.spec_get(k) == Some(*v),
                None => self.spec_get(k) is None,
            },
    {
        match self.find(k) {
            Some(i) => Some(&self.entries[i].1),
            None => None,
        }
    }

    /// Whether the store holds key `k`.
    pub fn contains(&self, k: u64) -> (r: bool)
        requires
            self.wf(),
        ensures
            r == self.spec_contains(k),
    {
        match self.find(k) {
            Some(_) => true,
            None => false,
        }
    }

    /// Adds an entry under a key not yet present.
    pub fn insert_new(&mut self, k: u64, v: V)
        requires
            old(self).wf(),
            !old(self).spec_contains(k),
        ensures
            final(self).wf(),
            final(self).seq() == old(self).seq().push((k, v)),
            final(self).spec_get(k) == Some(v),
            forall|k2: u64| k2 != k ==> final(self).spec_get(k2) == old(self).spec_get(k2),
    {
        proof {
            lemma_seq_get_contains(self.seq(), k);
            assert forall|k2: u64|
                seq_get(self.seq().push((k, v)), k2) == if k2 == k {
                    Some(v)
                } else {
                    seq_get(self.seq(), k2)
                } by {
                lemma_seq_get_push(self.seq(), k, v, k2);
            }
        }
        self.entries.push((k, v));
    }

    /// Removes and returns the entry under `k`, if any.
    pub fn remove_key(&mut self, k: u64) -> (r: Option<V>)
        requires
            old(self).wf(),
        ensures
            final(self).wf(),
            r == old(self).spec_get(k),
            final(self).spec_get(k) is None,
            forall|k2: u64| k2 != k ==> final(self).spec_get(k2) == old(self).spec_get(k2),
            final(self).seq().len() == old(self).seq().len() - if old(self).spec_contains(k) {
                1int
            } else {
                0int
            },
            r is None ==> *final(self) == *old(self),
            r is Some ==> exists|i: int|
                0 <= i < old(self).seq().len() && old(self).seq()[i].0 == k && old(self).seq()[i].1
                    == r->Some_0 && final(self).seq() == old(self).seq().remove(i),
    {
        match self.find(k) {
            Some(i) => {
                proof {
                    lemma_keys_distinct_remove(self.seq(), i as int);
                    assert forall|k2: u64|
                        seq_get(self.seq().remove(i as int), k2) == if k2 == k {
                            None::<V>
                        } else {
                            seq_get(self.seq(), k2)
                        } by {
                        lemma_seq_get_remove(self.seq(), i as int, k2);
                    }
                }
                let (_, v) = self.entries.remove(i);
                Some(v)
            },
            None => {
                proof {
                    lemma_seq_get_contains(self.seq(), k);
                }
                None
            },
        }
    }

    /// Removes and returns the entry at position `i`.
    pub fn remove_at(&mut self, i: usize) -> (r: (u64, V))
        requires
            old(self).wf(),
            i < old(self).seq().len(),
        ensures
            final(self).wf(),
            r == old(self).seq()[i as int],
            final(self).seq() == old(self).seq().remove(i as int),
            final(self).spec_get(r.0) is None,
            forall|k2: u64| k2 != r.0 ==> final(self).spec_get(k2) == old(self).spec_get(k2),
    {
        proof {
            lemma_keys_distinct_remove(self.seq(), i as int);
            assert forall|k2: u64|
                seq_get(self.seq().remove(i as int), k2) == if k2 == self.seq()[i as int].0 {
                    None::<V>
                } else {
                    seq_get(self.seq(), k2)
                } by {
                lemma_seq_get_remove(self.seq(), i as int, k2);
            }
        }
        self.entries.remove(i)
    }

    /// Replaces the value under a key already present.
    pub fn replace(&mut self, k: u64, v: V)
        requires
            old(self).wf(),
            old(self).spec_contains(k),
        ensures
            final(self).wf(),
            final(self).spec_get(k) == Some(v),
            forall|k2: u64| k2 != k ==> final(self).spec_get(k2) == old(self).spec_get(k2),
            final(self).seq().len() == old(self).seq().len(),
            exists|i: int|
                0 <= i < old(self).seq().len() && old(self).seq()[i].0 == k && final(self).seq()
                    == old(self).seq().remove(i).push((k, v)),
    {
        let i = match self.find(k) {
            Some(i) => i,
            None => {
                proof {
                    assert(false);
                }
                0
            },
        };
        proof {
            lemma_keys_distinct_remove(self.seq(), i as int);
            assert forall|k2: u64|
                seq_get(self.seq().remove(i as int), k2) == if k2 == k {
                    None::<V>
                } else {
                    seq_get(self.seq(), k2)
                } by {
                lemma_seq_get_remove(self.seq(), i as int, k2);
            }
        }
        let _ = self.entries.remove(i);
        let ghost mid_seq = self.entries@;
        proof {
            assert forall|k2: u64|
                seq_get(mid_seq.push((k, v)), k2) == if k2 == k {
                    Some(v)
                } else {
                    seq_get(mid_seq, k2)
                } by {
                lemma_seq_get_push(mid_seq, k, v, k2);
            }
        }
        self.entries.push((k, v));
    }
}

} // verus!
