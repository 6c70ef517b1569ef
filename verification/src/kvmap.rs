use vstd::prelude::*;

verus! {

/// Composite key of the bookkeeping maps: an environment or solve-group
/// index paired with a platform tag (zero where no platform applies).
#[derive(Clone, Copy, PartialEq, Eq, Structural)]
pub struct Key {
    pub owner: usize,
    pub platform: usize,
}

spec fn seq_get<V>(s: Seq<(Key, V)>, k: Key) -> Option<V>
    decreases s.len(),
{
    if s.len() == 0 {
        None
    } else if s[0].0 == k {
        Some(s[0].1)
    } else {
        seq_get(s.drop_first(), k)
    }
}

spec fn unique_keys<V>(s: Seq<(Key, V)>) -> bool {
    forall|i: int, j: int| 0 <= i < j < s.len() ==> (#[trigger] s[i].0) != (#[trigger] s[j].0)
}

proof fn lemma_seq_get_at<V>(s: Seq<(Key, V)>, k: Key, i: int)
    requires
        unique_keys(s),
        0 <= i < s.len(),
        s[i].0 == k,
    ensures
        seq_get(s, k) == Some(s[i].1),
    decreases s.len(),
{
    if i == 0 {
    } else {
        assert(s[0].0 != k);
        assert(s.drop_first()[i - 1] == s[i]);
        assert forall|a: int, b: int| 0 <= a < b < s.drop_first().len() implies (#[trigger] s.drop_first()[a].0)
            != (#[trigger] s.drop_first()[b].0) by {
            assert(s.drop_first()[a] == s[a + 1]);
            assert(s.drop_first()[b] == s[b + 1]);
        }
        lemma_seq_get_at(s.drop_first(), k, i - 1);
    }
}

proof fn lemma_seq_get_none<V>(s: Seq<(Key, V)>, k: Key)
    requires
        forall|i: int| 0 <= i < s.len() ==> (#[trigger] s[i].0) != k,
    ensures
        seq_get(s, k) is None,
    decreases s.len(),
{
    if s.len() > 0 {
        assert(forall|i: int|
            0 <= i < s.drop_first().len() ==> (#[trigger] s.drop_first()[i]) == s[i + 1]);
        lemma_seq_get_none(s.drop_first(), k);
    }
}

proof fn lemma_seq_get_push<V>(s: Seq<(Key, V)>, k: Key, v: V, k2: Key)
    ensures
        seq_get(s, k2) is Some ==> seq_get(s.push((k, v)), k2) == seq_get(s, k2),
        seq_get(s, k2) is None && k2 == k ==> seq_get(s.push((k, v)), k2) == Some(v),
        seq_get(s, k2) is None && k2 != k ==> seq_get(s.push((k, v)), k2) is None,
    decreases s.len(),
{
    let t = s.push((k, v));
    if s.len() == 0 {
        assert(t.len() == 1);
        assert(t[0] == (k, v));
        if t[0].0 != k2 {
            assert(t.drop_first() =~= Seq::<(Key, V)>::empty());
            assert(seq_get(t, k2) is None);
        } else {
            assert(seq_get(t, k2) == Some(v));
        }
    } else {
        assert(t[0] == s[0]);
        if s[0].0 == k2 {
            assert(seq_get(t, k2) == Some(t[0].1));
            assert(seq_get(s, k2) == Some(s[0].1));
        } else {
            assert(t.drop_first() =~= s.drop_first().push((k, v)));
            lemma_seq_get_push(s.drop_first(), k, v, k2);
            assert(seq_get(t, k2) == seq_get(t.drop_first(), k2));
            assert(seq_get(s, k2) == seq_get(s.drop_first(), k2));
        }
    }
}

proof fn lemma_seq_get_remove<V>(s: Seq<(Key, V)>, i: int, k2: Key)
    requires
        unique_keys(s),
        0 <= i < s.len(),
    ensures
        k2 == s[i].0 ==> seq_get(s.remove(i), k2) is None,
        k2 != s[i].0 ==> seq_get(s.remove(i), k2) == seq_get(s, k2),
        unique_keys(s.remove(i)),
    decreases s.len(),
{
    let t = s.remove(i);
    assert forall|a: int, b: int| 0 <= a < b < t.len() implies (#[trigger] t[a].0)
        != (#[trigger] t[b].0) by {
        let a2: int = if a < i { a } else { a + 1 };
        let b2: int = if b < i { b } else { b + 1 };
        assert(t[a] == s[a2]);
        assert(t[b] == s[b2]);
    }
    if i == 0 {
        assert(t =~= s.drop_first());
        if k2 == s[0].0 {
            assert forall|j: int| 0 <= j < t.len() implies (#[trigger] t[j].0) != k2 by {
                assert(t[j] == s[j + 1]);
            }
            lemma_seq_get_none(t, k2);
        }
    } else {
        assert(t[0] == s[0]);
        if s[0].0 == k2 {
        } else {
            assert(t.drop_first() =~= s.drop_first().remove(i - 1));
            assert forall|a: int, b: int| 0 <= a < b < s.drop_first().len() implies (#[trigger] s.drop_first()[a].0)
                != (#[trigger] s.drop_first()[b].0) by {
                assert(s.drop_first()[a] == s[a + 1]);
                assert(s.drop_first()[b] == s[b + 1]);
            }
            assert(s.drop_first()[i - 1] == s[i]);
            lemma_seq_get_remove(s.drop_first(), i - 1, k2);
        }
    }
}

/// A small association map with composite integer keys, the in-memory
/// bookkeeping structure behind the update context.
pub struct KeyMap<V> {
    entries: Vec<(Key, V)>,
}

impl<V> KeyMap<V> {
    /// The entries in insertion order.
    pub closed spec fn entries_view(self) -> Seq<(Key, V)> {
        self.entries@
    }

    /// The value stored under `k`, if any.
    pub closed spec fn spec_get(self, k: Key) -> Option<V> {
        seq_get(self.entries@, k)
    }

    /// Whether a value is stored under `k`.
    pub open spec fn spec_contains(self, k: Key) -> bool {
        self.spec_get(k) is Some
    }

    /// Well-formed: no key occurs twice.
    pub closed spec fn wf(self) -> bool {
        unique_keys(self.entries@)
    }

    /// Creates an empty map.
    pub fn new() -> (r: KeyMap<V>)
        ensures
            r.wf(),
            forall|k: Key| #[trigger] r.spec_get(k) is None,
            r.entries_view().len() == 0,
    {
        KeyMap { entries: Vec::new() }
    }

    /// Number of stored entries.
    pub fn len(&self) -> (r: usize)
        ensures
            r == self.entries_view().len(),
    {
        self.entries.len()
    }

    fn position(&self, k: Key) -> (r: Option<usize>)
        ensures
            match r {
                Some(i) => i < self.entries@.len() && self.entries@[i as int].0 == k,
                None => forall|i: int|
                    0 <= i < self.entries@.len() ==> (#[trigger] self.entries@[i].0) != k,
            },
    {
        let mut i: usize = 0;
        while i < self.entries.len()
            invariant
                i <= self.entries.len(),
                forall|j: int| 0 <= j < i ==> (#[trigger] self.entries@[j].0) != k,
            decreases self.entries.len() - i,
        {
            if self.entries[i].0 == k {
                return Some(i);
            }
            i += 1;
        }
        None
    }

    /// Looks the key up.
    pub fn get(&self, k: Key) -> (r: Option<&V>)
        requires
            self.wf(),
        ensures
            match r {
                Some(v) => self.spec_get(k) == Some(*v),
                None => self.spec_get(k) is None,
            },
    {
        match self.position(k) {
            Some(i) => {
                proof {
                    lemma_seq_get_at(self.entries@, k, i as int);
                }
                Some(&self.entries[i].1)
            },
            None => {
                proof {
                    lemma_seq_get_none(self.entries@, k);
                }
                None
            },
        }
    }

    /// Whether the key is present.
    pub fn contains(&self, k: Key) -> (r: bool)
        requires
            self.wf(),
        ensures
            r == self.spec_contains(k),
    {
        match self.get(k) {
            Some(_) => true,
            None => false,
        }
    }

    /// Removes the key, returning the value it mapped to.
    pub fn remove(&mut self, k: Key) -> (r: Option<V>)
        requires
            old(self).wf(),
        ensures
            final(self).wf(),
            r == old(self).spec_get(k),
            final(self).spec_get(k) is None,
            forall|k2: Key| k2 != k ==> #[trigger] final(self).spec_get(k2) == old(self).spec_get(k2),
            final(self).entries_view().len() <= old(self).entries_view().len(),
            old(self).spec_get(k) is None ==> *final(self) == *old(self),
    {
        match self.position(k) {
            Some(i) => {
                proof {
                    lemma_seq_get_at(self.entries@, k, i as int);
                    assert forall|k2: Key| k2 != k implies #[trigger] seq_get(
                        self.entries@.remove(i as int),
                        k2,
                    ) == seq_get(self.entries@, k2) by {
                        lemma_seq_get_remove(self.entries@, i as int, k2);
                    }
                    lemma_seq_get_remove(self.entries@, i as int, k);
                }
                let entry = self.entries.remove(i);
                Some(entry.1)
            },
            None => {
                proof {
                    lemma_seq_get_none(self.entries@, k);
                }
                None
            },
        }
    }

    /// Stores `v` under `k`, returning the value previously stored there.
    pub fn insert(&mut self, k: Key, v: V) -> (r: Option<V>)
        requires
            old(self).wf(),
        ensures
            final(self).wf(),
            r == old(self).spec_get(k),
            final(self).spec_get(k) == Some(v),
            forall|k2: Key| k2 != k ==> #[trigger] final(self).spec_get(k2) == old(self).spec_get(k2),
    {
        let prev = self.remove(k);
        let ghost mid = *self;
        self.entries.push((k, v));
        proof {
            assert(self.entries@ == mid.entries@.push((k, v)));
            assert forall|k2: Key| k2 != k implies #[trigger] self.spec_get(k2) == old(
                self,
            ).spec_get(k2) by {
                lemma_seq_get_push(mid.entries@, k, v, k2);
                assert(mid.spec_get(k2) == old(self).spec_get(k2));
            }
            lemma_seq_get_push(mid.entries@, k, v, k);
            assert(mid.spec_get(k) is None);
            assert(self.spec_get(k) == Some(v));
            assert forall|a: int, b: int| 0 <= a < b < self.entries@.len() implies (
            #[trigger] self.entries@[a].0) != (#[trigger] self.entries@[b].0) by {
                let t = self.entries@;
                if b < mid.entries@.len() {
                    assert(t[a] == mid.entries@[a]);
                    assert(t[b] == mid.entries@[b]);
                } else {
                    assert(t[a] == mid.entries@[a]);
                    assert(t[b] == (k, v));
                    if mid.entries@[a].0 == k {
                        lemma_seq_get_at(mid.entries@, k, a);
                        assert(mid.spec_get(k) is Some);
                    }
                }
            }
        }
        prev
    }

    /// Empties the map and hands the entries out.
    pub fn take_all(&mut self) -> (r: Vec<(Key, V)>)
        requires
            old(self).wf(),
        ensures
            final(self).wf(),
            forall|k: Key| #[trigger] final(self).spec_get(k) is None,
            r@ == old(self).entries_view(),
            forall|i: int|
                0 <= i < r@.len() ==> old(self).spec_get((#[trigger] r@[i]).0) == Some(r@[i].1),
            forall|k: Key| #[trigger] old(self).spec_get(k) is Some ==> exists|i: int|
                0 <= i < r@.len() && (#[trigger] r@[i].0) == k,
    {
        proof {
            assert forall|i: int| 0 <= i < self.entries@.len() implies self.spec_get(
                (#[trigger] self.entries@[i]).0,
            ) == Some(self.entries@[i].1) by {
                lemma_seq_get_at(self.entries@, self.entries@[i].0, i);
            }
            assert forall|k: Key| #[trigger] self.spec_get(k) is Some implies exists|i: int|
                0 <= i < self.entries@.len() && (#[trigger] self.entries@[i].0) == k by {
                if forall|i: int| 0 <= i < self.entries@.len() ==> (#[trigger] self.entries@[i].0) != k {
                    lemma_seq_get_none(self.entries@, k);
                }
            }
        }
        let mut other: Vec<(Key, V)> = Vec::new();
        core::mem::swap(&mut self.entries, &mut other);
        proof {
            assert forall|k: Key| #[trigger] self.spec_get(k) is None by {
                lemma_seq_get_none(self.entries@, k);
            }
        }
        other
    }

    /// Consumes the map and hands the entries out.
    pub fn into_entries(self) -> (r: Vec<(Key, V)>)
        requires
            self.wf(),
        ensures
            r@ == self.entries_view(),
            forall|i: int|
                0 <= i < r@.len() ==> self.spec_get((#[trigger] r@[i]).0) == Some(r@[i].1),
            forall|k: Key| #[trigger] self.spec_get(k) is Some ==> exists|i: int|
                0 <= i < r@.len() && (#[trigger] r@[i].0) == k,
    {
        proof {
            assert forall|i: int| 0 <= i < self.entries@.len() implies self.spec_get(
                (#[trigger] self.entries@[i]).0,
            ) == Some(self.entries@[i].1) by {
                lemma_seq_get_at(self.entries@, self.entries@[i].0, i);
            }
            assert forall|k: Key| #[trigger] self.spec_get(k) is Some implies exists|i: int|
                0 <= i < self.entries@.len() && (#[trigger] self.entries@[i].0) == k by {
                if forall|i: int| 0 <= i < self.entries@.len() ==> (#[trigger] self.entries@[i].0) != k {
                    lemma_seq_get_none(self.entries@, k);
                }
            }
        }
        self.entries
    }
}

} // verus!
