//! A map kept as a list of entries.

use vstd::laws_eq::obeys_concrete_eq;
use vstd::prelude::*;

verus! {

/// A map from keys to values.
#[derive(Debug)]
pub struct AssocMap<K, V> {
    entries: Vec<(K, V)>,
}

/// The entries as a map.
spec fn entries_map<K, V>(entries: Seq<(K, V)>) -> Map<K, V> {
    Map::new(
        |k: K| exists|i: int| 0 <= i < entries.len() && (#[trigger] entries[i]).0 == k,
        |k: K| entries[choose|i: int| 0 <= i < entries.len() && (#[trigger] entries[i]).0 == k].1,
    )
}

impl<K, V> View for AssocMap<K, V> {
    type V = Map<K, V>;

    closed spec fn view(&self) -> Map<K, V> {
        entries_map(self.entries@)
    }
}

impl<K, V> AssocMap<K, V> {
    /// Whether no key has two entries.
    pub closed spec fn wf(&self) -> bool {
        forall|i: int, j: int|
            0 <= i < j < self.entries@.len() ==> (#[trigger] self.entries@[i]).0 != (
            #[trigger] self.entries@[j]).0
    }

    /// What an entry means for the map.
    proof fn lemma_entry(&self, i: int)
        requires
            self.wf(),
            0 <= i < self.entries@.len(),
        ensures
            self@.dom().contains(self.entries@[i].0),
            self@[self.entries@[i].0] == self.entries@[i].1,
    {
        let entries = self.entries@;
        let k = entries[i].0;
        let j = choose|j: int| 0 <= j < entries.len() && (#[trigger] entries[j]).0 == k;
        assert(entries[i].0 == k);
        if j < i {
            assert(entries[j].0 != entries[i].0);
        } else if i < j {
            assert(entries[i].0 != entries[j].0);
        }
    }

    /// The empty map.
    pub fn new() -> (r: AssocMap<K, V>)
        ensures
            r.wf(),
            r@ == Map::<K, V>::empty(),
    {
        let r = AssocMap { entries: Vec::new() };
        assert(r@ =~= Map::<K, V>::empty());
        r
    }

    /// Empties the map.
    pub fn clear(&mut self)
        ensures
            final(self).wf(),
            final(self)@ == Map::<K, V>::empty(),
    {
        self.entries.clear();
        assert(self@ =~= Map::<K, V>::empty());
    }
}

impl<K: PartialEq, V> AssocMap<K, V> {
    /// The position of a key.
    fn position(&self, key: &K) -> (r: Option<usize>)
        requires
            obeys_concrete_eq::<K>(),
        ensures
            match r {
                Some(i) => i < self.entries@.len() && self.entries@[i as int].0 == *key,
                None => !self@.dom().contains(*key),
            },
    {
        let mut i: usize = 0;
        while i < self.entries.len()
            invariant
                obeys_concrete_eq::<K>(),
                i <= self.entries@.len(),
                forall|j: int| 0 <= j < i ==> (#[trigger] self.entries@[j]).0 != *key,
            decreases self.entries@.len() - i,
        {
            proof {
                reveal(obeys_concrete_eq);
            }
            if self.entries[i].0 == *key {
                return Some(i);
            }
            i += 1;
        }
        None
    }

    /// Whether there is a value under a key.
    pub fn contains_key(&self, key: &K) -> (r: bool)
        requires
            obeys_concrete_eq::<K>(),
            self.wf(),
        ensures
            r == self@.dom().contains(*key),
    {
        match self.position(key) {
            Some(i) => {
                proof {
                    self.lemma_entry(i as int);
                }
                true
            },
            None => false,
        }
    }

    /// The value under a key.
    pub fn get(&self, key: &K) -> (r: Option<&V>)
        requires
            obeys_concrete_eq::<K>(),
            self.wf(),
        ensures
            match r {
                Some(v) => self@.dom().contains(*key) && self@[*key] == *v,
                None => !self@.dom().contains(*key),
            },
    {
        match self.position(key) {
            Some(i) => {
                proof {
                    self.lemma_entry(i as int);
                }
                Some(&self.entries[i].1)
            },
            None => None,
        }
    }

    /// Takes the value under a key out.
    pub fn remove(&mut self, key: &K) -> (r: Option<V>)
        requires
            obeys_concrete_eq::<K>(),
            old(self).wf(),
        ensures
            final(self).wf(),
            final(self)@ == old(self)@.remove(*key),
            match r {
                Some(v) => old(self)@.dom().contains(*key) && old(self)@[*key] == v,
                None => !old(self)@.dom().contains(*key),
            },
    {
        match self.position(key) {
            Some(i) => {
                proof {
                    self.lemma_entry(i as int);
                }
                let (_, value) = self.entries.swap_remove(i);
                proof {
                    let s = old(self).entries@;
                    let t = self.entries@;
                    let last = s.len() - 1;
                    assert forall|a: int, b: int| 0 <= a < b < t.len() implies (
                    #[trigger] t[a]).0 != (#[trigger] t[b]).0 by {
                        let x = if a == i { last } else { a };
                        let y = if b == i { last } else { b };
                        assert(t[a] == s[x] && t[b] == s[y]);
                    }
                    assert forall|k: K| #[trigger] self@.dom().contains(k) == old(self)@.remove(
                        *key,
                    ).dom().contains(k) by {
                        if self@.dom().contains(k) {
                            let a = choose|a: int| 0 <= a < t.len() && (#[trigger] t[a]).0 == k;
                            let x = if a == i { last } else { a };
                            assert(t[a] == s[x]);
                            old(self).lemma_entry(x);
                        }
                        if old(self)@.dom().contains(k) && k != *key {
                            let a = choose|a: int| 0 <= a < s.len() && (#[trigger] s[a]).0 == k;
                            let x = if a == last { i as int } else { a };
                            assert(t[x] == s[a]);
                            self.lemma_entry(x);
                        }
                    }
                    assert forall|k: K| #[trigger] self@.dom().contains(k) implies self@[k]
                        == old(self)@[k] by {
                        let a = choose|a: int| 0 <= a < t.len() && (#[trigger] t[a]).0 == k;
                        let x = if a == i { last } else { a };
                        assert(t[a] == s[x]);
                        old(self).lemma_entry(x);
                        self.lemma_entry(a);
                    }
                    assert(self@ =~= old(self)@.remove(*key));
                }
                Some(value)
            },
            None => {
                assert(self@ =~= old(self)@.remove(*key));
                None
            },
        }
    }

    /// Puts a value under a key, in place of the one that is there.
    pub fn insert(&mut self, key: K, value: V)
        requires
            obeys_concrete_eq::<K>(),
            old(self).wf(),
        ensures
            final(self).wf(),
            final(self)@ == old(self)@.insert(key, value),
    {
        self.remove(&key);
        let ghost mid = *self;
        self.entries.push((key, value));
        proof {
            let s = mid.entries@;
            let t = self.entries@;
            let n = s.len() as int;
            assert forall|a: int, b: int| 0 <= a < b < t.len() implies (#[trigger] t[a]).0 != (
            #[trigger] t[b]).0 by {
                assert(t[a] == s[a]);
                if b == n {
                    mid.lemma_entry(a);
                } else {
                    assert(t[b] == s[b]);
                }
            }
            assert(t[n] == (key, value));
            self.lemma_entry(n);
            assert forall|k: K| #[trigger] self@.dom().contains(k) == old(self)@.insert(
                key,
                value,
            ).dom().contains(k) by {
                if self@.dom().contains(k) && k != key {
                    let a = choose|a: int| 0 <= a < t.len() && (#[trigger] t[a]).0 == k;
                    assert(t[a] == s[a]);
                    mid.lemma_entry(a);
                }
                if mid@.dom().contains(k) {
                    let a = choose|a: int| 0 <= a < s.len() && (#[trigger] s[a]).0 == k;
                    assert(t[a] == s[a]);
                    self.lemma_entry(a);
                }
            }
            assert forall|k: K| #[trigger] self@.dom().contains(k) implies self@[k]
                == old(self)@.insert(key, value)[k] by {
                if k != key {
                    let a = choose|a: int| 0 <= a < t.len() && (#[trigger] t[a]).0 == k;
                    assert(t[a] == s[a]);
                    mid.lemma_entry(a);
                    self.lemma_entry(a);
                }
            }
            assert(self@ =~= old(self)@.insert(key, value));
        }
    }
}

} // verus!
