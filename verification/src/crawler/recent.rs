//! Keys that were used of late.

use crate::bytes::copy_slice;
use vstd::prelude::*;

verus! {

/// The largest limit of a cache: the table of one with a much larger limit does not fit into
/// the address space.
pub const MAX_LIMIT: usize = usize::MAX / 74;

/// The cache of `lru`, which forgets what was not used for longest.
#[verifier::external_type_specification]
#[verifier::external_body]
#[verifier::reject_recursive_types(K)]
#[verifier::reject_recursive_types(V)]
#[verifier::reject_recursive_types(S)]
pub struct ExLruCache<K, V, S>(lru::LruCache<K, V, S>);

/// The hasher that the cache of `lru` uses where no other is given.
#[verifier::external_type_specification]
#[verifier::external_body]
pub struct ExDefaultHasher(lru::DefaultHasher);

/// What a cache holds, with what was used last in front.
pub uninterp spec fn lru_entries(cache: lru::LruCache<Vec<u8>, Option<u64>>) -> Seq<
    (Seq<u8>, Option<u64>),
>;

/// How much a cache can hold.
pub uninterp spec fn lru_limit(cache: lru::LruCache<Vec<u8>, Option<u64>>) -> nat;

/// What is held under a key.
pub open spec fn lookup(entries: Seq<(Seq<u8>, Option<u64>)>, key: Seq<u8>) -> Option<Option<u64>>
    decreases entries.len(),
{
    if entries.len() == 0 {
        None
    } else if entries[0].0 == key {
        Some(entries[0].1)
    } else {
        lookup(entries.skip(1), key)
    }
}

/// What is held apart from a key.
pub open spec fn without(entries: Seq<(Seq<u8>, Option<u64>)>, key: Seq<u8>) -> Seq<
    (Seq<u8>, Option<u64>),
>
    decreases entries.len(),
{
    if entries.len() == 0 {
        seq![]
    } else if entries[0].0 == key {
        without(entries.skip(1), key)
    } else {
        seq![entries[0]] + without(entries.skip(1), key)
    }
}

/// What is held after a key was put in front: what was not used for longest is gone where
/// there was no room for another key.
pub open spec fn put_front(
    entries: Seq<(Seq<u8>, Option<u64>)>,
    limit: nat,
    key: Seq<u8>,
    value: Option<u64>,
) -> Seq<(Seq<u8>, Option<u64>)> {
    seq![(key, value)] + (if lookup(entries, key) is Some {
        without(entries, key)
    } else if entries.len() == limit {
        entries.drop_last()
    } else {
        entries
    })
}

/// An empty cache with a limit, from `lru::LruCache::new`, which asks for the memory of its
/// table at once: two pointers and a byte for each place, where the places are a power of
/// two of which seven in eight are used. It panics where that is more than `isize::MAX`
/// bytes, which no limit up to the largest is.
#[verifier::external_body]
fn lru_new(limit: usize) -> (r: lru::LruCache<Vec<u8>, Option<u64>>)
    requires
        0 < limit <= MAX_LIMIT,
    ensures
        lru_entries(r) == Seq::<(Seq<u8>, Option<u64>)>::empty(),
        lru_limit(r) == limit,
{
    lru::LruCache::new(std::num::NonZeroUsize::new(limit).unwrap())
}

/// Puts a key in front with a value, by `lru::LruCache::put`; the result is the value that
/// it had.
#[verifier::external_body]
fn lru_put(cache: &mut lru::LruCache<Vec<u8>, Option<u64>>, key: Vec<u8>, value: Option<u64>) -> (r:
    Option<Option<u64>>)
    ensures
        lru_entries(*final(cache)) == put_front(
            lru_entries(*old(cache)),
            lru_limit(*old(cache)),
            key@,
            value,
        ),
        lru_limit(*final(cache)) == lru_limit(*old(cache)),
        r == lookup(lru_entries(*old(cache)), key@),
{
    cache.put(key, value)
}

/// The value of a key, from `lru::LruCache::get`, which puts the key in front.
#[verifier::external_body]
fn lru_get(cache: &mut lru::LruCache<Vec<u8>, Option<u64>>, key: &[u8]) -> (r: Option<Option<u64>>)
    ensures
        r == lookup(lru_entries(*old(cache)), key@),
        lru_entries(*final(cache)) == (match r {
            Some(value) => seq![(key@, value)] + without(lru_entries(*old(cache)), key@),
            None => lru_entries(*old(cache)),
        }),
        lru_limit(*final(cache)) == lru_limit(*old(cache)),
{
    cache.get(key).copied()
}

/// Takes a key out, by `lru::LruCache::pop`; the result is the value that it had.
#[verifier::external_body]
fn lru_pop(cache: &mut lru::LruCache<Vec<u8>, Option<u64>>, key: &[u8]) -> (r: Option<Option<u64>>)
    ensures
        r == lookup(lru_entries(*old(cache)), key@),
        lru_entries(*final(cache)) == without(lru_entries(*old(cache)), key@),
        lru_limit(*final(cache)) == lru_limit(*old(cache)),
{
    cache.pop(key)
}

/// Whether there is a key, from `lru::LruCache::contains`.
#[verifier::external_body]
fn lru_contains(cache: &lru::LruCache<Vec<u8>, Option<u64>>, key: &[u8]) -> (r: bool)
    ensures
        r == lookup(lru_entries(*cache), key@) is Some,
{
    cache.contains(key)
}

/// The keys, from `lru::LruCache::iter`: what was used last comes first.
#[verifier::external_body]
fn lru_keys(cache: &lru::LruCache<Vec<u8>, Option<u64>>) -> (r: Vec<Vec<u8>>)
    ensures
        r@.len() == lru_entries(*cache).len(),
        forall|i: int| 0 <= i < r@.len() ==> (#[trigger] r@[i])@ == lru_entries(*cache)[i].0,
{
    cache.iter().map(|entry| entry.0.clone()).collect()
}

/// Keys that were used of late, each with a value.
pub struct RecentKeys {
    cache: lru::LruCache<Vec<u8>, Option<u64>>,
}

/// Whether no key occurs twice.
pub open spec fn distinct_keys(entries: Seq<(Seq<u8>, Option<u64>)>) -> bool {
    forall|i: int, j: int|
        0 <= i < j < entries.len() ==> (#[trigger] entries[i]).0 != (#[trigger] entries[j]).0
}

/// What is held apart from a key, by position.
pub proof fn lemma_without(entries: Seq<(Seq<u8>, Option<u64>)>, key: Seq<u8>)
    ensures
        without(entries, key).len() <= entries.len(),
        lookup(entries, key) is Some ==> without(entries, key).len() < entries.len(),
        lookup(entries, key) is None ==> without(entries, key) == entries,
        forall|i: int|
            0 <= i < without(entries, key).len() ==> (#[trigger] without(entries, key)[i]).0 != key
                && entries.contains(without(entries, key)[i]),
        distinct_keys(entries) ==> distinct_keys(without(entries, key)),
    decreases entries.len(),
{
    if entries.len() > 0 {
        let rest = entries.skip(1);
        lemma_without(rest, key);
        let w = without(rest, key);
        let all = without(entries, key);
        assert(forall|i: int| 0 <= i < rest.len() ==> rest[i] == entries[i + 1]);
        if lookup(entries, key) is None {
            assert(seq![entries[0]] + rest =~= entries);
        }
        assert forall|i: int| 0 <= i < all.len() implies (#[trigger] all[i]).0 != key
            && entries.contains(all[i]) by {
            if entries[0].0 == key {
                assert(all[i] == w[i]);
                assert(rest.contains(w[i]));
                let k = choose|k: int| 0 <= k < rest.len() && rest[k] == w[i];
                assert(entries[k + 1] == w[i]);
            } else if i == 0 {
                assert(entries[0] == all[0]);
            } else {
                assert(all[i] == w[i - 1]);
                assert(rest.contains(w[i - 1]));
                let k = choose|k: int| 0 <= k < rest.len() && rest[k] == w[i - 1];
                assert(entries[k + 1] == w[i - 1]);
            }
        }
        if distinct_keys(entries) {
            assert(distinct_keys(rest)) by {
                assert forall|i: int, j: int| 0 <= i < j < rest.len() implies (
                #[trigger] rest[i]).0 != (#[trigger] rest[j]).0 by {
                    assert(entries[i + 1].0 != entries[j + 1].0);
                }
            }
            assert forall|i: int, j: int| 0 <= i < j < all.len() implies (#[trigger] all[i]).0 != (
            #[trigger] all[j]).0 by {
                if entries[0].0 == key {
                    assert(w[i].0 != w[j].0);
                } else if i == 0 {
                    assert(rest.contains(w[j - 1]));
                    let k = choose|k: int| 0 <= k < rest.len() && rest[k] == w[j - 1];
                    assert(entries[0].0 != entries[k + 1].0);
                } else {
                    assert(w[i - 1].0 != w[j - 1].0);
                }
            }
        }
    }
}

/// A key is held exactly where it stands at some position.
pub proof fn lemma_lookup(entries: Seq<(Seq<u8>, Option<u64>)>, key: Seq<u8>)
    ensures
        lookup(entries, key) is Some <==> exists|i: int|
            0 <= i < entries.len() && (#[trigger] entries[i]).0 == key,
    decreases entries.len(),
{
    if entries.len() > 0 && entries[0].0 != key {
        let rest = entries.skip(1);
        lemma_lookup(rest, key);
        if exists|i: int| 0 <= i < rest.len() && (#[trigger] rest[i]).0 == key {
            let i = choose|i: int| 0 <= i < rest.len() && (#[trigger] rest[i]).0 == key;
            assert(entries[i + 1].0 == key);
        }
        if exists|i: int| 0 <= i < entries.len() && (#[trigger] entries[i]).0 == key {
            let i = choose|i: int| 0 <= i < entries.len() && (#[trigger] entries[i]).0 == key;
            assert(rest[i - 1].0 == key);
        }
    }
}

/// A key that was put in front is held with its value; where there was room, or the key
/// was held, so is every other key as before; no more is held than the limit.
pub proof fn law_put_front(
    entries: Seq<(Seq<u8>, Option<u64>)>,
    limit: nat,
    key: Seq<u8>,
    value: Option<u64>,
    other: Seq<u8>,
)
    requires
        distinct_keys(entries),
        0 < limit,
        entries.len() <= limit,
    ensures
        ({
            let after = put_front(entries, limit, key, value);
            &&& distinct_keys(after)
            &&& after.len() <= limit
            &&& lookup(after, key) == Some(value)
            &&& other != key && (lookup(entries, key) is Some || entries.len() < limit)
                ==> lookup(after, other) == lookup(entries, other)
            &&& other != key && lookup(after, other) is Some ==> lookup(after, other) == lookup(
                entries,
                other,
            )
        }),
{
    let after = put_front(entries, limit, key, value);
    let rest = after.skip(1);
    lemma_without(entries, key);
    lemma_lookup(entries, key);
    assert(after[0] == (key, value));
    if lookup(entries, key) is Some {
        assert(rest =~= without(entries, key));
        lemma_lookup_without(entries, key, other);
    } else if entries.len() == limit {
        assert(rest =~= entries.drop_last());
        lemma_lookup_front(entries, other);
    } else {
        assert(rest =~= entries);
    }
    assert forall|i: int, j: int| 0 <= i < j < after.len() implies (#[trigger] after[i]).0 != (
    #[trigger] after[j]).0 by {
        assert(after[j] == rest[j - 1]);
        if i > 0 {
            assert(after[i] == rest[i - 1]);
            assert(rest[i - 1].0 != rest[j - 1].0);
        } else if lookup(entries, key) is None {
            assert(rest[j - 1] == entries[j - 1]);
        }
    }
}

/// Another key is held as before where one is taken out.
proof fn lemma_lookup_without(
    entries: Seq<(Seq<u8>, Option<u64>)>,
    key: Seq<u8>,
    other: Seq<u8>,
)
    ensures
        other != key ==> lookup(without(entries, key), other) == lookup(entries, other),
        lookup(without(entries, key), key) is None,
    decreases entries.len(),
{
    if entries.len() > 0 {
        lemma_lookup_without(entries.skip(1), key, other);
        if entries[0].0 != key {
            let w = without(entries, key);
            assert(w.skip(1) =~= without(entries.skip(1), key));
        }
    }
}

/// What is held in all but the last entry is held with the same value in all.
proof fn lemma_lookup_front(entries: Seq<(Seq<u8>, Option<u64>)>, key: Seq<u8>)
    requires
        entries.len() > 0,
    ensures
        lookup(entries.drop_last(), key) is Some ==> lookup(entries.drop_last(), key) == lookup(
            entries,
            key,
        ),
    decreases entries.len(),
{
    if entries.len() > 1 && entries[0].0 != key {
        lemma_lookup_front(entries.skip(1), key);
        assert(entries.drop_last().skip(1) =~= entries.skip(1).drop_last());
    }
}

/// Where a key is put in front twice, the last value stays.
pub proof fn lemma_put_twice(
    entries: Seq<(Seq<u8>, Option<u64>)>,
    limit: nat,
    key: Seq<u8>,
    first: Option<u64>,
    second: Option<u64>,
)
    requires
        lookup(entries, key) is Some,
    ensures
        put_front(put_front(entries, limit, key, first), limit, key, second) == put_front(
            entries,
            limit,
            key,
            second,
        ),
{
    let once = put_front(entries, limit, key, first);
    let rest = without(entries, key);
    assert(once.skip(1) =~= rest);
    lemma_lookup_without(entries, key, key);
    lemma_without(rest, key);
    assert(without(once, key) == rest);
}

/// Where a key that stands in front is put in front with the same value, nothing changes.
pub proof fn lemma_put_again(
    entries: Seq<(Seq<u8>, Option<u64>)>,
    limit: nat,
    key: Seq<u8>,
    value: Option<u64>,
)
    requires
        distinct_keys(entries),
        0 < limit,
        entries.len() <= limit,
    ensures
        put_front(put_front(entries, limit, key, value), limit, key, value) == put_front(
            entries,
            limit,
            key,
            value,
        ),
{
    let once = put_front(entries, limit, key, value);
    law_put_front(entries, limit, key, value, key);
    let rest = once.skip(1);
    assert(once =~= seq![(key, value)] + rest);
    lemma_lookup(rest, key);
    if lookup(rest, key) is Some {
        let i = choose|i: int| 0 <= i < rest.len() && (#[trigger] rest[i]).0 == key;
        assert(once[0].0 != once[i + 1].0);
    }
    lemma_without(rest, key);
    assert(without(once, key) == rest);
}

impl RecentKeys {
    /// What is held, with what was used last in front.
    pub closed spec fn entries(&self) -> Seq<(Seq<u8>, Option<u64>)> {
        lru_entries(self.cache)
    }

    /// How much can be held.
    pub closed spec fn limit(&self) -> nat {
        lru_limit(self.cache)
    }

    /// Whether no key occurs twice and there are not too many.
    pub open spec fn wf(&self) -> bool {
        &&& distinct_keys(self.entries())
        &&& 0 < self.limit()
        &&& self.entries().len() <= self.limit()
    }

    /// Nothing, with a limit.
    pub fn new(limit: usize) -> (r: RecentKeys)
        requires
            0 < limit <= MAX_LIMIT,
        ensures
            r.wf(),
            r.entries() == Seq::<(Seq<u8>, Option<u64>)>::empty(),
            r.limit() == limit,
    {
        RecentKeys { cache: lru_new(limit) }
    }

    /// Puts a key in front with a value; the result is the value that it had.
    pub fn put(&mut self, key: &[u8], value: Option<u64>) -> (r: Option<Option<u64>>)
        requires
            old(self).wf(),
        ensures
            final(self).wf(),
            final(self).limit() == old(self).limit(),
            final(self).entries() == put_front(
                old(self).entries(),
                old(self).limit(),
                key@,
                value,
            ),
            r == lookup(old(self).entries(), key@),
    {
        proof {
            law_put_front(self.entries(), self.limit(), key@, value, key@);
        }
        lru_put(&mut self.cache, copy_slice(key), value)
    }

    /// The value of a key, which is put in front.
    pub fn get(&mut self, key: &[u8]) -> (r: Option<Option<u64>>)
        requires
            old(self).wf(),
        ensures
            final(self).wf(),
            final(self).limit() == old(self).limit(),
            r == lookup(old(self).entries(), key@),
            final(self).entries() == (match r {
                Some(value) => put_front(old(self).entries(), old(self).limit(), key@, value),
                None => old(self).entries(),
            }),
    {
        proof {
            if let Some(value) = lookup(self.entries(), key@) {
                law_put_front(self.entries(), self.limit(), key@, value, key@);
            }
        }
        lru_get(&mut self.cache, key)
    }

    /// Takes a key out; the result is the value that it had.
    pub fn pop(&mut self, key: &[u8]) -> (r: Option<Option<u64>>)
        requires
            old(self).wf(),
        ensures
            final(self).wf(),
            final(self).limit() == old(self).limit(),
            r == lookup(old(self).entries(), key@),
            final(self).entries() == without(old(self).entries(), key@),
            lookup(final(self).entries(), key@) is None,
    {
        proof {
            lemma_without(self.entries(), key@);
            lemma_lookup_without(self.entries(), key@, key@);
        }
        lru_pop(&mut self.cache, key)
    }

    /// Whether a key is held.
    pub fn contains(&self, key: &[u8]) -> (r: bool)
        ensures
            r == lookup(self.entries(), key@) is Some,
    {
        lru_contains(&self.cache, key)
    }

    /// The keys, with what was used last in front.
    pub fn keys(&self) -> (r: Vec<Vec<u8>>)
        ensures
            r@.len() == self.entries().len(),
            forall|i: int| 0 <= i < r@.len() ==> (#[trigger] r@[i])@ == self.entries()[i].0,
    {
        lru_keys(&self.cache)
    }
}

/// A key that is put in front stands before all others, and they stay in their order: one
/// that was held leaves its place, and of as many as can be held the last is gone.
pub proof fn law_put_front_order(
    entries: Seq<(Seq<u8>, Option<u64>)>,
    limit: nat,
    key: Seq<u8>,
    value: Option<u64>,
    i: int,
)
    requires
        distinct_keys(entries),
        0 < limit,
        entries.len() <= limit,
    ensures
        ({
            let after = put_front(entries, limit, key, value);
            &&& after[0] == (key, value)
            &&& lookup(entries, key) is None && entries.len() < limit ==> after.skip(1) == entries
            &&& lookup(entries, key) is None && entries.len() == limit ==> after.skip(1)
                == entries.take(limit - 1) && lookup(after, entries.last().0) is None
            &&& 0 <= i < entries.len() && entries[i].0 == key ==> after.skip(1) == entries.take(i)
                + entries.skip(i + 1)
        }),
{
    let after = put_front(entries, limit, key, value);
    lemma_lookup(entries, key);
    if lookup(entries, key) is None {
        if entries.len() < limit {
            assert(after.skip(1) =~= entries);
        } else {
            assert(after.skip(1) =~= entries.take(limit - 1));
            lemma_lookup(after, entries.last().0);
            assert forall|k: int| 0 <= k < after.len() implies (#[trigger] after[k]).0
                != entries.last().0 by {
                if k > 0 {
                    assert(after[k] == entries[k - 1]);
                } else {
                    assert(entries[entries.len() - 1].0 != key);
                }
            }
        }
    }
    if 0 <= i < entries.len() && entries[i].0 == key {
        lemma_without_at(entries, key, i);
        assert(after.skip(1) =~= without(entries, key));
    }
}

/// Taking a key out leaves what stands before it and behind it.
proof fn lemma_without_at(entries: Seq<(Seq<u8>, Option<u64>)>, key: Seq<u8>, i: int)
    requires
        distinct_keys(entries),
        0 <= i < entries.len(),
        entries[i].0 == key,
    ensures
        without(entries, key) == entries.take(i) + entries.skip(i + 1),
    decreases entries.len(),
{
    let rest = entries.skip(1);
    assert forall|a: int, b: int| 0 <= a < b < rest.len() implies (#[trigger] rest[a]).0 != (
    #[trigger] rest[b]).0 by {
        assert(rest[a] == entries[a + 1] && rest[b] == entries[b + 1]);
    }
    if i == 0 {
        assert forall|k: int| 0 <= k < rest.len() implies (#[trigger] rest[k]).0 != key by {
            assert(rest[k] == entries[k + 1]);
        }
        lemma_lookup(rest, key);
        lemma_without(rest, key);
        assert(entries.take(0) + entries.skip(1) =~= rest);
    } else {
        assert(entries[0].0 != key);
        lemma_without_at(rest, key, i - 1);
        assert(seq![entries[0]] + (rest.take(i - 1) + rest.skip(i)) =~= entries.take(i)
            + entries.skip(i + 1));
    }
}

/// What is found under a key is what is held under it, and nothing where it is not held.
pub proof fn law_lookup(entries: Seq<(Seq<u8>, Option<u64>)>, key: Seq<u8>, i: int)
    requires
        distinct_keys(entries),
    ensures
        0 <= i < entries.len() && entries[i].0 == key ==> lookup(entries, key) == Some(entries[i].1),
        (forall|k: int| 0 <= k < entries.len() ==> (#[trigger] entries[k]).0 != key) ==> lookup(
            entries,
            key,
        ) is None,
    decreases entries.len(),
{
    lemma_lookup(entries, key);
    if 0 < i < entries.len() && entries[i].0 == key {
        let rest = entries.skip(1);
        assert forall|a: int, b: int| 0 <= a < b < rest.len() implies (#[trigger] rest[a]).0 != (
        #[trigger] rest[b]).0 by {
            assert(rest[a] == entries[a + 1] && rest[b] == entries[b + 1]);
        }
        assert(entries[0].0 != key);
        law_lookup(rest, key, i - 1);
    }
}

} // verus!
