//! The bounded store of results, kept by the `lru` crate, and its model.
//!
//! The store is modelled as the sequence of its entries, each a key and the
//! bytes kept under it, from the entry used most recently to the one used
//! least recently, together with the number of entries it may hold.

use lru::LruCache;
use vstd::prelude::*;

verus! {

#[verifier::external_type_specification]
#[verifier::external_body]
#[verifier::reject_recursive_types(K)]
#[verifier::reject_recursive_types(V)]
#[verifier::reject_recursive_types(S)]
pub struct ExLruCache<K, V, S>(LruCache<K, V, S>);

#[verifier::external_type_specification]
#[verifier::external_body]
pub struct ExDefaultHasher(lru::DefaultHasher);

/// The entries of `cache`, from the most recently used to the least
/// recently used: the order in which `LruCache::iter` visits them.
pub uninterp spec fn cache_entries(cache: LruCache<String, Vec<u8>>) -> Seq<(Seq<char>, Seq<u8>)>;

/// The number of entries that `cache` may hold: `LruCache::cap`.
pub uninterp spec fn cache_capacity(cache: LruCache<String, Vec<u8>>) -> nat;

/// Whether some entry is kept under `key`.
pub open spec fn has_key(entries: Seq<(Seq<char>, Seq<u8>)>, key: Seq<char>) -> bool {
    exists|i: int| 0 <= i < entries.len() && (#[trigger] entries[i]).0 == key
}

/// The place of the entry kept under `key`, where there is one.
pub open spec fn rank_of(entries: Seq<(Seq<char>, Seq<u8>)>, key: Seq<char>) -> int
    recommends
        has_key(entries, key),
{
    choose|i: int| 0 <= i < entries.len() && (#[trigger] entries[i]).0 == key
}

/// The bytes kept under `key`, if any.
pub open spec fn lookup(entries: Seq<(Seq<char>, Seq<u8>)>, key: Seq<char>) -> Option<Seq<u8>> {
    if has_key(entries, key) {
        Some(entries[rank_of(entries, key)].1)
    } else {
        None
    }
}

/// The entries after `key` was used: its entry, if there is one, has moved
/// to the front, and the others keep their order.
pub open spec fn touched(entries: Seq<(Seq<char>, Seq<u8>)>, key: Seq<char>) -> Seq<
    (Seq<char>, Seq<u8>),
> {
    if has_key(entries, key) {
        let rank = rank_of(entries, key);
        seq![entries[rank]] + entries.remove(rank)
    } else {
        entries
    }
}

/// The entries after `value` was put under `key` in a store that may hold
/// `capacity` entries. The new entry stands at the front. It takes the place
/// of the entry that had the key; where there was none and the store is full,
/// the entry used least recently leaves.
pub open spec fn inserted(
    entries: Seq<(Seq<char>, Seq<u8>)>,
    capacity: nat,
    key: Seq<char>,
    value: Seq<u8>,
) -> Seq<(Seq<char>, Seq<u8>)> {
    if has_key(entries, key) {
        seq![(key, value)] + entries.remove(rank_of(entries, key))
    } else if entries.len() == capacity {
        seq![(key, value)] + entries.drop_last()
    } else {
        seq![(key, value)] + entries
    }
}

/// No two entries share a key.
pub open spec fn distinct_keys(entries: Seq<(Seq<char>, Seq<u8>)>) -> bool {
    forall|i: int, j: int|
        0 <= i < j < entries.len() ==> (#[trigger] entries[i]).0 != (#[trigger] entries[j]).0
}

/// What holds of every store: it may hold at least one entry, it holds no
/// more entries than it may, and no two of them share a key.
pub open spec fn well_formed(entries: Seq<(Seq<char>, Seq<u8>)>, capacity: nat) -> bool {
    &&& capacity >= 1
    &&& entries.len() <= capacity
    &&& distinct_keys(entries)
}

/// In a store without repeated keys, the entry at `at` is the one that a
/// lookup of its key finds.
pub proof fn lemma_lookup_finds_entry(entries: Seq<(Seq<char>, Seq<u8>)>, at: int)
    requires
        distinct_keys(entries),
        0 <= at < entries.len(),
    ensures
        has_key(entries, entries[at].0),
        rank_of(entries, entries[at].0) == at,
        lookup(entries, entries[at].0) == Some(entries[at].1),
{
    let key = entries[at].0;
    assert(has_key(entries, key));
    let rank = rank_of(entries, key);
    assert(entries[rank].0 == key);
    if rank < at {
        assert(entries[rank].0 != entries[at].0);
    }
    if at < rank {
        assert(entries[at].0 != entries[rank].0);
    }
}

/// Using a key changes the order of a store, not what it holds: the store
/// stays well formed, keeps its size, and every key is looked up as before.
pub proof fn lemma_touched_keeps_contents(
    entries: Seq<(Seq<char>, Seq<u8>)>,
    capacity: nat,
    key: Seq<char>,
    other: Seq<char>,
)
    requires
        well_formed(entries, capacity),
    ensures
        well_formed(touched(entries, key), capacity),
        touched(entries, key).len() == entries.len(),
        lookup(touched(entries, key), other) == lookup(entries, other),
        has_key(entries, key) ==> touched(entries, key)[0] == (key, lookup(entries, key)->Some_0),
{
    if has_key(entries, key) {
        let rank = rank_of(entries, key);
        let after = touched(entries, key);
        // Where each entry of the new order stood before.
        let origin = |i: int| if i == 0 { rank } else if i <= rank { i - 1 } else { i };
        assert forall|i: int| 0 <= i < after.len() implies
            0 <= origin(i) < entries.len() && #[trigger] after[i] == entries[origin(i)] by {}
        assert forall|i: int, j: int| 0 <= i < j < after.len() implies
            (#[trigger] after[i]).0 != (#[trigger] after[j]).0 by {
            let a = origin(i);
            let b = origin(j);
            assert(after[i] == entries[a] && after[j] == entries[b]);
            if a < b {
                assert(entries[a].0 != entries[b].0);
            } else {
                assert(b < a);
                assert(entries[b].0 != entries[a].0);
            }
        }
        if has_key(entries, other) {
            let old_rank = rank_of(entries, other);
            let new_rank = if old_rank == rank {
                0
            } else if old_rank < rank {
                old_rank + 1
            } else {
                old_rank
            };
            assert(after[new_rank] == entries[old_rank]);
            lemma_lookup_finds_entry(after, new_rank);
        } else if has_key(after, other) {
            let new_rank = rank_of(after, other);
            assert(after[new_rank] == entries[origin(new_rank)]);
            assert(entries[origin(new_rank)].0 == other);
        }
        assert(after[0] == entries[rank]);
    }
}

/// Putting a value into a well-formed store leaves it well formed: it never
/// holds more entries than it may, and no key twice.
pub proof fn lemma_inserted_keeps_store_well_formed(
    entries: Seq<(Seq<char>, Seq<u8>)>,
    capacity: nat,
    key: Seq<char>,
    value: Seq<u8>,
)
    requires
        well_formed(entries, capacity),
    ensures
        well_formed(inserted(entries, capacity, key, value), capacity),
{
    let after = inserted(entries, capacity, key, value);
    if has_key(entries, key) {
        let rank = rank_of(entries, key);
        let origin = |i: int| if i <= rank { i - 1 } else { i };
        assert forall|i: int, j: int| 0 <= i < j < after.len() implies
            (#[trigger] after[i]).0 != (#[trigger] after[j]).0 by {
            let b = origin(j);
            assert(after[j] == entries[b]);
            if i == 0 {
                if b < rank {
                    assert(entries[b].0 != entries[rank].0);
                } else {
                    assert(entries[rank].0 != entries[b].0);
                }
            } else {
                let a = origin(i);
                assert(after[i] == entries[a]);
                assert(entries[a].0 != entries[b].0);
            }
        }
    } else {
        assert forall|i: int, j: int| 0 <= i < j < after.len() implies
            (#[trigger] after[i]).0 != (#[trigger] after[j]).0 by {
            assert(after[j] == entries[j - 1]);
            if i == 0 {
                assert(entries[j - 1].0 != key);
            } else {
                assert(after[i] == entries[i - 1]);
                assert(entries[i - 1].0 != entries[j - 1].0);
            }
        }
    }
}

/// What was put under a key is what a lookup of that key finds.
pub proof fn lemma_inserted_is_found(
    entries: Seq<(Seq<char>, Seq<u8>)>,
    capacity: nat,
    key: Seq<char>,
    value: Seq<u8>,
)
    requires
        well_formed(entries, capacity),
    ensures
        lookup(inserted(entries, capacity, key, value), key) == Some(value),
{
    let after = inserted(entries, capacity, key, value);
    lemma_inserted_keeps_store_well_formed(entries, capacity, key, value);
    assert(after[0] == (key, value));
    lemma_lookup_finds_entry(after, 0);
}

/// Putting a new key into a full store evicts the entry used least recently,
/// the one at the back, and no other: its key is no longer found, and every
/// other entry is found as before.
pub proof fn lemma_inserted_evicts_least_recent(
    entries: Seq<(Seq<char>, Seq<u8>)>,
    capacity: nat,
    key: Seq<char>,
    value: Seq<u8>,
)
    requires
        well_formed(entries, capacity),
        !has_key(entries, key),
        entries.len() == capacity,
    ensures
        inserted(entries, capacity, key, value).len() == capacity,
        lookup(inserted(entries, capacity, key, value), entries.last().0) is None,
        forall|i: int|
            0 <= i < entries.len() - 1 ==> lookup(
                inserted(entries, capacity, key, value),
                (#[trigger] entries[i]).0,
            ) == Some(entries[i].1),
{
    let after = inserted(entries, capacity, key, value);
    let last = entries.len() - 1;
    lemma_inserted_keeps_store_well_formed(entries, capacity, key, value);
    if has_key(after, entries.last().0) {
        let rank = rank_of(after, entries.last().0);
        if rank == 0 {
            assert(entries[last].0 == key);
        } else {
            assert(after[rank] == entries[rank - 1]);
            assert(entries[rank - 1].0 != entries[last].0);
        }
    }
    assert forall|i: int| 0 <= i < entries.len() - 1 implies lookup(
        after,
        (#[trigger] entries[i]).0,
    ) == Some(entries[i].1) by {
        assert(after[i + 1] == entries[i]);
        lemma_lookup_finds_entry(after, i + 1);
    }
}

/// Putting a value under a key leaves every other key as it was, but for the
/// one entry that a full store gives up for a new key.
pub proof fn lemma_inserted_keeps_others(
    entries: Seq<(Seq<char>, Seq<u8>)>,
    capacity: nat,
    key: Seq<char>,
    value: Seq<u8>,
    other: Seq<char>,
)
    requires
        well_formed(entries, capacity),
        other != key,
        has_key(entries, key) || entries.len() < capacity || other != entries.last().0,
    ensures
        lookup(inserted(entries, capacity, key, value), other) == lookup(entries, other),
{
    let after = inserted(entries, capacity, key, value);
    lemma_inserted_keeps_store_well_formed(entries, capacity, key, value);
    if has_key(entries, key) {
        let rank = rank_of(entries, key);
        if has_key(entries, other) {
            let old_rank = rank_of(entries, other);
            let new_rank = if old_rank < rank { old_rank + 1 } else { old_rank };
            assert(after[new_rank] == entries[old_rank]);
            lemma_lookup_finds_entry(after, new_rank);
        } else if has_key(after, other) {
            let new_rank = rank_of(after, other);
            let old_rank = if new_rank <= rank { new_rank - 1 } else { new_rank };
            assert(after[new_rank] == entries[old_rank]);
        }
    } else {
        if has_key(entries, other) {
            let old_rank = rank_of(entries, other);
            assert(after[old_rank + 1] == entries[old_rank]);
            lemma_lookup_finds_entry(after, old_rank + 1);
        } else if has_key(after, other) {
            let new_rank = rank_of(after, other);
            assert(after[new_rank] == entries[new_rank - 1]);
        }
    }
}

/// Calls `LruCache::get`.
///
/// Trusted: the call returns the value kept under `key`, or `None` where the
/// store has no such key; an entry that was found moves to the front of the
/// recency order, and nothing else changes.
#[verifier::external_body]
fn lru_get<'a>(cache: &'a mut LruCache<String, Vec<u8>>, key: &String) -> (found: Option<
    &'a Vec<u8>,
>)
    ensures
        match lookup(cache_entries(*old(cache)), key@) {
            Some(bytes) => found matches Some(value) && value@ == bytes,
            None => found is None,
        },
        cache_entries(*final(cache)) == touched(cache_entries(*old(cache)), key@),
        cache_capacity(*final(cache)) == cache_capacity(*old(cache)),
{
    cache.get(key)
}

/// Calls `LruCache::put`, and drops the value that the call hands back.
///
/// Trusted: the new entry stands at the front of the recency order. Where
/// the key was present its old entry is gone; where it was not and the store
/// held as many entries as it may, the entry at the back is gone. The other
/// entries keep their order, and the capacity stays.
#[verifier::external_body]
fn lru_put(cache: &mut LruCache<String, Vec<u8>>, key: String, value: Vec<u8>)
    ensures
        cache_entries(*final(cache)) == inserted(
            cache_entries(*old(cache)),
            cache_capacity(*old(cache)),
            key@,
            value@,
        ),
        cache_capacity(*final(cache)) == cache_capacity(*old(cache)),
{
    cache.put(key, value);
}

/// Looks `key` up in the store and hands out a copy of the bytes kept under
/// it. A key that is found becomes the most recently used.
pub fn probe(cache: &mut LruCache<String, Vec<u8>>, key: &String) -> (hit: Option<Vec<u8>>)
    ensures
        match lookup(cache_entries(*old(cache)), key@) {
            Some(bytes) => hit matches Some(copy) && copy@ == bytes,
            None => hit is None,
        },
        cache_entries(*final(cache)) == touched(cache_entries(*old(cache)), key@),
        cache_capacity(*final(cache)) == cache_capacity(*old(cache)),
        well_formed(cache_entries(*old(cache)), cache_capacity(*old(cache))) ==> well_formed(
            cache_entries(*final(cache)),
            cache_capacity(*final(cache)),
        ),
{
    proof {
        if well_formed(cache_entries(*cache), cache_capacity(*cache)) {
            lemma_touched_keeps_contents(
                cache_entries(*cache),
                cache_capacity(*cache),
                key@,
                key@,
            );
        }
    }
    match lru_get(cache, key) {
        Some(cached) => Some(cached.clone()),
        None => None,
    }
}

/// Puts a copy of `value` under `key`, as the most recently used entry. A
/// store that is full and does not have the key loses its least recently
/// used entry.
pub fn insert(cache: &mut LruCache<String, Vec<u8>>, key: String, value: &Vec<u8>)
    ensures
        cache_entries(*final(cache)) == inserted(
            cache_entries(*old(cache)),
            cache_capacity(*old(cache)),
            key@,
            value@,
        ),
        cache_capacity(*final(cache)) == cache_capacity(*old(cache)),
        well_formed(cache_entries(*old(cache)), cache_capacity(*old(cache))) ==> well_formed(
            cache_entries(*final(cache)),
            cache_capacity(*final(cache)),
        ),
{
    proof {
        if well_formed(cache_entries(*cache), cache_capacity(*cache)) {
            lemma_inserted_keeps_store_well_formed(
                cache_entries(*cache),
                cache_capacity(*cache),
                key@,
                value@,
            );
        }
    }
    lru_put(cache, key, value.clone());
}

} // verus!
