//! Memoizing retrieval: look the request up, compute on a miss, and write
//! the result back where the caller asked for it.

use crate::key::{get_key, key_text};
use crate::store::{
    cache_capacity, cache_entries, has_key, insert, inserted, lemma_inserted_evicts_least_recent,
    lemma_inserted_is_found, lemma_inserted_keeps_others, lemma_inserted_keeps_store_well_formed,
    lemma_touched_keeps_contents, lookup, probe, touched, well_formed,
};
use lru::LruCache;
use vstd::prelude::*;

verus! {

/// The bytes that a computation produced, if it succeeded.
pub open spec fn produced<E>(outcome: Result<Vec<u8>, E>) -> Option<Seq<u8>> {
    match outcome {
        Ok(bytes) => Some(bytes@),
        Err(_) => None,
    }
}

/// The entries of the store after a retrieval of `key`, where `computed` is
/// what the computation produced on a miss.
///
/// A hit only moves the entry to the front. A miss changes the store only if
/// the computation succeeded and the caller asked to persist its result.
pub open spec fn entries_after(
    entries: Seq<(Seq<char>, Seq<u8>)>,
    capacity: nat,
    key: Seq<char>,
    persist: bool,
    computed: Option<Seq<u8>>,
) -> Seq<(Seq<char>, Seq<u8>)> {
    if has_key(entries, key) {
        touched(entries, key)
    } else if persist && computed is Some {
        inserted(entries, capacity, key, computed->Some_0)
    } else {
        entries
    }
}

/// The bytes that a retrieval of `key` returns, if it returns any: those in
/// the store on a hit, else those that the computation produced.
pub open spec fn returned(
    entries: Seq<(Seq<char>, Seq<u8>)>,
    key: Seq<char>,
    computed: Option<Seq<u8>>,
) -> Option<Seq<u8>> {
    match lookup(entries, key) {
        Some(bytes) => Some(bytes),
        None => computed,
    }
}

/// A retrieval leaves a well-formed store well formed: the store never holds
/// more entries than it may.
pub proof fn lemma_retrieval_keeps_store_well_formed(
    entries: Seq<(Seq<char>, Seq<u8>)>,
    capacity: nat,
    key: Seq<char>,
    persist: bool,
    computed: Option<Seq<u8>>,
)
    requires
        well_formed(entries, capacity),
    ensures
        well_formed(entries_after(entries, capacity, key, persist, computed), capacity),
{
    if has_key(entries, key) {
        lemma_touched_keeps_contents(entries, capacity, key, key);
    } else if persist && computed is Some {
        lemma_inserted_keeps_store_well_formed(entries, capacity, key, computed->Some_0);
    }
}

/// After a retrieval that was to persist and returned some bytes, the store
/// holds those bytes under the key: a later retrieval of the same request is
/// a hit and returns them. After a hit this holds whether or not the
/// retrieval was to persist.
pub proof fn lemma_retrieved_bytes_are_found_later(
    entries: Seq<(Seq<char>, Seq<u8>)>,
    capacity: nat,
    key: Seq<char>,
    persist: bool,
    computed: Option<Seq<u8>>,
)
    requires
        well_formed(entries, capacity),
        returned(entries, key, computed) is Some,
        persist || has_key(entries, key),
    ensures
        lookup(entries_after(entries, capacity, key, persist, computed), key) == returned(
            entries,
            key,
            computed,
        ),
{
    if has_key(entries, key) {
        lemma_touched_keeps_contents(entries, capacity, key, key);
    } else {
        lemma_inserted_is_found(entries, capacity, key, computed->Some_0);
    }
}

/// A miss that is not to persist leaves the store as it was, and so the key
/// absent, whatever the computation returned.
pub proof fn lemma_unpersisted_miss_leaves_key_absent(
    entries: Seq<(Seq<char>, Seq<u8>)>,
    capacity: nat,
    key: Seq<char>,
    computed: Option<Seq<u8>>,
)
    requires
        !has_key(entries, key),
    ensures
        entries_after(entries, capacity, key, false, computed) == entries,
        lookup(entries_after(entries, capacity, key, false, computed), key) is None,
{
}

/// A miss whose computation failed leaves the store as it was: no entry is
/// added for the key, and none is moved or lost.
pub proof fn lemma_failed_miss_leaves_store(
    entries: Seq<(Seq<char>, Seq<u8>)>,
    capacity: nat,
    key: Seq<char>,
    persist: bool,
)
    requires
        !has_key(entries, key),
    ensures
        entries_after(entries, capacity, key, persist, None) == entries,
        lookup(entries_after(entries, capacity, key, persist, None), key) is None,
{
}

/// A retrieval of one key does not change what is kept under another, but
/// for the one entry that a full store gives up when a miss is written back.
pub proof fn lemma_retrieval_keeps_other_keys(
    entries: Seq<(Seq<char>, Seq<u8>)>,
    capacity: nat,
    key: Seq<char>,
    persist: bool,
    computed: Option<Seq<u8>>,
    other: Seq<char>,
)
    requires
        well_formed(entries, capacity),
        other != key,
        has_key(entries, key) || entries.len() < capacity || other != entries.last().0,
    ensures
        lookup(entries_after(entries, capacity, key, persist, computed), other) == lookup(
            entries,
            other,
        ),
{
    if has_key(entries, key) {
        lemma_touched_keeps_contents(entries, capacity, key, other);
    } else if persist && computed is Some {
        lemma_inserted_keeps_others(entries, capacity, key, computed->Some_0, other);
    }
}

/// A miss that is written back to a full store evicts the entry used least
/// recently: a later retrieval of that entry's key is a miss.
pub proof fn lemma_written_miss_evicts_least_recent(
    entries: Seq<(Seq<char>, Seq<u8>)>,
    capacity: nat,
    key: Seq<char>,
    computed: Seq<u8>,
)
    requires
        well_formed(entries, capacity),
        !has_key(entries, key),
        entries.len() == capacity,
    ensures
        entries_after(entries, capacity, key, true, Some(computed)).len() == capacity,
        lookup(entries_after(entries, capacity, key, true, Some(computed)), entries.last().0)
            is None,
{
    lemma_inserted_evicts_least_recent(entries, capacity, key, computed);
}

/// Decides what is written back after a miss: the bytes of `outcome`, if the
/// computation succeeded and the caller asked to persist; else nothing.
pub fn bytes_to_persist<E>(persist: bool, outcome: &Result<Vec<u8>, E>) -> (bytes: Option<&Vec<u8>>)
    ensures
        bytes is Some <==> persist && outcome is Ok,
        bytes matches Some(b) ==> outcome matches Ok(r) && b == r,
{
    match outcome {
        Ok(result) => if persist {
            Some(result)
        } else {
            None
        },
        Err(_) => None,
    }
}

/// Returns the result of the request made of `sql` and `command`, from the
/// store where it is there, else from `f`.
///
/// On a hit the stored bytes are returned and `f` is not called: nothing is
/// asked of it. On a miss `f` is called once and its outcome is returned as
/// it is. A failure leaves the store as it was; a success is written to the
/// store if `persist` is set.
///
/// The store is held for the whole call. A caller that shares the store
/// behind a lock takes the same steps itself, `probe`, `bytes_to_persist`
/// and `insert`, and holds the lock around the first and the last only.
pub fn retrieve<E, F>(
    cache: &mut LruCache<String, Vec<u8>>,
    sql: &str,
    command: &str,
    persist: bool,
    f: F,
) -> (result: Result<Vec<u8>, E>) where F: FnOnce() -> Result<Vec<u8>, E>
    requires
        lookup(cache_entries(*old(cache)), key_text(sql@, command@)) is None ==> call_requires(
            f,
            (),
        ),
    ensures
        lookup(cache_entries(*old(cache)), key_text(sql@, command@)) matches Some(bytes)
            ==> result matches Ok(found) && found@ == bytes,
        lookup(cache_entries(*old(cache)), key_text(sql@, command@)) is None ==> call_ensures(
            f,
            (),
            result,
        ),
        cache_entries(*final(cache)) == entries_after(
            cache_entries(*old(cache)),
            cache_capacity(*old(cache)),
            key_text(sql@, command@),
            persist,
            produced(result),
        ),
        cache_capacity(*final(cache)) == cache_capacity(*old(cache)),
        well_formed(cache_entries(*old(cache)), cache_capacity(*old(cache))) ==> well_formed(
            cache_entries(*final(cache)),
            cache_capacity(*final(cache)),
        ),
{
    let key = get_key(sql, command);
    match probe(cache, &key) {
        Some(cached) => Ok(cached),
        None => {
            let outcome = f();
            match bytes_to_persist(persist, &outcome) {
                Some(bytes) => insert(cache, key, bytes),
                None => {},
            }
            outcome
        },
    }
}

} // verus!
