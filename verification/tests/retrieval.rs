use lru::LruCache;
use query_cache::{bytes_to_persist, get_key, insert, probe, retrieve};
use std::cell::Cell;
use std::num::NonZeroUsize;

fn store(capacity: usize) -> LruCache<String, Vec<u8>> {
    LruCache::new(NonZeroUsize::new(capacity).unwrap())
}

#[test]
fn hit_returns_stored_bytes_without_computing() {
    let mut cache = store(4);
    let first: Result<Vec<u8>, String> =
        retrieve(&mut cache, "SELECT 1", "exec", true, || Ok(vec![1, 2, 3]));
    assert_eq!(first, Ok(vec![1, 2, 3]));

    for persist in [true, false] {
        let called = Cell::new(false);
        let again: Result<Vec<u8>, String> = retrieve(&mut cache, "SELECT 1", "exec", persist, || {
            called.set(true);
            Ok(vec![9, 9, 9])
        });
        assert_eq!(again, Ok(vec![1, 2, 3]));
        assert!(!called.get());
    }
    assert_eq!(cache.len(), 1);
}

#[test]
fn hit_ignores_a_computation_that_would_fail() {
    let mut cache = store(2);
    let first: Result<Vec<u8>, String> =
        retrieve(&mut cache, "SELECT 1", "exec", true, || Ok(vec![7]));
    assert_eq!(first, Ok(vec![7]));
    let again: Result<Vec<u8>, String> =
        retrieve(&mut cache, "SELECT 1", "exec", true, || Err(String::from("down")));
    assert_eq!(again, Ok(vec![7]));
}

#[test]
fn miss_computes_and_populates_the_store() {
    let mut cache = store(4);
    let called = Cell::new(0);
    let result: Result<Vec<u8>, String> = retrieve(&mut cache, "SELECT 2", "json", true, || {
        called.set(called.get() + 1);
        Ok(b"[{\"a\":2}]".to_vec())
    });
    assert_eq!(result, Ok(b"[{\"a\":2}]".to_vec()));
    assert_eq!(called.get(), 1);
    assert_eq!(cache.len(), 1);
    assert_eq!(
        cache.peek(&get_key("SELECT 2", "json")),
        Some(&b"[{\"a\":2}]".to_vec())
    );
    assert_eq!(
        cache.peek("4d543be8af725156c8c94437139c7a16b884515c2585d9239fd2eea61c106219.json"),
        Some(&b"[{\"a\":2}]".to_vec())
    );
}

#[test]
fn miss_without_persist_leaves_the_key_absent() {
    let mut cache = store(4);
    let result: Result<Vec<u8>, String> =
        retrieve(&mut cache, "SELECT 3", "arrow", false, || Ok(vec![3, 3]));
    assert_eq!(result, Ok(vec![3, 3]));
    assert!(!cache.contains(&get_key("SELECT 3", "arrow")));
    assert!(cache.is_empty());

    let called = Cell::new(false);
    let again: Result<Vec<u8>, String> = retrieve(&mut cache, "SELECT 3", "arrow", false, || {
        called.set(true);
        Ok(vec![4, 4])
    });
    assert_eq!(again, Ok(vec![4, 4]));
    assert!(called.get());
}

#[test]
fn failure_is_returned_as_it_is_and_adds_no_entry() {
    let mut cache = store(4);
    for persist in [true, false] {
        let result: Result<Vec<u8>, String> =
            retrieve(&mut cache, "SELECT 4", "exec", persist, || {
                Err(String::from("engine failed: no such table"))
            });
        assert_eq!(result, Err(String::from("engine failed: no such table")));
        assert!(!cache.contains(&get_key("SELECT 4", "exec")));
        assert!(cache.is_empty());
    }
}

#[test]
fn failure_leaves_other_entries_and_their_order() {
    let mut cache = store(2);
    let _: Result<Vec<u8>, u32> = retrieve(&mut cache, "a", "exec", true, || Ok(vec![1]));
    let _: Result<Vec<u8>, u32> = retrieve(&mut cache, "b", "exec", true, || Ok(vec![2]));
    let failed: Result<Vec<u8>, u32> = retrieve(&mut cache, "c", "exec", true, || Err(17));
    assert_eq!(failed, Err(17));
    let keys: Vec<String> = cache.iter().map(|(k, _)| k.clone()).collect();
    assert_eq!(keys, vec![get_key("b", "exec"), get_key("a", "exec")]);
}

#[test]
fn more_keys_than_capacity_evict_the_least_recently_retrieved() {
    let mut cache = store(2);
    let _: Result<Vec<u8>, String> = retrieve(&mut cache, "SELECT 1", "exec", true, || Ok(vec![1]));
    let _: Result<Vec<u8>, String> = retrieve(&mut cache, "SELECT 2", "exec", true, || Ok(vec![2]));
    let _: Result<Vec<u8>, String> = retrieve(&mut cache, "SELECT 3", "exec", true, || Ok(vec![3]));
    assert_eq!(cache.len(), 2);
    assert!(!cache.contains(&get_key("SELECT 1", "exec")));
    assert!(cache.contains(&get_key("SELECT 2", "exec")));
    assert!(cache.contains(&get_key("SELECT 3", "exec")));

    let called = Cell::new(false);
    let again: Result<Vec<u8>, String> = retrieve(&mut cache, "SELECT 1", "exec", false, || {
        called.set(true);
        Ok(vec![11])
    });
    assert_eq!(again, Ok(vec![11]));
    assert!(called.get());
}

#[test]
fn a_hit_refreshes_recency() {
    let mut cache = store(2);
    let _: Result<Vec<u8>, String> = retrieve(&mut cache, "SELECT 1", "exec", true, || Ok(vec![1]));
    let _: Result<Vec<u8>, String> = retrieve(&mut cache, "SELECT 2", "exec", true, || Ok(vec![2]));
    let hit: Result<Vec<u8>, String> =
        retrieve(&mut cache, "SELECT 1", "exec", false, || Ok(vec![0]));
    assert_eq!(hit, Ok(vec![1]));
    let _: Result<Vec<u8>, String> = retrieve(&mut cache, "SELECT 3", "exec", true, || Ok(vec![3]));
    assert!(cache.contains(&get_key("SELECT 1", "exec")));
    assert!(!cache.contains(&get_key("SELECT 2", "exec")));
    assert!(cache.contains(&get_key("SELECT 3", "exec")));
}

#[test]
fn store_never_holds_more_than_its_capacity() {
    let mut cache = store(3);
    for i in 0..20u8 {
        let sql = format!("SELECT {}", i);
        let result: Result<Vec<u8>, String> =
            retrieve(&mut cache, &sql, "json", i % 3 != 0, || Ok(vec![i]));
        assert_eq!(result, Ok(vec![i]));
        assert!(cache.len() <= 3);
    }
    assert_eq!(cache.len(), 3);
    assert_eq!(cache.cap().get(), 3);
}

#[test]
fn same_sql_under_another_command_is_another_entry() {
    let mut cache = store(4);
    let exec: Result<Vec<u8>, String> =
        retrieve(&mut cache, "SELECT 1", "exec", true, || Ok(vec![1]));
    let json: Result<Vec<u8>, String> =
        retrieve(&mut cache, "SELECT 1", "json", true, || Ok(vec![2]));
    assert_eq!(exec, Ok(vec![1]));
    assert_eq!(json, Ok(vec![2]));
    assert_eq!(cache.len(), 2);
}

#[test]
fn probe_hands_out_a_copy_and_moves_the_entry_to_the_front() {
    let mut cache = store(3);
    cache.put(String::from("a"), vec![1]);
    cache.put(String::from("b"), vec![2]);
    cache.put(String::from("c"), vec![3]);
    assert_eq!(probe(&mut cache, &String::from("a")), Some(vec![1]));
    let keys: Vec<String> = cache.iter().map(|(k, _)| k.clone()).collect();
    assert_eq!(keys, vec!["a", "c", "b"]);
    assert_eq!(cache.peek("a"), Some(&vec![1]));
}

#[test]
fn probe_of_an_absent_key_changes_nothing() {
    let mut cache = store(3);
    cache.put(String::from("a"), vec![1]);
    cache.put(String::from("b"), vec![2]);
    assert_eq!(probe(&mut cache, &String::from("z")), None);
    let keys: Vec<String> = cache.iter().map(|(k, _)| k.clone()).collect();
    assert_eq!(keys, vec!["b", "a"]);
    assert_eq!(probe(&mut store(1), &String::new()), None);
}

#[test]
fn insert_puts_a_copy_at_the_front() {
    let mut cache = store(3);
    let bytes = vec![5, 6];
    insert(&mut cache, String::from("a"), &bytes);
    insert(&mut cache, String::from("b"), &vec![7]);
    assert_eq!(bytes, vec![5, 6]);
    let entries: Vec<(String, Vec<u8>)> =
        cache.iter().map(|(k, v)| (k.clone(), v.clone())).collect();
    assert_eq!(
        entries,
        vec![(String::from("b"), vec![7]), (String::from("a"), vec![5, 6])]
    );
}

#[test]
fn insert_replaces_the_value_of_a_present_key_wholesale() {
    let mut cache = store(2);
    insert(&mut cache, String::from("a"), &vec![1, 1, 1]);
    insert(&mut cache, String::from("b"), &vec![2]);
    insert(&mut cache, String::from("a"), &vec![9]);
    assert_eq!(cache.len(), 2);
    let entries: Vec<(String, Vec<u8>)> =
        cache.iter().map(|(k, v)| (k.clone(), v.clone())).collect();
    assert_eq!(
        entries,
        vec![(String::from("a"), vec![9]), (String::from("b"), vec![2])]
    );
}

#[test]
fn insert_into_a_full_store_drops_the_entry_at_the_back() {
    let mut cache = store(2);
    insert(&mut cache, String::from("a"), &vec![1]);
    insert(&mut cache, String::from("b"), &vec![2]);
    insert(&mut cache, String::from("c"), &vec![3]);
    let keys: Vec<String> = cache.iter().map(|(k, _)| k.clone()).collect();
    assert_eq!(keys, vec!["c", "b"]);
    assert_eq!(probe(&mut cache, &String::from("a")), None);
}

#[test]
fn store_of_one_entry_keeps_only_the_latest() {
    let mut cache = store(1);
    let _: Result<Vec<u8>, String> = retrieve(&mut cache, "SELECT 1", "exec", true, || Ok(vec![1]));
    let _: Result<Vec<u8>, String> = retrieve(&mut cache, "SELECT 2", "exec", true, || Ok(vec![2]));
    assert_eq!(cache.len(), 1);
    assert_eq!(cache.peek(&get_key("SELECT 2", "exec")), Some(&vec![2]));
    assert_eq!(cache.peek(&get_key("SELECT 1", "exec")), None);
}

#[test]
fn bytes_are_written_back_only_for_a_success_that_is_to_persist() {
    let ok: Result<Vec<u8>, String> = Ok(vec![1, 2]);
    let failed: Result<Vec<u8>, String> = Err(String::from("no"));
    assert_eq!(bytes_to_persist(true, &ok), Some(&vec![1, 2]));
    assert_eq!(bytes_to_persist(false, &ok), None);
    assert_eq!(bytes_to_persist(true, &failed), None);
    assert_eq!(bytes_to_persist(false, &failed), None);
}

#[test]
fn empty_result_is_a_result_like_any_other() {
    let mut cache = store(2);
    let first: Result<Vec<u8>, String> = retrieve(&mut cache, "SELECT 0", "exec", true, || Ok(vec![]));
    assert_eq!(first, Ok(vec![]));
    let called = Cell::new(false);
    let again: Result<Vec<u8>, String> = retrieve(&mut cache, "SELECT 0", "exec", true, || {
        called.set(true);
        Ok(vec![1])
    });
    assert_eq!(again, Ok(vec![]));
    assert!(!called.get());
}
