use lru_core::error::CacheError;
use lru_core::lru::LruCache;

fn text(keys: &[&str]) -> Vec<String> {
    keys.iter().map(|k| k.to_string()).collect()
}

fn filled(keys: &[&str]) -> LruCache<u32> {
    let mut cache = LruCache::new();
    let mut n = 0u32;
    for k in keys {
        n += 1;
        cache.insert(k.to_string(), n);
    }
    cache
}

/// Walks the chain from both ends and holds it against the index and `len`.
fn holds_invariants(cache: &LruCache<u32>) {
    let forward = cache.keys();
    let mut backward = cache.keys_from_back();
    backward.reverse();
    assert_eq!(forward, backward);
    assert_eq!(forward.len(), cache.len());
    assert_eq!(cache.is_empty(), forward.is_empty());
    for (i, k) in forward.iter().enumerate() {
        assert!(!forward[..i].contains(k));
        assert!(cache.contains_key(k));
        let handle = cache.handle_of(k).unwrap();
        assert_eq!(&cache.entry(handle).unwrap().key, k);
    }
    let mut cursor = cache.front();
    let mut before = None;
    let mut walked = Vec::new();
    while let Some(handle) = cursor {
        let entry = cache.entry(handle).unwrap();
        assert_eq!(entry.prev, before);
        walked.push(entry.key.clone());
        before = Some(handle);
        cursor = entry.next;
        assert!(walked.len() <= forward.len());
    }
    assert_eq!(walked, forward);
    assert_eq!(cache.back(), before);
    match cache.peek_lru() {
        Some(k) => assert_eq!(Some(k), forward.last()),
        None => assert!(forward.is_empty()),
    }
    if forward.is_empty() {
        assert!(cache.front().is_none());
        assert!(cache.back().is_none());
    }
}

#[test]
fn new_cache_is_empty() {
    let cache: LruCache<u32> = LruCache::new();
    assert_eq!(cache.len(), 0);
    assert!(cache.is_empty());
    assert!(cache.peek_lru().is_none());
    assert!(cache.front().is_none());
    assert!(cache.back().is_none());
    assert_eq!(cache.keys(), text(&[]));
    assert_eq!(cache.keys_from_back(), text(&[]));
    holds_invariants(&cache);
}

#[test]
fn insert_puts_each_new_key_at_the_front() {
    let cache = filled(&["a", "b", "c"]);
    assert_eq!(cache.keys(), text(&["c", "b", "a"]));
    assert_eq!(cache.keys_from_back(), text(&["a", "b", "c"]));
    assert_eq!(cache.len(), 3);
    assert!(!cache.is_empty());
    assert_eq!(cache.peek_lru(), Some(&"a".to_string()));
    holds_invariants(&cache);
}

#[test]
fn insert_returns_the_previous_value() {
    let mut cache: LruCache<u32> = LruCache::new();
    assert_eq!(cache.insert("a".to_string(), 1), None);
    assert_eq!(cache.insert("b".to_string(), 2), None);
    assert_eq!(cache.insert("a".to_string(), 3), Some(1));
    assert_eq!(cache.insert("a".to_string(), 4), Some(3));
    assert_eq!(cache.len(), 2);
    holds_invariants(&cache);
}

#[test]
fn get_returns_the_value_and_promotes() {
    let mut cache = filled(&["a", "b", "c"]);
    assert_eq!(cache.get("b".to_string()), Ok(&2));
    assert_eq!(cache.keys(), text(&["b", "c", "a"]));
    holds_invariants(&cache);
}

#[test]
fn get_of_absent_key_is_not_found() {
    let mut cache = filled(&["a", "b"]);
    assert_eq!(cache.get("z".to_string()), Err(CacheError::NotFound));
    assert_eq!(cache.keys(), text(&["b", "a"]));
    let mut empty: LruCache<u32> = LruCache::new();
    assert_eq!(empty.get("a".to_string()), Err(CacheError::NotFound));
}

#[test]
fn every_present_key_can_be_promoted() {
    let names = ["a", "b", "c", "d"];
    for k in names {
        let mut cache = filled(&names);
        assert!(cache.get(k.to_string()).is_ok());
        assert_eq!(cache.keys()[0], k);
        let front = cache.front().unwrap();
        assert_eq!(cache.entry(front).unwrap().key, k);
        assert_eq!(cache.len(), 4);
        holds_invariants(&cache);
    }
    for k in names {
        let mut cache = filled(&names);
        assert!(cache.insert(k.to_string(), 99).is_some());
        assert_eq!(cache.keys()[0], k);
        let front = cache.front().unwrap();
        assert_eq!(cache.entry(front).unwrap().key, k);
        assert_eq!(cache.len(), 4);
        holds_invariants(&cache);
    }
}

#[test]
fn promoting_the_tail_moves_the_back() {
    let mut cache = filled(&["a", "b", "c"]);
    assert_eq!(cache.get("c".to_string()), Ok(&3));
    assert_eq!(cache.keys(), text(&["c", "b", "a"]));
    assert_eq!(cache.peek_lru(), Some(&"a".to_string()));
    assert_eq!(cache.get("a".to_string()), Ok(&1));
    assert_eq!(cache.keys(), text(&["a", "c", "b"]));
    assert_eq!(cache.peek_lru(), Some(&"b".to_string()));
    assert_eq!(cache.keys_from_back(), text(&["b", "c", "a"]));
    let back = cache.back().unwrap();
    assert_eq!(cache.entry(back).unwrap().key, "b");
    assert!(cache.entry(back).unwrap().next.is_none());
    holds_invariants(&cache);
}

#[test]
fn removal_repairs_the_ends() {
    let mut cache = filled(&["a", "b", "c"]);
    assert_eq!(cache.remove("b".to_string()), Ok(2));
    assert_eq!(cache.keys(), text(&["c", "a"]));
    assert_eq!(cache.entry(cache.front().unwrap()).unwrap().key, "c");
    assert_eq!(cache.entry(cache.back().unwrap()).unwrap().key, "a");
    holds_invariants(&cache);

    assert_eq!(cache.remove("c".to_string()), Ok(3));
    assert_eq!(cache.keys(), text(&["a"]));
    assert_eq!(cache.front(), cache.back());
    assert_eq!(cache.entry(cache.front().unwrap()).unwrap().key, "a");
    holds_invariants(&cache);

    assert_eq!(cache.remove("a".to_string()), Ok(1));
    assert!(cache.front().is_none());
    assert!(cache.back().is_none());
    assert_eq!(cache.len(), 0);
    assert!(cache.is_empty());
    holds_invariants(&cache);
}

#[test]
fn removing_the_back_moves_the_back() {
    let mut cache = filled(&["a", "b", "c"]);
    assert_eq!(cache.remove("a".to_string()), Ok(1));
    assert_eq!(cache.keys(), text(&["c", "b"]));
    assert_eq!(cache.peek_lru(), Some(&"b".to_string()));
    holds_invariants(&cache);
}

#[test]
fn removing_an_absent_key_changes_nothing() {
    let mut cache = filled(&["a", "b", "c"]);
    assert_eq!(cache.remove("b".to_string()), Ok(2));
    let keys = cache.keys();
    let reversed = cache.keys_from_back();
    let (front, back, len) = (cache.front(), cache.back(), cache.len());
    let links: Vec<_> = keys
        .iter()
        .map(|k| {
            let e = cache.entry(cache.handle_of(k).unwrap()).unwrap();
            (e.prev, e.next, e.data)
        })
        .collect();

    assert_eq!(cache.remove("b".to_string()), Err(CacheError::NotFound));
    assert_eq!(cache.remove("never".to_string()), Err(CacheError::NotFound));

    assert_eq!(cache.keys(), keys);
    assert_eq!(cache.keys_from_back(), reversed);
    assert_eq!((cache.front(), cache.back(), cache.len()), (front, back, len));
    let after: Vec<_> = keys
        .iter()
        .map(|k| {
            let e = cache.entry(cache.handle_of(k).unwrap()).unwrap();
            (e.prev, e.next, e.data)
        })
        .collect();
    assert_eq!(after, links);
    holds_invariants(&cache);
}

#[test]
fn a_single_entry_never_links_to_itself() {
    let mut cache: LruCache<u32> = LruCache::new();
    cache.insert("x".to_string(), 1);
    for _ in 0..10 {
        assert_eq!(cache.get("x".to_string()), Ok(&1));
        let front = cache.front().unwrap();
        assert_eq!(cache.back(), Some(front));
        let entry = cache.entry(front).unwrap();
        assert_eq!(entry.key, "x");
        assert!(entry.prev.is_none());
        assert!(entry.next.is_none());
        assert_eq!(cache.keys(), text(&["x"]));
        assert_eq!(cache.len(), 1);
    }
    holds_invariants(&cache);
}

#[test]
fn a_second_insert_overwrites_the_value() {
    let mut cache = filled(&["a", "b"]);
    assert_eq!(cache.insert("k".to_string(), 10), None);
    assert_eq!(cache.insert("k".to_string(), 20), Some(10));
    assert_eq!(cache.keys(), text(&["k", "b", "a"]));
    assert_eq!(cache.len(), 3);
    assert_eq!(cache.get("k".to_string()), Ok(&20));
    assert_eq!(cache.entry(cache.front().unwrap()).unwrap().data, 20);
    holds_invariants(&cache);
}

#[test]
fn overwriting_an_old_key_promotes_it() {
    let mut cache = filled(&["a", "b", "c"]);
    assert_eq!(cache.insert("a".to_string(), 9), Some(1));
    assert_eq!(cache.keys(), text(&["a", "c", "b"]));
    assert_eq!(cache.peek_lru(), Some(&"b".to_string()));
    assert_eq!(cache.get("a".to_string()), Ok(&9));
    holds_invariants(&cache);
}

#[test]
fn contains_key_and_peek_do_not_reorder() {
    let cache = filled(&["a", "b", "c"]);
    assert!(cache.contains_key("a"));
    assert!(!cache.contains_key("z"));
    assert_eq!(cache.peek_lru(), Some(&"a".to_string()));
    assert_eq!(cache.keys(), text(&["c", "b", "a"]));
}

#[test]
fn close_gap_then_attach_front_promotes() {
    let mut cache = filled(&["a", "b", "c"]);
    let b = cache.handle_of("b").unwrap();
    assert_eq!(cache.close_gap(b), Ok(()));
    assert_eq!(cache.keys(), text(&["c", "a"]));
    assert_eq!(cache.keys_from_back(), text(&["a", "c"]));
    assert_eq!(cache.entry(b).unwrap().key, "b");
    cache.attach_front(b);
    assert_eq!(cache.keys(), text(&["b", "c", "a"]));
    holds_invariants(&cache);
}

#[test]
fn close_gap_at_either_end_moves_that_end() {
    let mut cache = filled(&["a", "b", "c"]);
    let c = cache.handle_of("c").unwrap();
    let b = cache.handle_of("b").unwrap();
    let a = cache.handle_of("a").unwrap();
    assert_eq!(cache.close_gap(c), Ok(()));
    assert_eq!(cache.front(), Some(b));
    assert!(cache.entry(b).unwrap().prev.is_none());
    cache.attach_front(c);
    assert_eq!(cache.close_gap(a), Ok(()));
    assert_eq!(cache.back(), Some(b));
    assert!(cache.entry(b).unwrap().next.is_none());
    cache.attach_front(a);
    assert_eq!(cache.keys(), text(&["a", "c", "b"]));
    holds_invariants(&cache);
}

#[test]
fn close_gap_of_the_only_entry_empties_the_chain() {
    let mut cache = filled(&["a"]);
    let a = cache.handle_of("a").unwrap();
    assert_eq!(cache.close_gap(a), Ok(()));
    assert!(cache.front().is_none());
    assert!(cache.back().is_none());
    cache.attach_front(a);
    assert_eq!(cache.front(), Some(a));
    assert_eq!(cache.back(), Some(a));
    holds_invariants(&cache);
}

#[test]
fn promote_of_the_front_changes_nothing() {
    let mut cache = filled(&["a", "b", "c"]);
    let c = cache.handle_of("c").unwrap();
    let b = cache.handle_of("b").unwrap();
    assert_eq!(cache.promote(c), Ok(()));
    assert_eq!(cache.keys(), text(&["c", "b", "a"]));
    assert_eq!(cache.entry(c).unwrap().next, Some(b));
    assert!(cache.entry(c).unwrap().prev.is_none());
    assert_eq!(cache.entry(b).unwrap().prev, Some(c));
    holds_invariants(&cache);
}

#[test]
fn promote_of_the_middle_relinks() {
    let mut cache = filled(&["a", "b", "c"]);
    let b = cache.handle_of("b").unwrap();
    assert_eq!(cache.promote(b), Ok(()));
    assert_eq!(cache.keys(), text(&["b", "c", "a"]));
    holds_invariants(&cache);
}

#[test]
fn a_stale_handle_is_invalid() {
    let mut cache = filled(&["a", "b"]);
    let a = cache.handle_of("a").unwrap();
    assert_eq!(cache.remove("a".to_string()), Ok(1));
    assert!(cache.handle_of("a").is_none());
    assert!(matches!(cache.entry(a), Err(CacheError::InvalidHandle)));
    assert_eq!(cache.close_gap(a), Err(CacheError::InvalidHandle));
    assert_eq!(cache.promote(a), Err(CacheError::InvalidHandle));
    assert_eq!(cache.keys(), text(&["b"]));

    cache.insert("z".to_string(), 5);
    let z = cache.handle_of("z").unwrap();
    assert_eq!(z.index, a.index);
    assert_ne!(z, a);
    assert!(matches!(cache.entry(a), Err(CacheError::InvalidHandle)));
    assert_eq!(cache.close_gap(a), Err(CacheError::InvalidHandle));
    assert_eq!(cache.keys(), text(&["z", "b"]));
    holds_invariants(&cache);
}

#[test]
fn eviction_by_peek_and_remove_keeps_the_latest() {
    let mut cache = filled(&["a", "b", "c", "d", "e"]);
    assert_eq!(cache.get("a".to_string()), Ok(&1));
    while cache.len() > 3 {
        let oldest = cache.peek_lru().unwrap().clone();
        assert!(cache.remove(oldest).is_ok());
    }
    assert_eq!(cache.keys(), text(&["a", "e", "d"]));
    holds_invariants(&cache);
}

#[test]
fn invariants_hold_through_a_long_run() {
    let names = ["k0", "k1", "k2", "k3", "k4", "k5", "k6"];
    let mut cache: LruCache<u32> = LruCache::new();
    let mut model: Vec<(String, u32)> = Vec::new();
    let mut seed = 12345u32;
    for step in 0..400u32 {
        seed = seed.wrapping_mul(1103515245).wrapping_add(12345);
        let key = names[((seed >> 16) % 7) as usize].to_string();
        let at = model.iter().position(|(k, _)| *k == key);
        match (seed >> 8) % 3 {
            0 => {
                let previous = cache.insert(key.clone(), step);
                assert_eq!(previous, at.map(|i| model.remove(i).1));
                model.insert(0, (key, step));
            }
            1 => match at {
                Some(i) => {
                    let kept = model.remove(i);
                    assert_eq!(cache.get(key), Ok(&kept.1));
                    model.insert(0, kept);
                }
                None => assert_eq!(cache.get(key), Err(CacheError::NotFound)),
            },
            _ => match at {
                Some(i) => assert_eq!(cache.remove(key), Ok(model.remove(i).1)),
                None => assert_eq!(cache.remove(key), Err(CacheError::NotFound)),
            },
        }
        let expected: Vec<String> = model.iter().map(|(k, _)| k.clone()).collect();
        assert_eq!(cache.keys(), expected);
        holds_invariants(&cache);
    }
}
