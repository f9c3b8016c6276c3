use lru_core::error::CacheError;
use lru_core::store::{Handle, NodeStore};

#[test]
fn allocate_gives_a_live_entry_without_links() {
    let mut store: NodeStore<u32> = NodeStore::new();
    let h = store.allocate("k".to_string(), 7);
    assert!(store.is_live(h));
    let entry = store.resolve(h).unwrap();
    assert_eq!(entry.key, "k");
    assert_eq!(entry.data, 7);
    assert!(entry.next.is_none());
    assert!(entry.prev.is_none());
}

#[test]
fn first_handles_count_up_from_slot_zero() {
    let mut store: NodeStore<u32> = NodeStore::new();
    let a = store.allocate("a".to_string(), 1);
    let b = store.allocate("b".to_string(), 2);
    assert_eq!(a, Handle { index: 0, generation: 0 });
    assert_eq!(b, Handle { index: 1, generation: 0 });
}

#[test]
fn resolve_of_a_handle_never_issued_is_invalid() {
    let store: NodeStore<u32> = NodeStore::new();
    let h = Handle { index: 0, generation: 0 };
    assert!(!store.is_live(h));
    assert!(matches!(store.resolve(h), Err(CacheError::InvalidHandle)));
}

#[test]
fn resolve_mut_of_a_handle_never_issued_is_invalid() {
    let mut store: NodeStore<u32> = NodeStore::new();
    let h = Handle { index: 3, generation: 0 };
    assert!(matches!(store.resolve_mut(h), Err(CacheError::InvalidHandle)));
}

#[test]
fn resolve_mut_writes_through() {
    let mut store: NodeStore<u32> = NodeStore::new();
    let a = store.allocate("a".to_string(), 1);
    let b = store.allocate("b".to_string(), 2);
    {
        let entry = store.resolve_mut(a).unwrap();
        entry.data = 10;
        entry.next = Some(b);
    }
    let entry = store.resolve(a).unwrap();
    assert_eq!(entry.data, 10);
    assert_eq!(entry.next, Some(b));
    assert_eq!(entry.key, "a");
    let other = store.resolve(b).unwrap();
    assert_eq!(other.data, 2);
    assert!(other.next.is_none());
}

#[test]
fn free_hands_the_entry_back_and_kills_the_handle() {
    let mut store: NodeStore<u32> = NodeStore::new();
    let h = store.allocate("k".to_string(), 7);
    let entry = store.free(h).unwrap();
    assert_eq!(entry.key, "k");
    assert_eq!(entry.data, 7);
    assert!(!store.is_live(h));
    assert!(matches!(store.resolve(h), Err(CacheError::InvalidHandle)));
}

#[test]
fn double_free_is_invalid() {
    let mut store: NodeStore<u32> = NodeStore::new();
    let h = store.allocate("k".to_string(), 7);
    assert!(store.free(h).is_ok());
    assert!(matches!(store.free(h), Err(CacheError::InvalidHandle)));
}

#[test]
fn a_reused_slot_gets_a_new_generation() {
    let mut store: NodeStore<u32> = NodeStore::new();
    let first = store.allocate("a".to_string(), 1);
    store.free(first).unwrap();
    let second = store.allocate("b".to_string(), 2);
    assert_eq!(second, Handle { index: 0, generation: 1 });
    assert_ne!(first, second);
    assert!(!store.is_live(first));
    assert!(matches!(store.resolve(first), Err(CacheError::InvalidHandle)));
    assert!(matches!(store.free(first), Err(CacheError::InvalidHandle)));
    assert_eq!(store.resolve(second).unwrap().key, "b");
}

#[test]
fn freeing_one_entry_leaves_the_others() {
    let mut store: NodeStore<u32> = NodeStore::new();
    let a = store.allocate("a".to_string(), 1);
    let b = store.allocate("b".to_string(), 2);
    let c = store.allocate("c".to_string(), 3);
    store.free(b).unwrap();
    assert_eq!(store.resolve(a).unwrap().data, 1);
    assert_eq!(store.resolve(c).unwrap().data, 3);
    let d = store.allocate("d".to_string(), 4);
    assert_eq!(d.index, b.index);
    assert_eq!(store.resolve(a).unwrap().data, 1);
    assert_eq!(store.resolve(c).unwrap().data, 3);
    assert_eq!(store.resolve(d).unwrap().data, 4);
}

#[test]
fn a_handle_of_a_later_generation_is_invalid() {
    let mut store: NodeStore<u32> = NodeStore::new();
    let h = store.allocate("a".to_string(), 1);
    let later = Handle { index: h.index, generation: h.generation + 1 };
    assert!(matches!(store.resolve(later), Err(CacheError::InvalidHandle)));
    assert!(matches!(store.free(later), Err(CacheError::InvalidHandle)));
    assert!(store.is_live(h));
}

#[test]
fn error_messages() {
    assert_eq!(CacheError::NotFound.message(), "Not found");
    assert_eq!(CacheError::InvalidHandle.message(), "Invalid handle");
}
