use unique::backing::HashBacking;
use unique::Id;

#[test]
fn backing_starts_empty() {
    let store: HashBacking<u32> = HashBacking::new(16);
    assert_eq!(store.num_entries(), 0);
}

#[test]
fn backing_unique_canonicalizes() {
    let mut store: HashBacking<u32> = HashBacking::new(0);
    let a = store.unique(7);
    let b = store.unique(7);
    let c = store.unique(8);
    assert_eq!(Id::id(&a), Id::id(&b));
    assert_ne!(Id::id(&a), Id::id(&c));
    assert_eq!(store.num_entries(), 2);
}

#[test]
fn backing_never_reclaims() {
    let mut store: HashBacking<u32> = HashBacking::new(0);
    let first = store.unique(1);
    for v in [2u32, 3, 1, 2, 3, 1] {
        store.unique(v);
    }
    assert_eq!(store.num_entries(), 3);
    // Identities are indices in insertion order and stay stable forever.
    assert_eq!(Id::id(&first), 0);
    assert_eq!(Id::id(&store.unique(3)), 2);
}
