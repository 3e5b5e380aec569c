use dge::memo::Lru;

#[test]
fn pop_returns_least_recently_touched() {
    let mut l = Lru::new();
    l.touch(&1);
    l.touch(&2);
    l.touch(&3);
    l.touch(&1);
    assert_eq!(l.pop_lru(), Some(2));
    assert_eq!(l.pop_lru(), Some(3));
    assert_eq!(l.pop_lru(), Some(1));
    assert_eq!(l.pop_lru(), None);
}

#[test]
fn empty_cache_pops_nothing() {
    let mut l = Lru::default();
    assert_eq!(l.pop_lru(), None);
}

#[test]
fn retouching_skips_stale_entries() {
    let mut l = Lru::new();
    for k in 0..5u64 {
        l.touch(&k);
    }
    for k in 0..4u64 {
        l.touch(&k);
    }
    assert_eq!(l.pop_lru(), Some(4));
    assert_eq!(l.pop_lru(), Some(0));
    l.touch(&9);
    assert_eq!(l.pop_lru(), Some(1));
    assert_eq!(l.pop_lru(), Some(2));
    assert_eq!(l.pop_lru(), Some(3));
    assert_eq!(l.pop_lru(), Some(9));
    assert_eq!(l.pop_lru(), None);
}

#[test]
fn popped_key_can_come_back() {
    let mut l = Lru::new();
    l.touch(&7);
    assert_eq!(l.pop_lru(), Some(7));
    l.touch(&7);
    assert_eq!(l.pop_lru(), Some(7));
    assert_eq!(l.pop_lru(), None);
}
