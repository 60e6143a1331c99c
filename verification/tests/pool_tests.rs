//! Exercises the bounded page pool directly.

use os_sim::page_set::PageSet;

#[test]
fn pool_membership_and_size() {
    let mut pool = PageSet::new();
    assert_eq!(pool.len(), 0);
    assert!(!pool.contains(3));
    pool.insert(3);
    pool.insert(7);
    assert!(pool.contains(3));
    assert!(pool.contains(7));
    assert!(!pool.contains(5));
    assert_eq!(pool.len(), 2);
    assert!(pool.remove(3));
    assert!(!pool.remove(3));
    assert_eq!(pool.len(), 1);
    assert!(pool.contains(7));
}
