use graphs::dsu::DisjointSet;

#[test]
fn test_basic() {
    let mut ds = DisjointSet::new(5);
    assert_ne!(ds.find(0), ds.find(1));
    assert!(ds.union(0, 1));
    assert_eq!(ds.find(0), ds.find(1));
    assert!(!ds.union(0, 1));
}

#[test]
fn test_transitive() {
    let mut ds = DisjointSet::new(5);
    ds.union(0, 1);
    ds.union(1, 2);
    let root = ds.find(0);
    assert_eq!(ds.find(1), root);
    assert_eq!(ds.find(2), root);
    assert_ne!(ds.find(3), root);
}

#[test]
fn test_multiple() {
    let mut ds = DisjointSet::new(6);
    ds.union(0, 1);
    ds.union(1, 2);
    ds.union(3, 4);
    assert_eq!(ds.find(0), ds.find(2));
    assert_eq!(ds.find(3), ds.find(4));
    assert_ne!(ds.find(0), ds.find(3));
}

#[test]
fn test_union_by_size_absorbs_smaller() {
    let mut ds = DisjointSet::new(5);
    ds.union(0, 1);
    ds.union(0, 2);
    // the larger set's root absorbs the singleton
    let big_root = ds.find(0);
    assert!(ds.union(3, big_root));
    assert_eq!(ds.find(3), big_root);
}

#[test]
fn test_singletons_are_distinct() {
    let mut ds = DisjointSet::new(4);
    for a in 0..4usize {
        for b in 0..4usize {
            if a != b {
                assert_ne!(ds.find(a), ds.find(b));
            }
        }
    }
}

#[test]
fn test_find_is_idempotent() {
    // the representative represents itself
    let mut ds = DisjointSet::new(5);
    ds.union(0, 1);
    ds.union(1, 2);
    for v in 0..5usize {
        let r = ds.find(v);
        assert_eq!(ds.find(r), r);
    }
}
