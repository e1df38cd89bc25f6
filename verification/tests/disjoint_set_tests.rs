use maze_gen::disjoint_set::DisjointSet;

#[test]
fn new_starts_as_singleton_roots() {
    let ds = DisjointSet::new(4);
    for i in 0..4 {
        assert_eq!(ds.get_parent(i), None);
        assert_eq!(ds.find(i), i as isize);
    }
    assert_eq!(ds.debug(), vec![-1, -1, -1, -1]);
}

#[test]
fn union_links_and_find_chases() {
    let mut ds = DisjointSet::new(4);
    ds.union(0, 1);
    assert_eq!(ds.get_parent(1), Some(0));
    assert_eq!(ds.get_parent(0), None);
    assert_eq!(ds.find(1), 0);
    ds.union(1, 2);
    // 2 now hangs under 1, whose root is 0
    assert_eq!(ds.get_parent(2), Some(1));
    assert_eq!(ds.find(2), 0);
    assert_eq!(ds.debug(), vec![-1, 0, 1, -1]);
}

#[test]
fn next_root_idx_returns_second_root() {
    let ds = DisjointSet::new(3);
    assert_eq!(ds.next_root_idx(), Some(1));
    let mut ds = DisjointSet::new(3);
    ds.union(0, 1);
    assert_eq!(ds.next_root_idx(), Some(2));
    ds.union(0, 2);
    assert_eq!(ds.next_root_idx(), None);
}

#[test]
fn is_single_set_means_one_root() {
    let mut ds = DisjointSet::new(3);
    assert!(!ds.is_single_set());
    ds.union(0, 1);
    assert!(!ds.is_single_set());
    ds.union(0, 2);
    assert!(ds.is_single_set());
    let one = DisjointSet::new(1);
    assert!(one.is_single_set());
}
