use rooted_tree::Heap;

fn make_test_heap() -> Heap<&'static str> {
    let mut heap = Heap::new("root");
    heap.insert("first child", 0);
    heap.insert("second child", 0);
    heap.insert("third child", 0);
    heap.insert("first grandchild", 1);
    heap.insert("second grandchild", 1);
    heap.insert("third grandchild", 2);
    heap.insert("fourth grandchild", 2);
    heap.insert("great grandchild", 4);
    heap
}

#[test]
fn insert_test() {
    make_test_heap();
}

#[test]
fn remove_test() {
    let mut heap = make_test_heap();
    heap.remove(1);
    assert_eq!(heap.len(), 5)
}

#[test]
fn get_children_test() {
    let mut children = Vec::new();
    let mut heap = Heap::new("root");
    children.push(heap.insert("first child", 0));
    children.push(heap.insert("second child", 0));
    children.push(heap.insert("third child", 0));
    heap.insert("first grandchild", 1);
    heap.insert("second grandchild", 1);
    heap.insert("third grandchild", 2);
    heap.insert("fourth grandchild", 2);
    heap.insert("great grandchild", 4);
    assert_eq!(heap.direct_children_of(0), children);
}

#[test]
fn get_descendants_test() {
    let mut children = Vec::new();
    let mut heap = Heap::new("root");
    heap.insert("first child", 0);
    heap.insert("second child", 0);
    heap.insert("third child", 0);
    children.push(heap.insert("first grandchild", 1));
    children.push(heap.insert("second grandchild", 1));
    heap.insert("third grandchild", 2);
    heap.insert("fourth grandchild", 2);
    children.push(heap.insert("great grandchild", 4));
    assert_eq!(heap.descendants_of(1), children);
}

// A full scan over the slot range agrees with len(), which is never below 1.
#[test]
fn len_counts_full_scan() {
    let fresh: Heap<u32> = Heap::new(7);
    assert_eq!(fresh.len(), 1);

    let mut heap = make_test_heap();
    heap.remove(2);
    let mut scanned = 0;
    for i in 0..32 {
        if heap.is_valid_idx(i) {
            scanned += 1;
        }
    }
    assert_eq!(heap.len(), scanned);
    assert!(heap.len() >= 1);
}

// Index 0 stays valid through any removals and never shows up in query results.
#[test]
fn root_always_valid_never_reported() {
    let mut heap = make_test_heap();
    assert!(heap.is_valid_idx(0));
    for i in 0..12 {
        assert!(!heap.descendants_of(i).contains(&0));
        assert!(!heap.direct_children_of(i).contains(&0));
    }
    heap.remove(1);
    heap.remove(2);
    assert!(heap.is_valid_idx(0));
    for i in 0..12 {
        assert!(!heap.descendants_of(i).contains(&0));
        assert!(!heap.direct_children_of(i).contains(&0));
    }
}

// The ordering invariant seen from outside: every live non-root node's
// parent link points strictly below it.
#[test]
fn parent_index_below_child_index() {
    let heap = make_test_heap();
    for i in 1..9 {
        assert!(heap.is_valid_idx(i));
        let parent = heap.get(i).parent.unwrap();
        assert!(parent < i);
    }
}

// insert returns an index above the parent, and two insertions under the
// same parent return different indices.
#[test]
fn insert_returns_fresh_index_above_parent() {
    let mut heap = Heap::new(0u64);
    let a = heap.insert(1, 0);
    let b = heap.insert(2, 0);
    assert!(a > 0);
    assert!(b > 0);
    assert_ne!(a, b);
    let c = heap.insert(3, a);
    let d = heap.insert(4, a);
    assert!(c > a);
    assert!(d > a);
    assert_ne!(c, d);
}

// After remove(i): i and every pre-removal descendant are invalid, and the
// length drops by exactly 1 + the number of descendants.
#[test]
fn remove_invalidates_subtree_and_counts() {
    let mut heap = make_test_heap();
    let before = heap.len();
    let doomed = heap.descendants_of(1);
    heap.remove(1);
    assert!(!heap.is_valid_idx(1));
    for &d in &doomed {
        assert!(!heap.is_valid_idx(d));
    }
    assert_eq!(heap.len(), before - 1 - doomed.len());
}

// Direct children are always a subset of descendants.
#[test]
fn children_subset_of_descendants() {
    let heap = make_test_heap();
    for i in 0..12 {
        let descendants = heap.descendants_of(i);
        for c in heap.direct_children_of(i) {
            assert!(descendants.contains(&c));
        }
    }
}

// Queries have no side effects: calling twice with no mutation in between
// yields identical results, and the tree is unchanged.
#[test]
fn queries_are_idempotent() {
    let heap = make_test_heap();
    let len_before = heap.len();
    assert_eq!(heap.descendants_of(1), heap.descendants_of(1));
    assert_eq!(heap.direct_children_of(2), heap.direct_children_of(2));
    assert_eq!(heap.len(), len_before);
}

// Root + 3 children (1,2,3) + 2 grandchildren under 1 (4,5) + 2 under 2
// (6,7) + 1 great-grandchild under 4 (8).  remove(1) takes out {1,4,5,8};
// a later insertion under the root may reuse one of those indices.
#[test]
fn nine_node_scenario() {
    let mut heap = make_test_heap();
    assert_eq!(heap.len(), 9);
    let mut removed = heap.descendants_of(1);
    removed.push(1);
    removed.sort();
    assert_eq!(removed, vec![1, 4, 5, 8]);
    heap.remove(1);
    assert_eq!(heap.len(), 5);
    assert!(!heap.is_valid_idx(1));
    let reused = heap.insert("replacement", 0);
    assert!(removed.contains(&reused));
}

// Insertion picks the smallest free index strictly greater than the parent.
#[test]
fn insert_reuses_smallest_free_above_parent() {
    let mut heap = make_test_heap();
    heap.remove(1);
    // free indices now: 1, 4, 5, 8 and the trailing 9
    assert_eq!(heap.insert("a", 0), 1);
    assert_eq!(heap.insert("b", 2), 4);
    assert_eq!(heap.insert("c", 7), 8);
    assert_eq!(heap.insert("d", 7), 9);
}

// Iteration yields the values of the live nodes in ascending index order,
// skipping tombstones.
#[test]
fn iter_skips_tombstones_in_order() {
    let mut heap = make_test_heap();
    heap.remove(2);
    let values: Vec<&&str> = heap.iter();
    let expected = vec![
        "root",
        "first child",
        "third child",
        "first grandchild",
        "second grandchild",
        "great grandchild",
    ];
    assert_eq!(values.len(), expected.len());
    for (got, want) in values.iter().zip(expected.iter()) {
        assert_eq!(**got, *want);
    }
}

// The capacity constructor changes nothing logical.
#[test]
fn with_capacity_matches_new() {
    let mut a = Heap::with_capacity(64, "root");
    let mut b = Heap::new("root");
    assert!(a.capacity() >= 64);
    assert_eq!(a.len(), b.len());
    assert_eq!(a.insert("x", 0), b.insert("x", 0));
    assert_eq!(a.len(), b.len());
}

// Capacity passthroughs touch storage only, never the contents.
#[test]
fn capacity_calls_keep_contents() {
    let mut heap = make_test_heap();
    assert!(heap.try_reserve(100).is_ok());
    assert!(heap.try_reserve_exact(100).is_ok());
    assert!(heap.capacity() >= 9);
    heap.shrink_to(4);
    heap.shrink_to_fit();
    assert_eq!(heap.len(), 9);
    assert_eq!(heap.descendants_of(0).len(), 8);
    assert_eq!(heap.get(3).value, "third child");
    assert_eq!(heap.get(3).parent, Some(0));
}

// Direct slot access: values can be rewritten in place without touching the
// shape, and a removed slot keeps its value, inert, until reuse.
#[test]
fn slot_access_and_tombstone_value() {
    let mut heap = make_test_heap();
    heap.set_value(4, "renamed grandchild");
    assert_eq!(heap.get(4).value, "renamed grandchild");
    assert_eq!(heap.get(4).parent, Some(1));
    assert_eq!(heap.len(), 9);

    heap.remove(4);
    assert!(!heap.is_valid_idx(4));
    assert_eq!(heap.get(4).value, "renamed grandchild");
    assert_eq!(heap.get(4).parent, None);
}

// Clones are independent trees with the same contents.
#[test]
fn clone_is_independent() {
    let first = make_test_heap();
    let mut copy = first.clone();
    copy.remove(1);
    assert_eq!(first.len(), 9);
    assert_eq!(copy.len(), 5);
    assert!(first.is_valid_idx(1));
    assert!(!copy.is_valid_idx(1));
    let shown = format!("{:?}", first.get(0));
    assert!(shown.contains("root"));
}

// An invalid target index yields empty query results, not an error.
#[test]
fn queries_on_invalid_index_are_empty() {
    let mut heap = make_test_heap();
    assert!(heap.descendants_of(100).is_empty());
    assert!(heap.direct_children_of(100).is_empty());
    heap.remove(3);
    assert!(heap.descendants_of(3).is_empty());
    assert!(heap.direct_children_of(3).is_empty());
}
