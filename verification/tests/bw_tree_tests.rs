use bw_tree::bw_tree::BwTree;

#[test]
fn test_insert_get() {
    let bw_tree = BwTree::new().unwrap();

    bw_tree.insert(1, 2).unwrap();
    bw_tree.insert(2, 4).unwrap();

    assert_eq!(bw_tree.get(&1), Some(2));
    assert_eq!(bw_tree.get(&2), Some(4));
    assert_eq!(bw_tree.get(&3), None);

    bw_tree.insert(3, 6).unwrap();
    assert_eq!(bw_tree.get(&1), Some(2));
    assert_eq!(bw_tree.get(&2), Some(4));
    assert_eq!(bw_tree.get(&3), Some(6));
}

#[test]
fn test_insert_consolidation() {
    let bw_tree = BwTree::new().unwrap();

    bw_tree.insert(1, 2).unwrap();
    bw_tree.insert(2, 4).unwrap();

    assert_eq!(bw_tree.get(&1), Some(2));
    assert_eq!(bw_tree.get(&2), Some(4));
    assert_eq!(bw_tree.get(&3), None);

    bw_tree.insert(3, 6).unwrap();
    assert_eq!(bw_tree.get(&1), Some(2));
    assert_eq!(bw_tree.get(&2), Some(4));
    assert_eq!(bw_tree.get(&3), Some(6));

    bw_tree.consolidation(0);
    assert_eq!(bw_tree.get(&1), Some(2));
    assert_eq!(bw_tree.get(&2), Some(4));
    assert_eq!(bw_tree.get(&3), Some(6));
    assert_eq!(bw_tree.get(&4), None);
}

#[test]
fn test_delete() {
    let bw_tree = BwTree::new().unwrap();

    bw_tree.insert(1, 2).unwrap();
    bw_tree.insert(2, 4).unwrap();

    assert_eq!(bw_tree.get(&1), Some(2));
    assert_eq!(bw_tree.get(&2), Some(4));

    bw_tree.delete(2).unwrap();
    assert_eq!(bw_tree.get(&1), Some(2));
    assert_eq!(bw_tree.get(&2), None);

    bw_tree.insert(2, 6).unwrap();
    assert_eq!(bw_tree.get(&1), Some(2));
    assert_eq!(bw_tree.get(&2), Some(6));

    bw_tree.delete(1).unwrap();
    assert_eq!(bw_tree.get(&1), None);
    assert_eq!(bw_tree.get(&2), Some(6));
}

#[test]
fn test_delete_consolidation() {
    let bw_tree = BwTree::new().unwrap();

    bw_tree.insert(1, 2).unwrap();
    bw_tree.insert(2, 4).unwrap();

    assert_eq!(bw_tree.get(&1), Some(2));
    assert_eq!(bw_tree.get(&2), Some(4));

    bw_tree.delete(2).unwrap();
    assert_eq!(bw_tree.get(&1), Some(2));
    assert_eq!(bw_tree.get(&2), None);

    bw_tree.insert(2, 6).unwrap();
    assert_eq!(bw_tree.get(&1), Some(2));
    assert_eq!(bw_tree.get(&2), Some(6));

    bw_tree.delete(1).unwrap();
    assert_eq!(bw_tree.get(&1), None);
    assert_eq!(bw_tree.get(&2), Some(6));

    bw_tree.consolidation(0);
    assert_eq!(bw_tree.get(&1), None);
    assert_eq!(bw_tree.get(&2), Some(6));
}

#[test]
fn test_last_write_wins() {
    let bw_tree = BwTree::new().unwrap();
    bw_tree.insert(1, 2).unwrap();
    bw_tree.insert(1, 7).unwrap();
    assert_eq!(bw_tree.get(&1), Some(7));
    bw_tree.consolidation(0);
    assert_eq!(bw_tree.get(&1), Some(7));
}

#[test]
fn test_update_resolves_like_insert() {
    let bw_tree = BwTree::new().unwrap();
    bw_tree.insert(5, 1).unwrap();
    bw_tree.update(5, 9).unwrap();
    assert_eq!(bw_tree.get(&5), Some(9));
    bw_tree.consolidation(0);
    assert_eq!(bw_tree.get(&5), Some(9));
}

#[test]
fn test_many_disjoint_inserts_all_visible() {
    // two disjoint key ranges written through the same prepend path, as
    // concurrent writers would; no update may be lost
    let bw_tree = BwTree::new().unwrap();
    for k in 0..100 {
        bw_tree.insert(k, 2 * k).unwrap();
    }
    for k in 100..200 {
        bw_tree.insert(k, 2 * k).unwrap();
    }
    for k in 0..200 {
        assert_eq!(bw_tree.get(&k), Some(2 * k));
    }
    bw_tree.consolidation(0);
    for k in 0..200 {
        assert_eq!(bw_tree.get(&k), Some(2 * k));
    }
    assert_eq!(bw_tree.get(&200), None);
}

#[test]
fn test_consolidation_idempotent() {
    let bw_tree = BwTree::new().unwrap();
    bw_tree.insert(1, 2).unwrap();
    bw_tree.delete(1).unwrap();
    bw_tree.consolidation(0);
    bw_tree.consolidation(0);
    assert_eq!(bw_tree.get(&1), None);
    bw_tree.insert(1, 3).unwrap();
    assert_eq!(bw_tree.get(&1), Some(3));
}
