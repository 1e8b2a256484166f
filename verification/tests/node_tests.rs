use std::sync::Arc;

use bw_tree::bw_tree::{consolidate_snapshot, search_snapshot, HasMinimum, TreeSearch};
use bw_tree::errors::error::MappingTableError;
use bw_tree::lockfree_list::{ChainCell, LockFreeList};
use bw_tree::mapping_table::{MappingTable, MAPPING_TABLE_SIZE};
use bw_tree::nodes::delta_node::{
    DeleteDelta, DeltaGetResult, DeltaNode, InsertDelta, UpdateDelta,
};
use bw_tree::nodes::inner_node::InnerNode;
use bw_tree::nodes::leaf_node::{LeafNode, LeafNodeBuilder};
use bw_tree::nodes::Node;

fn leaf(pairs: &[(i64, i64)]) -> LeafNode {
    let mut builder = LeafNodeBuilder::new();
    for (k, v) in pairs {
        builder.add(*k, *v);
    }
    builder.build()
}

fn chain(nodes: Vec<Node>) -> Option<Arc<ChainCell>> {
    let mut head: Option<Arc<ChainCell>> = None;
    for node in nodes.into_iter().rev() {
        head = Some(Arc::new(ChainCell { node, next: head }));
    }
    head
}

#[test]
fn test_delta_get_variants() {
    let insert = DeltaNode::Insert(InsertDelta::new(1, 10));
    assert_eq!(insert.get(&1), DeltaGetResult::Found(10));
    assert_eq!(insert.get(&2), DeltaGetResult::KeyNotFound);

    let update = DeltaNode::Update(UpdateDelta::new(1, 11));
    assert_eq!(update.get(&1), DeltaGetResult::Found(11));
    assert_eq!(update.get(&2), DeltaGetResult::KeyNotFound);

    let delete = DeltaNode::Delete(DeleteDelta::new(1));
    assert_eq!(delete.get(&1), DeltaGetResult::NoneValue);
    assert_eq!(delete.get(&2), DeltaGetResult::KeyNotFound);
}

#[test]
fn test_leaf_get_binary_search() {
    let l = leaf(&[(1, 10), (3, 30), (5, 50), (7, 70)]);
    assert_eq!(l.get(&1), Some(10));
    assert_eq!(l.get(&3), Some(30));
    assert_eq!(l.get(&5), Some(50));
    assert_eq!(l.get(&7), Some(70));
    assert_eq!(l.get(&0), None);
    assert_eq!(l.get(&4), None);
    assert_eq!(l.get(&8), None);

    let empty = LeafNode::new();
    assert_eq!(empty.get(&1), None);
}

#[test]
fn test_builder_sorts_by_key() {
    let l = leaf(&[(5, 50), (1, 10), (3, 30)]);
    assert_eq!(l.keys, vec![1, 3, 5]);
    assert_eq!(l.values, vec![10, 30, 50]);
}

#[test]
fn test_builder_newest_wins_and_tombstones() {
    // chain order, newest first: insert(2,9), delete(1), insert(1,5) and a
    // base leaf [(1,10),(3,30)]
    let mut builder = LeafNodeBuilder::new();
    builder.add_insert_delta(&InsertDelta::new(2, 9));
    builder.add_delete_delta(&DeleteDelta::new(1));
    builder.add_insert_delta(&InsertDelta::new(1, 5));
    builder.add_node(&leaf(&[(1, 10), (3, 30)]));
    let l = builder.build();
    assert_eq!(l.keys, vec![2, 3]);
    assert_eq!(l.values, vec![9, 30]);
}

#[test]
fn test_inner_routing_rule() {
    let inner = InnerNode { keys: vec![10, 20], children: vec![100, 200, 300] };
    // the selected child is the first whose separator exceeds the key
    assert_eq!(inner.get(&5), 100);
    assert_eq!(inner.get(&10), 200);
    assert_eq!(inner.get(&15), 200);
    assert_eq!(inner.get(&20), 300);
    assert_eq!(inner.get(&99), 300);
}

#[test]
fn test_search_snapshot_verdicts() {
    let head = chain(vec![
        Node::Delta(DeltaNode::Delete(DeleteDelta::new(2))),
        Node::Delta(DeltaNode::Insert(InsertDelta::new(2, 4))),
        Node::Leaf(leaf(&[(1, 10)])),
    ]);
    assert_eq!(search_snapshot(&head, &2), Some(TreeSearch::NoneVal));
    assert_eq!(search_snapshot(&head, &1), Some(TreeSearch::Val(10)));
    assert_eq!(search_snapshot(&head, &9), Some(TreeSearch::NoneVal));

    // a chain with no base never resolves
    let no_base = chain(vec![Node::Delta(DeltaNode::Insert(InsertDelta::new(2, 4)))]);
    assert_eq!(search_snapshot(&no_base, &1), None);
    assert_eq!(search_snapshot(&None, &1), None);

    // an inner base routes
    let routed = chain(vec![
        Node::Delta(DeltaNode::Insert(InsertDelta::new(2, 4))),
        Node::Inner(InnerNode { keys: vec![10], children: vec![7, 8] }),
    ]);
    assert_eq!(search_snapshot(&routed, &2), Some(TreeSearch::Val(4)));
    assert_eq!(search_snapshot(&routed, &11), Some(TreeSearch::NextNode(8)));
}

#[test]
fn test_consolidate_snapshot_folds() {
    let head = chain(vec![
        Node::Delta(DeltaNode::Insert(InsertDelta::new(2, 9))),
        Node::Delta(DeltaNode::Delete(DeleteDelta::new(1))),
        Node::Delta(DeltaNode::Insert(InsertDelta::new(1, 5))),
        Node::Leaf(leaf(&[(1, 10), (3, 30)])),
    ]);
    let folded = consolidate_snapshot(&head).unwrap();
    assert_eq!(folded.keys, vec![2, 3]);
    assert_eq!(folded.values, vec![9, 30]);
}

#[test]
fn test_consolidate_snapshot_refuses_unfoldable() {
    // no base leaf at the tail
    let no_base = chain(vec![Node::Delta(DeltaNode::Insert(InsertDelta::new(1, 1)))]);
    assert!(consolidate_snapshot(&no_base).is_none());
    assert!(consolidate_snapshot(&None).is_none());

    // an inner base is not foldable
    let inner = chain(vec![Node::Inner(InnerNode { keys: vec![], children: vec![0] })]);
    assert!(consolidate_snapshot(&inner).is_none());

    // a leaf that is not at the tail is not foldable
    let mid_leaf = chain(vec![
        Node::Leaf(LeafNode::new()),
        Node::Leaf(LeafNode::new()),
    ]);
    assert!(consolidate_snapshot(&mid_leaf).is_none());
}

#[test]
fn test_malformed_leaf_gives_no_verdict() {
    // a base leaf with unsorted keys is an internal-invariant violation:
    // the walk yields no verdict and consolidation refuses the chain
    let broken = chain(vec![Node::Leaf(LeafNode { keys: vec![2, 1], values: vec![20, 10] })]);
    assert_eq!(search_snapshot(&broken, &1), None);
    assert!(consolidate_snapshot(&broken).is_none());
}

#[test]
fn test_push_front_visible_in_snapshot() {
    let list = LockFreeList::new();
    list.push_front(Node::Leaf(LeafNode::new()));
    list.push_front(Node::Delta(DeltaNode::Insert(InsertDelta::new(4, 44))));
    assert_eq!(list.get(&4), Some(TreeSearch::Val(44)));
    assert_eq!(list.get(&5), Some(TreeSearch::NoneVal));
}

#[test]
fn test_iter_walks_newest_to_oldest() {
    let list = LockFreeList::new();
    list.push_front(Node::Leaf(leaf(&[(1, 10)])));
    list.push_front(Node::Delta(DeltaNode::Insert(InsertDelta::new(2, 4))));
    list.push_front(Node::Delta(DeltaNode::Delete(DeleteDelta::new(2))));

    let mut iter = list.iter();
    match iter.next().unwrap().node {
        Node::Delta(DeltaNode::Delete(ref d)) => assert_eq!(d.key, 2),
        _ => panic!("expected the newest record first"),
    }
    match iter.next().unwrap().node {
        Node::Delta(DeltaNode::Insert(ref d)) => {
            assert_eq!(d.key, 2);
            assert_eq!(d.value, 4);
        },
        _ => panic!("expected the insert record second"),
    }
    match iter.next().unwrap().node {
        Node::Leaf(ref l) => assert_eq!(l.get(&1), Some(10)),
        _ => panic!("expected the base leaf last"),
    }
    assert!(iter.next().is_none());
}

#[test]
fn test_mapping_table_allocates_in_order() {
    let mut table = MappingTable::new();
    assert_eq!(table.new_page(), Ok(0));
    assert_eq!(table.new_page(), Ok(1));
    assert_eq!(table.new_page(), Ok(2));
}

#[test]
fn test_mapping_table_capacity_exhaustion() {
    let mut table = MappingTable::new();
    for i in 0..MAPPING_TABLE_SIZE {
        assert_eq!(table.new_page(), Ok(i));
    }
    assert_eq!(
        table.new_page(),
        Err(MappingTableError::NewPageError(MAPPING_TABLE_SIZE))
    );
}

#[test]
fn test_minimum_sentinel() {
    let m: i64 = HasMinimum::minimum();
    assert_eq!(m, i64::MIN);
}
