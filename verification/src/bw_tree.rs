//! The Bw-Tree engine: point operations resolved by walking a page's chain
//! newest-first, descending through inner nodes, and a consolidation pass
//! folding a chain into one dense leaf installed by compare-and-swap.

use vstd::prelude::*;

use std::sync::Arc;

use crate::errors::error::MappingTableError;
use crate::lockfree_list::{cell_seq, chain_seq, lemma_cell_seq_unfold, ChainCell, LockFreeList};
use crate::mapping_table::{MappingTable, MAPPING_TABLE_SIZE};
use crate::nodes::delta_node::{DeleteDelta, DeltaGetResult, DeltaNode, InsertDelta, UpdateDelta};
use crate::nodes::inner_node::InnerNode;
use crate::nodes::leaf_node::{
    lemma_seq_assoc_append, lemma_seq_assoc_exists, lemma_seq_assoc_singleton, seq_assoc, LeafNode,
    LeafNodeBuilder,
};
use crate::nodes::{
    distinct, lemma_push_contains, lemma_strictly_sorted_distinct, strictly_sorted, Node,
};

verus! {

/// Key types supply a designated smallest value, bounding the leftmost
/// routing range of inner nodes.
pub trait HasMinimum: Sized {
    fn minimum() -> Self;
}

impl HasMinimum for i64 {
    fn minimum() -> (r: i64)
        ensures
            r == i64::MIN,
    {
        i64::MIN
    }
}

/// What one page's chain resolves a key to: a value, a confirmed absence,
/// or the child page to descend to.
#[derive(Clone, Copy, Debug, PartialEq, Eq, Structural)]
pub enum TreeSearch {
    NextNode(usize),
    Val(i64),
    NoneVal,
}

/// The verdict of walking `nodes` newest-first for `key`: the first delta
/// for `key` decides; a base leaf resolves every remaining key; a base
/// inner node routes. `None` means the walk found no verdict (a chain
/// without a base, or a malformed base): an internal-invariant violation.
pub open spec fn lookup_nodes(nodes: Seq<Node>, key: i64) -> Option<TreeSearch>
    decreases nodes.len(),
{
    if nodes.len() == 0 {
        None
    } else {
        match nodes[0] {
            Node::Delta(d) => match d.spec_get(key) {
                DeltaGetResult::Found(v) => Some(TreeSearch::Val(v)),
                DeltaGetResult::NoneValue => Some(TreeSearch::NoneVal),
                DeltaGetResult::KeyNotFound => lookup_nodes(nodes.drop_first(), key),
            },
            Node::Leaf(l) => if l.wf() {
                match l.spec_get(key) {
                    Some(v) => Some(TreeSearch::Val(v)),
                    None => Some(TreeSearch::NoneVal),
                }
            } else {
                None
            },
            Node::Inner(inn) => if inn.wf() {
                Some(TreeSearch::NextNode(inn.spec_get(key)))
            } else {
                None
            },
        }
    }
}

/// Whether a leaf is well formed: sorted keys aligned with values.
pub fn check_leaf_wf(l: &LeafNode) -> (r: bool)
    ensures
        r == l.wf(),
{
    if l.keys.len() != l.values.len() {
        return false;
    }
    if sorted_strictly(&l.keys) {
        true
    } else {
        false
    }
}

/// Whether the keys of `v` are strictly increasing.
fn sorted_strictly(v: &Vec<i64>) -> (r: bool)
    ensures
        r == strictly_sorted(v@),
{
    if v.len() == 0 {
        return true;
    }
    let mut i: usize = 0;
    while i < v.len() - 1
        invariant
            v@.len() >= 1,
            i <= v@.len() - 1,
            forall|j: int| 0 <= j < i ==> #[trigger] v@[j] < v@[j + 1],
        decreases v@.len() - i,
    {
        if v[i] >= v[i + 1] {
            return false;
        }
        i = i + 1;
    }
    proof {
        crate::nodes::lemma_adjacent_sorted(v@);
    }
    true
}

/// Whether an inner node is well formed: sorted separators, one more child
/// than separators.
pub fn check_inner_wf(inn: &InnerNode) -> (r: bool)
    ensures
        r == inn.wf(),
{
    if inn.children.len() == 0 || inn.children.len() - 1 != inn.keys.len() {
        return false;
    }
    sorted_strictly(&inn.keys)
}

/// Walks one chain snapshot newest-first and returns exactly the verdict of
/// the chain model for `key`.
pub fn search_snapshot(head: &Option<Arc<ChainCell>>, key: &i64) -> (r: Option<TreeSearch>)
    ensures
        r == lookup_nodes(chain_seq(*head), *key),
{
    let mut cur: &Option<Arc<ChainCell>> = head;
    loop
        invariant
            lookup_nodes(chain_seq(*head), *key) == lookup_nodes(chain_seq(*cur), *key),
        decreases chain_seq(*cur).len(),
    {
        match cur {
            None => {
                return None;
            },
            Some(cell) => {
                proof {
                    lemma_cell_seq_unfold(&**cell);
                }
                match &cell.node {
                    Node::Delta(d) => {
                        match d.get(key) {
                            DeltaGetResult::Found(v) => {
                                return Some(TreeSearch::Val(v));
                            },
                            DeltaGetResult::NoneValue => {
                                return Some(TreeSearch::NoneVal);
                            },
                            DeltaGetResult::KeyNotFound => {
                                cur = &cell.next;
                            },
                        }
                    },
                    Node::Leaf(l) => {
                        if check_leaf_wf(l) {
                            match l.get(key) {
                                Some(v) => {
                                    return Some(TreeSearch::Val(v));
                                },
                                None => {
                                    return Some(TreeSearch::NoneVal);
                                },
                            }
                        } else {
                            return None;
                        }
                    },
                    Node::Inner(inn) => {
                        if check_inner_wf(inn) {
                            return Some(TreeSearch::NextNode(inn.get(key)));
                        } else {
                            return None;
                        }
                    },
                }
            },
        }
    }
}

impl LockFreeList {
    /// Resolves `key` against the chain as of a fresh snapshot. What the
    /// result means for that snapshot is stated by `search_snapshot`;
    /// concurrent writers may move the head at any moment, so no contract
    /// relates two calls.
    pub fn get(&self, key: &i64) -> (r: Option<TreeSearch>) {
        let snap = self.snapshot();
        search_snapshot(&snap, key)
    }
}

/// Every node of `nodes` is a delta record.
pub open spec fn all_deltas(nodes: Seq<Node>) -> bool {
    forall|i: int| 0 <= i < nodes.len() ==> nodes[i] is Delta
}

/// A chain that consolidation can fold: delta records over one well-formed
/// base leaf at the tail.
pub open spec fn foldable(nodes: Seq<Node>) -> bool {
    &&& nodes.len() >= 1
    &&& nodes.last() matches Node::Leaf(l) && l.wf()
    &&& all_deltas(nodes.take(nodes.len() - 1))
}

/// A verdict already reached stands, whatever is appended below it.
pub proof fn lemma_lookup_decided_append(p: Seq<Node>, q: Seq<Node>, key: i64)
    requires
        lookup_nodes(p, key) is Some,
    ensures
        lookup_nodes(p + q, key) == lookup_nodes(p, key),
    decreases p.len(),
{
    assert((p + q)[0] == p[0]);
    match p[0] {
        Node::Delta(d) => {
            if d.spec_get(key) is KeyNotFound {
                assert((p + q).drop_first() =~= p.drop_first() + q);
                lemma_lookup_decided_append(p.drop_first(), q, key);
            }
        },
        _ => {},
    }
}

/// A delta prefix that leaves `key` undecided is transparent: the verdict
/// comes from what lies below.
pub proof fn lemma_lookup_undecided_append(p: Seq<Node>, q: Seq<Node>, key: i64)
    requires
        all_deltas(p),
        lookup_nodes(p, key) is None,
    ensures
        lookup_nodes(p + q, key) == lookup_nodes(q, key),
    decreases p.len(),
{
    if p.len() == 0 {
        assert(p + q =~= q);
    } else {
        assert(p[0] is Delta);
        assert((p + q)[0] == p[0]);
        assert((p + q).drop_first() =~= p.drop_first() + q);
        assert(all_deltas(p.drop_first())) by {
            assert forall|i: int| 0 <= i < p.drop_first().len() implies p.drop_first()[i]
                is Delta by {
                assert(p.drop_first()[i] == p[i + 1]);
            }
        }
        lemma_lookup_undecided_append(p.drop_first(), q, key);
    }
}

/// How one delta record alone resolves `key`.
pub proof fn lemma_lookup_singleton_delta(d: DeltaNode, key: i64)
    ensures
        lookup_nodes(seq![Node::Delta(d)], key) == match d.spec_get(key) {
            DeltaGetResult::Found(v) => Some(TreeSearch::Val(v)),
            DeltaGetResult::NoneValue => Some(TreeSearch::NoneVal),
            DeltaGetResult::KeyNotFound => None::<TreeSearch>,
        },
{
    reveal_with_fuel(lookup_nodes, 2);
    assert(seq![Node::Delta(d)].drop_first().len() == 0);
}

/// The verdict the builder's accumulated state assigns to `key`: a binding,
/// a tombstone, or no verdict yet.
pub open spec fn builder_verdict(bk: Seq<i64>, bv: Seq<i64>, dels: Seq<i64>, key: i64) -> Option<
    TreeSearch,
> {
    match seq_assoc(bk, bv, key) {
        Some(v) => Some(TreeSearch::Val(v)),
        None => if dels.contains(key) {
            Some(TreeSearch::NoneVal)
        } else {
            None
        },
    }
}

/// Folds one chain snapshot into a single dense leaf, processing records
/// newest first so that the newest record for each key wins and tombstones
/// shadow older bindings. Consolidation is transparent: the folded leaf
/// resolves every key exactly as the snapshot it was folded from, so
/// installing it changes the representation of a page but not one verdict.
/// A snapshot that is not a delta chain over one well-formed base leaf
/// cannot be folded.
pub fn consolidate_snapshot(head: &Option<Arc<ChainCell>>) -> (r: Option<LeafNode>)
    ensures
        match r {
            Some(leaf) => {
                &&& foldable(chain_seq(*head))
                &&& leaf.wf()
                &&& forall|k: i64| #[trigger] lookup_nodes(seq![Node::Leaf(leaf)], k)
                    == lookup_nodes(chain_seq(*head), k)
            },
            None => !foldable(chain_seq(*head)),
        },
{
    let ghost full = chain_seq(*head);
    let mut builder = LeafNodeBuilder::new();
    let mut cur: &Option<Arc<ChainCell>> = head;
    let ghost mut i: int = 0;
    proof {
        assert(full =~= full.take(i) + chain_seq(*cur));
    }
    loop
        invariant
            full == chain_seq(*head),
            0 <= i <= full.len(),
            full == full.take(i) + chain_seq(*cur),
            all_deltas(full.take(i)),
            builder.keys@.len() == builder.values@.len(),
            distinct(builder.keys@),
            forall|k: i64| #[trigger] builder.keys@.contains(k)
                ==> builder.delete_keys@.contains(k),
            forall|k: i64| #[trigger] lookup_nodes(full.take(i), k) == builder_verdict(
                builder.keys@,
                builder.values@,
                builder.delete_keys@,
                k,
            ),
        decreases chain_seq(*cur).len(),
    {
        match cur {
            None => {
                proof {
                    assert(full =~= full.take(i));
                    if foldable(full) {
                        assert(full[full.len() - 1] is Delta);
                    }
                }
                return None;
            },
            Some(cell) => {
                proof {
                    lemma_cell_seq_unfold(&**cell);
                    assert(full[i] == cell.node) by {
                        assert(full == full.take(i) + cell_seq(**cell));
                        assert((full.take(i) + cell_seq(**cell))[i] == cell_seq(**cell)[0]);
                    }
                    assert(i < full.len());
                }
                match &cell.node {
                    Node::Delta(d) => {
                        let ghost bk = builder.keys@;
                        let ghost bv = builder.values@;
                        let ghost bd = builder.delete_keys@;
                        match d {
                            DeltaNode::Insert(ins) => {
                                builder.add_insert_delta(ins);
                            },
                            DeltaNode::Update(u) => {
                                let folded = InsertDelta::new(u.key, u.value);
                                builder.add_insert_delta(&folded);
                            },
                            DeltaNode::Delete(del) => {
                                builder.add_delete_delta(del);
                            },
                        }
                        proof {
                            consolidate_delta_step(full, i, *d, bk, bv, bd, &builder);
                            i = i + 1;
                            assert(full =~= full.take(i) + chain_seq(cell.next)) by {
                                assert(full == full.take(i - 1) + cell_seq(**cell));
                                assert(full.take(i) =~= full.take(i - 1) + seq![cell.node]);
                            }
                        }
                        cur = &cell.next;
                    },
                    Node::Leaf(l) => {
                        match &cell.next {
                            Some(_) => {
                                proof {
                                    assert(chain_seq(cell.next).len() >= 1);
                                    assert(full.len() >= i + 2);
                                    if foldable(full) {
                                        assert(full.take(full.len() - 1)[i] is Delta);
                                    }
                                }
                                return None;
                            },
                            None => {
                                if !check_leaf_wf(l) {
                                    proof {
                                        assert(full.last() == cell.node);
                                    }
                                    return None;
                                }
                                let ghost bk = builder.keys@;
                                let ghost bv = builder.values@;
                                let ghost bd = builder.delete_keys@;
                                proof {
                                    lemma_strictly_sorted_distinct(l.keys@);
                                }
                                builder.add_node(l);
                                let ghost ak = builder.keys@;
                                let ghost av = builder.values@;
                                let leaf = builder.build();
                                proof {
                                    consolidate_leaf_step(full, i, *l, bk, bv, bd, ak, av, leaf);
                                }
                                return Some(leaf);
                            },
                        }
                    },
                    Node::Inner(_) => {
                        proof {
                            if foldable(full) {
                                if i < full.len() - 1 {
                                    assert(full.take(full.len() - 1)[i] is Delta);
                                } else {
                                    assert(full.last() == cell.node);
                                }
                            }
                        }
                        return None;
                    },
                }
            },
        }
    }
}

/// One delta record folded: the builder's verdicts now match the chain
/// prefix extended by that record.
proof fn consolidate_delta_step(
    full: Seq<Node>,
    i: int,
    d: DeltaNode,
    bk: Seq<i64>,
    bv: Seq<i64>,
    bd: Seq<i64>,
    builder: &LeafNodeBuilder,
)
    requires
        0 <= i < full.len(),
        full[i] == Node::Delta(d),
        all_deltas(full.take(i)),
        bk.len() == bv.len(),
        distinct(bk),
        forall|k: i64| #[trigger] bk.contains(k) ==> bd.contains(k),
        forall|k: i64| #[trigger] lookup_nodes(full.take(i), k) == builder_verdict(bk, bv, bd, k),
        match d.spec_get(d.spec_key()) {
            DeltaGetResult::Found(v) => if bd.contains(d.spec_key()) {
                builder.keys@ == bk && builder.values@ == bv && builder.delete_keys@ == bd
            } else {
                builder.keys@ == bk.push(d.spec_key()) && builder.values@ == bv.push(v)
                    && builder.delete_keys@ == bd.push(d.spec_key())
            },
            DeltaGetResult::NoneValue => builder.keys@ == bk && builder.values@ == bv
                && builder.delete_keys@ == bd.push(d.spec_key()),
            DeltaGetResult::KeyNotFound => false,
        },
    ensures
        all_deltas(full.take(i + 1)),
        builder.keys@.len() == builder.values@.len(),
        distinct(builder.keys@),
        forall|k: i64| #[trigger] builder.keys@.contains(k) ==> builder.delete_keys@.contains(k),
        forall|k: i64| #[trigger] lookup_nodes(full.take(i + 1), k) == builder_verdict(
            builder.keys@,
            builder.values@,
            builder.delete_keys@,
            k,
        ),
{
    let dk = d.spec_key();
    let p = full.take(i);
    assert(full.take(i + 1) =~= p + seq![Node::Delta(d)]);
    assert(all_deltas(full.take(i + 1))) by {
        assert forall|a: int| 0 <= a < i + 1 implies #[trigger] full.take(i + 1)[a] is Delta by {
            if a < i {
                assert(p[a] is Delta);
            }
        }
    }
    // the key of this record is decided before it exactly when it is marked
    assert(lookup_nodes(p, dk) is Some <==> bd.contains(dk)) by {
        lemma_seq_assoc_exists(bk, bv, dk);
        assert(lookup_nodes(p, dk) == builder_verdict(bk, bv, bd, dk));
        if seq_assoc(bk, bv, dk) is Some {
            assert(bk.contains(dk));
        }
    }
    if !bd.contains(dk) {
        assert(!bk.contains(dk)) by {
            if bk.contains(dk) {
                assert(bd.contains(dk));
            }
        }
        assert forall|a: int, b: int|
            0 <= a < b < builder.keys@.len() implies builder.keys@[a] != builder.keys@[b] by {
            if b == bk.len() {
                assert(bk.contains(bk[a]));
            }
        }
    }
    assert forall|k: i64| #[trigger] builder.keys@.contains(k) implies builder.delete_keys@.contains(
        k,
    ) by {
        match d.spec_get(dk) {
            DeltaGetResult::Found(_) => {
                if !bd.contains(dk) {
                    lemma_push_contains(bk, dk, k);
                    lemma_push_contains(bd, dk, k);
                }
            },
            DeltaGetResult::NoneValue => {
                lemma_push_contains(bd, dk, k);
            },
            DeltaGetResult::KeyNotFound => {},
        }
    }
    assert forall|k: i64| #[trigger] lookup_nodes(full.take(i + 1), k) == builder_verdict(
        builder.keys@,
        builder.values@,
        builder.delete_keys@,
        k,
    ) by {
        assert(lookup_nodes(p, k) == builder_verdict(bk, bv, bd, k));
        lemma_lookup_singleton_delta(d, k);
        lemma_push_contains(bd, dk, k);
        if lookup_nodes(p, k) is Some {
            lemma_lookup_decided_append(p, seq![Node::Delta(d)], k);
        } else {
            lemma_lookup_undecided_append(p, seq![Node::Delta(d)], k);
        }
        match d.spec_get(dk) {
            DeltaGetResult::Found(v) => {
                if !bd.contains(dk) {
                    assert(bk.push(dk) =~= bk + seq![dk]);
                    assert(bv.push(v) =~= bv + seq![v]);
                    lemma_seq_assoc_append(bk, bv, seq![dk], seq![v], k);
                    lemma_seq_assoc_singleton(dk, v, k);
                    if k == dk {
                        lemma_seq_assoc_exists(bk, bv, k);
                        if seq_assoc(bk, bv, dk) is Some {
                            assert(bk.contains(dk));
                        }
                    }
                }
            },
            _ => {},
        }
    }
}

/// How many times consolidation retries its rebuild after losing the
/// compare-and-swap to a concurrent writer before giving up; giving up
/// leaves the chain as the writers made it, which changes no verdict.
pub const CONSOLIDATE_RETRY_LIMIT: usize = 64;

/// The ordered index: one mapping table and the identifier of its root page.
pub struct BwTree {
    pub mapping_table: MappingTable,
    pub root_id: usize,
}

impl BwTree {
    pub open spec fn wf(&self) -> bool {
        &&& self.mapping_table.wf()
        &&& self.root_id < self.mapping_table.map@.len()
    }

    /// A fresh engine: a full mapping table whose root page holds one empty
    /// base leaf. Allocation of the root cannot exhaust a fresh table.
    pub fn new() -> (r: Result<Self, MappingTableError>)
        ensures
            r is Ok,
            r matches Ok(t) ==> t.wf() && t.root_id == 0,
    {
        let mut mapping_table = MappingTable::new();
        let root_id = match mapping_table.new_page() {
            Ok(page) => page,
            Err(e) => {
                return Err(e);
            },
        };
        let root = Node::Leaf(LeafNode::new());
        mapping_table.get(root_id).push_front(root);
        Ok(Self { root_id, mapping_table })
    }

    /// Prepends an insert record for `key -> value` to the root page's
    /// chain; O(1), no key-presence check: newest-wins resolution at read
    /// time makes the last write win. Never fails.
    pub fn insert(&self, key: i64, value: i64) -> (r: Result<(), MappingTableError>)
        requires
            self.wf(),
        ensures
            r is Ok,
    {
        let node = Node::Delta(DeltaNode::Insert(InsertDelta::new(key, value)));
        let root_list = self.mapping_table.get(self.root_id);
        root_list.push_front(node);
        Ok(())
    }

    /// Prepends an update record for `key -> value`; resolved exactly like
    /// an insert. Never fails.
    pub fn update(&self, key: i64, value: i64) -> (r: Result<(), MappingTableError>)
        requires
            self.wf(),
        ensures
            r is Ok,
    {
        let node = Node::Delta(DeltaNode::Update(UpdateDelta::new(key, value)));
        let root_list = self.mapping_table.get(self.root_id);
        root_list.push_front(node);
        Ok(())
    }

    /// Prepends a tombstone for `key`, shadowing any older binding. Never
    /// fails.
    pub fn delete(&self, key: i64) -> (r: Result<(), MappingTableError>)
        requires
            self.wf(),
        ensures
            r is Ok,
    {
        let node = Node::Delta(DeltaNode::Delete(DeleteDelta::new(key)));
        let root_list = self.mapping_table.get(self.root_id);
        root_list.push_front(node);
        Ok(())
    }

    /// Resolves `key`, starting at the root page and descending through
    /// inner nodes. Each page is resolved against a fresh snapshot of its
    /// chain, exactly as `search_snapshot` states; a routing walk that does
    /// not resolve within the table's capacity, or a chain that yields no
    /// verdict, is an internal-invariant violation and reads as absent.
    pub fn get(&self, key: &i64) -> (r: Option<i64>)
        requires
            self.wf(),
    {
        let mut id = self.root_id;
        let mut hops: usize = 0;
        while hops < MAPPING_TABLE_SIZE
            invariant
                self.wf(),
                id < self.mapping_table.map@.len(),
            decreases MAPPING_TABLE_SIZE - hops,
        {
            let node_list = self.mapping_table.get(id);
            match node_list.get(key) {
                Some(TreeSearch::NextNode(next)) => {
                    if next < MAPPING_TABLE_SIZE {
                        id = next;
                    } else {
                        return None;
                    }
                },
                Some(TreeSearch::Val(v)) => {
                    return Some(v);
                },
                Some(TreeSearch::NoneVal) => {
                    return None;
                },
                None => {
                    return None;
                },
            }
            hops = hops + 1;
        }
        None
    }

    /// Folds page `page_id`'s chain into one dense leaf and installs it as
    /// the new chain head, if and only if the head is still the very
    /// snapshot the leaf was folded from; a lost race is retried with a
    /// fresh rebuild, a stale rebuild is never installed. The page keeps its
    /// identifier, so inbound references stay valid.
    pub fn consolidation(&self, page_id: usize)
        requires
            self.wf(),
            page_id < MAPPING_TABLE_SIZE,
    {
        let list = self.mapping_table.get(page_id);
        let mut attempts: usize = 0;
        while attempts < CONSOLIDATE_RETRY_LIMIT
            invariant
                self.wf(),
                page_id < self.mapping_table.map@.len(),
            decreases CONSOLIDATE_RETRY_LIMIT - attempts,
        {
            let snap = list.snapshot();
            match consolidate_snapshot(&snap) {
                None => {
                    return;
                },
                Some(leaf) => {
                    let cell = ChainCell { node: Node::Leaf(leaf), next: None };
                    if list.install(&snap, Some(Arc::new(cell))) {
                        return;
                    }
                },
            }
            attempts = attempts + 1;
        }
    }
}

/// Read-your-write: a chain whose newest record is an insert of
/// `(key, value)` resolves `key` to `value`, whatever lies below it.
pub proof fn lemma_read_your_write(rest: Seq<Node>, key: i64, value: i64)
    ensures
        lookup_nodes(seq![Node::Delta(DeltaNode::Insert(InsertDelta { key, value }))] + rest, key)
            == Some(TreeSearch::Val(value)),
{
    let n = Node::Delta(DeltaNode::Insert(InsertDelta { key, value }));
    assert((seq![n] + rest)[0] == n);
}

/// Tombstone precedence: a chain whose newest record is a delete of `key`
/// resolves `key` to absent, even though an older binding for `key` lies
/// deeper in the chain.
pub proof fn lemma_tombstone_precedence(rest: Seq<Node>, key: i64, value: i64)
    ensures
        lookup_nodes(
            seq![
                Node::Delta(DeltaNode::Delete(DeleteDelta { key })),
                Node::Delta(DeltaNode::Insert(InsertDelta { key, value })),
            ] + rest,
            key,
        ) == Some(TreeSearch::NoneVal),
{
    let s = seq![
        Node::Delta(DeltaNode::Delete(DeleteDelta { key })),
        Node::Delta(DeltaNode::Insert(InsertDelta { key, value })),
    ] + rest;
    assert(s[0] == Node::Delta(DeltaNode::Delete(DeleteDelta { key })));
}

/// Last write wins: of two inserts for one key, the newer record's value is
/// the one resolved.
pub proof fn lemma_last_write_wins(rest: Seq<Node>, key: i64, v1: i64, v2: i64)
    ensures
        lookup_nodes(
            seq![
                Node::Delta(DeltaNode::Insert(InsertDelta { key, value: v2 })),
                Node::Delta(DeltaNode::Insert(InsertDelta { key, value: v1 })),
            ] + rest,
            key,
        ) == Some(TreeSearch::Val(v2)),
{
    let s = seq![
        Node::Delta(DeltaNode::Insert(InsertDelta { key, value: v2 })),
        Node::Delta(DeltaNode::Insert(InsertDelta { key, value: v1 })),
    ] + rest;
    assert(s[0] == Node::Delta(DeltaNode::Insert(InsertDelta { key, value: v2 })));
}

/// Writes for other keys are transparent: prepending a record for a
/// different key changes no verdict for `key`, so concurrent writers of
/// disjoint key ranges never lose one another's updates.
pub proof fn lemma_other_key_transparent(d: DeltaNode, rest: Seq<Node>, key: i64)
    requires
        d.spec_key() != key,
    ensures
        lookup_nodes(seq![Node::Delta(d)] + rest, key) == lookup_nodes(rest, key),
{
    let s = seq![Node::Delta(d)] + rest;
    assert(s[0] == Node::Delta(d));
    assert(s.drop_first() =~= rest);
}

/// The base leaf folded at the tail: the built leaf resolves every key
/// exactly as the whole chain does.
proof fn consolidate_leaf_step(
    full: Seq<Node>,
    i: int,
    l: LeafNode,
    bk: Seq<i64>,
    bv: Seq<i64>,
    bd: Seq<i64>,
    ak: Seq<i64>,
    av: Seq<i64>,
    leaf: LeafNode,
)
    requires
        0 <= i < full.len(),
        i == full.len() - 1,
        full[i] == Node::Leaf(l),
        l.wf(),
        all_deltas(full.take(i)),
        bk.len() == bv.len(),
        forall|k: i64| #[trigger] bk.contains(k) ==> bd.contains(k),
        forall|k: i64| #[trigger] lookup_nodes(full.take(i), k) == builder_verdict(bk, bv, bd, k),
        // what add_node established
        forall|k: i64| #[trigger] seq_assoc(ak, av, k) == (match seq_assoc(bk, bv, k) {
            Some(v) => Some(v),
            None => if bd.contains(k) {
                None
            } else {
                seq_assoc(l.keys@, l.values@, k)
            },
        }),
        // what build established
        leaf.wf(),
        forall|k: i64| #[trigger] leaf.spec_get(k) == seq_assoc(ak, av, k),
    ensures
        foldable(full),
        forall|k: i64| #[trigger] lookup_nodes(seq![Node::Leaf(leaf)], k) == lookup_nodes(full, k),
{
    let p = full.take(i);
    assert(full =~= p + seq![Node::Leaf(l)]);
    assert(full.take(full.len() - 1) =~= p);
    assert(full.last() == full[i]);
    assert forall|k: i64| #[trigger] lookup_nodes(seq![Node::Leaf(leaf)], k) == lookup_nodes(
        full,
        k,
    ) by {
        assert(lookup_nodes(p, k) == builder_verdict(bk, bv, bd, k));
        if lookup_nodes(p, k) is Some {
            lemma_lookup_decided_append(p, seq![Node::Leaf(l)], k);
        } else {
            lemma_lookup_undecided_append(p, seq![Node::Leaf(l)], k);
        }
        assert(lookup_nodes(seq![Node::Leaf(l)], k) == match l.spec_get(k) {
            Some(v) => Some(TreeSearch::Val(v)),
            None => Some(TreeSearch::NoneVal),
        });
        assert(lookup_nodes(seq![Node::Leaf(leaf)], k) == match leaf.spec_get(k) {
            Some(v) => Some(TreeSearch::Val(v)),
            None => Some(TreeSearch::NoneVal),
        });
        lemma_seq_assoc_exists(bk, bv, k);
    }
}

} // verus!

