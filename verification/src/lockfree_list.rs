//! The delta chain of one page: a lock-free singly-linked list of immutable
//! cells. Cells are shared through `Arc` and never mutated once published;
//! the only mutable shared state is the head reference, updated by
//! compare-and-swap. A cell unreachable from the head is reclaimed once the
//! last snapshot holding it is dropped (reference counting stands in for an
//! epoch scheme: a snapshot is the protection token).

use vstd::prelude::*;

use std::sync::Arc;

use crate::nodes::Node;

verus! {

/// One chain cell: an immutable node value and the rest of the chain.
pub struct ChainCell {
    pub node: Node,
    pub next: Option<Arc<ChainCell>>,
}

/// The node values of the chain hanging off `cell`, newest first.
pub open spec fn cell_seq(cell: ChainCell) -> Seq<Node>
    decreases cell,
{
    match cell.next {
        None => seq![cell.node],
        Some(c) => seq![cell.node] + cell_seq(*c),
    }
}

/// The node values reachable from a head reference, newest first.
pub open spec fn chain_seq(head: Option<Arc<ChainCell>>) -> Seq<Node> {
    match head {
        None => Seq::empty(),
        Some(c) => cell_seq(*c),
    }
}

pub proof fn lemma_cell_seq_unfold(cell: &ChainCell)
    ensures
        cell_seq(*cell) == seq![cell.node] + chain_seq(cell.next),
        cell_seq(*cell).len() >= 1,
        cell_seq(*cell)[0] == cell.node,
        cell_seq(*cell).drop_first() == chain_seq(cell.next),
{
    match cell.next {
        None => {
            assert(cell_seq(*cell) =~= seq![cell.node] + chain_seq(cell.next));
        },
        Some(_) => {},
    }
    assert(cell_seq(*cell).drop_first() =~= chain_seq(cell.next));
}

/// The atomic head reference of one chain. The stored head is shared with
/// concurrent writers, so no two reads of it are related by contract:
/// callers state what they prove about each snapshot they were handed.
#[verifier::external_body]
struct AtomicHead {
    head: arc_swap::ArcSwapOption<ChainCell>,
}

impl AtomicHead {
    /// Relies on arc_swap::ArcSwapAny::new: creates storage holding `head`.
    #[verifier::external_body]
    fn new(head: Option<Arc<ChainCell>>) -> (r: AtomicHead) {
        AtomicHead { head: arc_swap::ArcSwapOption::new(head) }
    }

    /// Relies on arc_swap::ArcSwapAny::load_full: returns a clone of the
    /// currently stored head reference. Concurrent writers may replace the
    /// stored head at any moment, so nothing relates two loads.
    #[verifier::external_body]
    fn load(&self) -> (r: Option<Arc<ChainCell>>) {
        self.head.load_full()
    }

    /// Relies on arc_swap::ArcSwapAny::rcu: builds, from each freshly
    /// observed head, a new cell holding a clone of `node` and pointing at
    /// that head, and retries the compare-and-swap until one such cell is
    /// installed. The retry loop never reuses a stale next pointer.
    #[verifier::external_body]
    fn rcu_prepend(&self, node: &Node) {
        self.head.rcu(|cur: &Option<Arc<ChainCell>>| {
            Some(Arc::new(ChainCell { node: node.clone(), next: cur.clone() }))
        });
    }

    /// Relies on arc_swap::ArcSwapAny::compare_and_swap: stores `new` if and
    /// only if the stored head is still pointer-equal to `current`, and
    /// returns whether it did; on failure the stored head is untouched.
    #[verifier::external_body]
    fn compare_and_swap(&self, current: &Option<Arc<ChainCell>>, new: Option<Arc<ChainCell>>) -> (r:
        bool) {
        let prev = self.head.compare_and_swap(current, new);
        match (&*prev, current) {
            (None, None) => true,
            (Some(p), Some(c)) => Arc::ptr_eq(p, c),
            _ => false,
        }
    }
}

/// Relies on Arc::clone: the returned reference points at the very same
/// allocation, so as a value it equals the one cloned.
#[verifier::external_body]
fn clone_cell_ref(a: &Arc<ChainCell>) -> (r: Arc<ChainCell>)
    ensures
        r == *a,
{
    Arc::clone(a)
}

/// A snapshot iterator over one chain, newest to oldest: finite, and
/// unaffected by concurrent writers, which only replace the head it was
/// started from. It keeps the cells it has yet to yield alive.
pub struct Iter {
    pub next: Option<Arc<ChainCell>>,
}

impl Iter {
    /// The cells not yet yielded, newest first.
    pub open spec fn remaining(&self) -> Seq<Node> {
        chain_seq(self.next)
    }

    /// Yields the next cell of the snapshot, or nothing at the chain's tail.
    pub fn next(&mut self) -> (r: Option<Arc<ChainCell>>)
        ensures
            old(self).remaining().len() == 0 ==> r is None && final(self).remaining().len() == 0,
            old(self).remaining().len() > 0 ==> {
                &&& r matches Some(c) && c.node == old(self).remaining()[0]
                &&& final(self).remaining() == old(self).remaining().drop_first()
            },
    {
        let cur = self.next.take();
        match cur {
            None => None,
            Some(c) => {
                proof {
                    lemma_cell_seq_unfold(&*c);
                }
                self.next = match &c.next {
                    None => None,
                    Some(n) => Some(clone_cell_ref(n)),
                };
                Some(c)
            },
        }
    }
}

/// A lock-free singly-linked list of chain cells, reached from one atomic
/// head reference.
pub struct LockFreeList {
    head: AtomicHead,
}

impl LockFreeList {
    /// An empty chain.
    pub fn new() -> (r: Self) {
        LockFreeList { head: AtomicHead::new(None) }
    }

    /// Prepends one cell holding `value`, retrying the compare-and-swap on
    /// the head against concurrent writers until it succeeds; lock-free.
    pub fn push_front(&self, value: Node) {
        self.head.rcu_prepend(&value);
    }

    /// The chain as of this moment: a protected snapshot that stays valid
    /// (and keeps its cells alive) however the head moves on concurrently.
    pub fn snapshot(&self) -> (r: Option<Arc<ChainCell>>) {
        self.head.load()
    }

    /// Iterates the chain as of this moment, newest to oldest; each call
    /// begins again from the head current at call time.
    pub fn iter(&self) -> (r: Iter) {
        Iter { next: self.snapshot() }
    }

    /// Installs `new` as the head if and only if the head is still exactly
    /// the `current` snapshot; returns whether it did.
    pub(crate) fn install(&self, current: &Option<Arc<ChainCell>>, new: Option<Arc<ChainCell>>) -> (
        r: bool) {
        self.head.compare_and_swap(current, new)
    }
}

} // verus!
