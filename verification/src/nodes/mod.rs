//! The node model: the payload stored in one chain cell is a base leaf,
//! a base inner (routing) node, or a delta record.

use vstd::prelude::*;

use crate::nodes::delta_node::DeltaNode;
use crate::nodes::inner_node::InnerNode;
use crate::nodes::leaf_node::LeafNode;

pub mod delta_node;
pub mod inner_node;
pub mod leaf_node;

verus! {

/// A sequence of keys without repetition.
pub open spec fn distinct(s: Seq<i64>) -> bool {
    forall|i: int, j: int| 0 <= i < j < s.len() ==> s[i] != s[j]
}

/// A strictly increasing sequence of keys.
pub open spec fn strictly_sorted(s: Seq<i64>) -> bool {
    forall|i: int, j: int| 0 <= i < j < s.len() ==> s[i] < s[j]
}

pub proof fn lemma_strictly_sorted_distinct(s: Seq<i64>)
    requires
        strictly_sorted(s),
    ensures
        distinct(s),
{
}

/// A strict order between every adjacent pair makes the whole sequence
/// strictly increasing.
pub proof fn lemma_adjacent_sorted(s: Seq<i64>)
    requires
        forall|i: int| 0 <= i < s.len() - 1 ==> #[trigger] s[i] < s[i + 1],
    ensures
        strictly_sorted(s),
{
    assert forall|i: int, j: int| 0 <= i < j < s.len() implies s[i] < s[j] by {
        lemma_ordered_pair(s, i, j);
    }
}

proof fn lemma_ordered_pair(s: Seq<i64>, i: int, j: int)
    requires
        forall|m: int| 0 <= m < s.len() - 1 ==> #[trigger] s[m] < s[m + 1],
        0 <= i < j < s.len(),
    ensures
        s[i] < s[j],
    decreases j - i,
{
    if j > i + 1 {
        lemma_ordered_pair(s, i, j - 1);
    }
}

/// Membership after a push: the old members plus the pushed key.
pub proof fn lemma_push_contains(s: Seq<i64>, x: i64, y: i64)
    ensures
        s.push(x).contains(y) <==> (s.contains(y) || x == y),
{
    assert(s.push(x)[s.len() as int] == x);
    if s.contains(y) {
        let idx = choose|idx: int| 0 <= idx < s.len() && s[idx] == y;
        assert(s.push(x)[idx] == y);
    }
    if s.push(x).contains(y) {
        let idx = choose|idx: int| 0 <= idx < s.push(x).len() && s.push(x)[idx] == y;
        if idx < s.len() {
            assert(s[idx] == y);
        }
    }
}

/// The payload of one chain cell.
#[derive(Clone)]
pub enum Node {
    Leaf(LeafNode),
    Delta(DeltaNode),
    Inner(InnerNode),
}

} // verus!
