//! Base inner nodes: separator keys routing lookups to child pages. For a
//! key `k` the selected child is the one at the smallest index `i` with
//! `k < keys[i]`, or the last child when no separator exceeds `k`.

use vstd::prelude::*;

use crate::nodes::strictly_sorted;

verus! {

/// How many leading separators of `keys` lie at or below `key`; under a
/// sorted separator sequence this is the index of the child to descend to.
pub open spec fn route_index(keys: Seq<i64>, key: i64) -> int
    decreases keys.len(),
{
    if keys.len() == 0 {
        0
    } else if keys[0] <= key {
        1 + route_index(keys.drop_first(), key)
    } else {
        0
    }
}

/// Under sorted separators, the routing index is the unique cut: every
/// separator before it lies at or below `key`, and the one at it (if any)
/// lies above.
pub proof fn lemma_route_index_cut(keys: Seq<i64>, key: i64, i: int)
    requires
        strictly_sorted(keys),
        0 <= i <= keys.len(),
        forall|j: int| 0 <= j < i ==> keys[j] <= key,
        i == keys.len() || keys[i] > key,
    ensures
        route_index(keys, key) == i,
    decreases keys.len(),
{
    if keys.len() > 0 {
        if keys[0] <= key {
            assert forall|j: int| 0 <= j < i - 1 implies keys.drop_first()[j] <= key by {
                assert(keys.drop_first()[j] == keys[j + 1]);
            }
            lemma_route_index_cut(keys.drop_first(), key, i - 1);
        } else {
            assert(i == 0);
        }
    }
}

/// Separator keys (`children` count minus one of them) with the child page
/// identifiers they bound.
#[derive(Clone)]
pub struct InnerNode {
    pub keys: Vec<i64>,
    pub children: Vec<usize>,
}

impl InnerNode {
    pub open spec fn wf(&self) -> bool {
        &&& strictly_sorted(self.keys@)
        &&& self.children@.len() == self.keys@.len() + 1
    }

    /// The child page a lookup for `key` descends to.
    pub open spec fn spec_get(&self, key: i64) -> usize {
        self.children@[route_index(self.keys@, key)]
    }

    pub fn new() -> (r: Self)
        ensures
            r.keys@.len() == 0,
            r.children@.len() == 0,
    {
        Self { keys: Vec::new(), children: Vec::new() }
    }

    pub fn get(&self, key: &i64) -> (r: usize)
        requires
            self.wf(),
        ensures
            r == self.spec_get(*key),
    {
        let mut i: usize = 0;
        while i < self.keys.len() && self.keys[i] <= *key
            invariant
                self.wf(),
                0 <= i <= self.keys@.len(),
                forall|j: int| 0 <= j < i ==> self.keys@[j] <= *key,
            decreases self.keys@.len() - i,
        {
            i = i + 1;
        }
        proof {
            lemma_route_index_cut(self.keys@, *key, i as int);
        }
        self.children[i]
    }
}

} // verus!
