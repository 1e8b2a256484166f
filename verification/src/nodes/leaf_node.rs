//! Base leaf nodes: a dense snapshot of key/value bindings for one page,
//! held as index-aligned parallel sequences with strictly increasing keys,
//! and the builder that consolidation uses to fold a chain into one leaf.

use vstd::prelude::*;

use crate::nodes::delta_node::{DeleteDelta, InsertDelta};
use crate::nodes::{distinct, strictly_sorted, lemma_strictly_sorted_distinct};

verus! {

/// The binding for `key` in the association made of the index-aligned
/// `keys` and `values`; the earliest occurrence of `key` decides.
pub open spec fn seq_assoc(keys: Seq<i64>, values: Seq<i64>, key: i64) -> Option<i64>
    decreases keys.len(),
{
    if keys.len() == 0 || values.len() == 0 {
        None
    } else if keys[0] == key {
        Some(values[0])
    } else {
        seq_assoc(keys.drop_first(), values.drop_first(), key)
    }
}

/// Looking a key up in the concatenation of two associations reads the
/// first, and falls through to the second only for keys the first lacks.
pub proof fn lemma_seq_assoc_append(
    k0: Seq<i64>,
    v0: Seq<i64>,
    k1: Seq<i64>,
    v1: Seq<i64>,
    key: i64,
)
    requires
        k0.len() == v0.len(),
    ensures
        seq_assoc(k0 + k1, v0 + v1, key) == match seq_assoc(k0, v0, key) {
            Some(v) => Some(v),
            None => seq_assoc(k1, v1, key),
        },
    decreases k0.len(),
{
    if k0.len() == 0 {
        assert(k0 + k1 =~= k1);
        assert(v0 + v1 =~= v1);
    } else {
        assert((k0 + k1)[0] == k0[0]);
        if (k0 + k1).len() > 0 && (v0 + v1).len() > 0 && (k0 + k1)[0] != key {
            assert((k0 + k1).drop_first() =~= k0.drop_first() + k1);
            assert((v0 + v1).drop_first() =~= v0.drop_first() + v1);
        }
        lemma_seq_assoc_append(k0.drop_first(), v0.drop_first(), k1, v1, key);
    }
}

/// A one-binding association holds exactly its own key.
pub proof fn lemma_seq_assoc_singleton(k1: i64, v1: i64, key: i64)
    ensures
        seq_assoc(seq![k1], seq![v1], key) == if key == k1 {
            Some(v1)
        } else {
            None::<i64>
        },
{
    reveal_with_fuel(seq_assoc, 2);
    assert(seq![k1].drop_first().len() == 0);
}

/// With distinct keys, any index holding `key` decides the association.
pub proof fn lemma_seq_assoc_index(keys: Seq<i64>, values: Seq<i64>, key: i64, i: int)
    requires
        keys.len() == values.len(),
        distinct(keys),
        0 <= i < keys.len(),
        keys[i] == key,
    ensures
        seq_assoc(keys, values, key) == Some(values[i]),
    decreases keys.len(),
{
    if i > 0 {
        assert(keys[0] != key);
        lemma_seq_assoc_index(keys.drop_first(), values.drop_first(), key, i - 1);
    }
}

/// An association holds a binding for `key` exactly when some index holds
/// `key`, and any binding it returns stands at some such index.
pub proof fn lemma_seq_assoc_exists(keys: Seq<i64>, values: Seq<i64>, key: i64)
    requires
        keys.len() == values.len(),
    ensures
        seq_assoc(keys, values, key) is Some <==> exists|i: int|
            0 <= i < keys.len() && keys[i] == key,
        forall|v: i64| seq_assoc(keys, values, key) == Some(v) ==> exists|i: int|
            0 <= i < keys.len() && keys[i] == key && values[i] == v,
    decreases keys.len(),
{
    if keys.len() > 0 {
        if keys[0] == key {
            assert(keys[0] == key && values[0] == values[0]);
        } else {
            lemma_seq_assoc_exists(keys.drop_first(), values.drop_first(), key);
            if seq_assoc(keys, values, key) is Some {
                let i = choose|i: int|
                    0 <= i < keys.drop_first().len() && keys.drop_first()[i] == key;
                assert(keys[i + 1] == key);
            }
            if exists|i: int| 0 <= i < keys.len() && keys[i] == key {
                let i = choose|i: int| 0 <= i < keys.len() && keys[i] == key;
                assert(keys.drop_first()[i - 1] == key);
            }
            assert forall|v: i64| seq_assoc(keys, values, key) == Some(v) implies exists|i: int|
                0 <= i < keys.len() && keys[i] == key && values[i] == v by {
                let i = choose|i: int|
                    0 <= i < keys.drop_first().len() && keys.drop_first()[i] == key
                        && values.drop_first()[i] == v;
                assert(keys[i + 1] == key && values[i + 1] == v);
            }
        }
    }
}

/// A dense, sorted snapshot of the bindings of one page: `keys` strictly
/// increasing, `values` index-aligned with it.
#[derive(Clone)]
pub struct LeafNode {
    pub keys: Vec<i64>,
    pub values: Vec<i64>,
}

impl LeafNode {
    pub open spec fn wf(&self) -> bool {
        &&& self.keys@.len() == self.values@.len()
        &&& strictly_sorted(self.keys@)
    }

    /// The binding this leaf holds for `key`, if any.
    pub open spec fn spec_get(&self, key: i64) -> Option<i64> {
        seq_assoc(self.keys@, self.values@, key)
    }

    pub fn new() -> (r: Self)
        ensures
            r.wf(),
            r.keys@.len() == 0,
            forall|k: i64| r.spec_get(k) is None,
    {
        Self { keys: Vec::new(), values: Vec::new() }
    }

    /// Binary search over the sorted key sequence.
    pub fn get(&self, key: &i64) -> (r: Option<i64>)
        requires
            self.wf(),
        ensures
            r == self.spec_get(*key),
    {
        let mut lo: usize = 0;
        let mut hi: usize = self.keys.len();
        while lo < hi
            invariant
                self.wf(),
                0 <= lo <= hi <= self.keys@.len(),
                forall|i: int| 0 <= i < lo ==> self.keys@[i] < *key,
                forall|i: int| hi <= i < self.keys@.len() ==> self.keys@[i] > *key,
            decreases hi - lo,
        {
            let mid = lo + (hi - lo) / 2;
            if self.keys[mid] < *key {
                lo = mid + 1;
            } else if *key < self.keys[mid] {
                hi = mid;
            } else {
                proof {
                    lemma_strictly_sorted_distinct(self.keys@);
                    lemma_seq_assoc_index(self.keys@, self.values@, *key, mid as int);
                }
                return Some(self.values[mid]);
            }
        }
        proof {
            lemma_seq_assoc_exists(self.keys@, self.values@, *key);
        }
        None
    }
}

/// Accumulates the final verdict of a fold over a chain, newest record
/// first: `delete_keys` holds every key already decided, and `keys`/`values`
/// hold those decided keys whose verdict is a binding.
pub struct LeafNodeBuilder {
    pub keys: Vec<i64>,
    pub values: Vec<i64>,
    pub delete_keys: Vec<i64>,
}

impl LeafNodeBuilder {
    pub fn new() -> (r: Self)
        ensures
            r.keys@.len() == 0,
            r.values@.len() == 0,
            r.delete_keys@.len() == 0,
    {
        Self { keys: Vec::new(), values: Vec::new(), delete_keys: Vec::new() }
    }

    /// Appends a binding without marking its key decided.
    pub fn add(&mut self, key: i64, value: i64)
        ensures
            final(self).keys@ == old(self).keys@.push(key),
            final(self).values@ == old(self).values@.push(value),
            final(self).delete_keys@ == old(self).delete_keys@,
    {
        self.keys.push(key);
        self.values.push(value);
    }

    /// An insert or update record gives its key a final binding, unless the
    /// key was already decided by a newer record.
    pub fn add_insert_delta(&mut self, delta: &InsertDelta)
        ensures
            old(self).delete_keys@.contains(delta.key) ==> {
                &&& final(self).keys@ == old(self).keys@
                &&& final(self).values@ == old(self).values@
                &&& final(self).delete_keys@ == old(self).delete_keys@
            },
            !old(self).delete_keys@.contains(delta.key) ==> {
                &&& final(self).keys@ == old(self).keys@.push(delta.key)
                &&& final(self).values@ == old(self).values@.push(delta.value)
                &&& final(self).delete_keys@ == old(self).delete_keys@.push(delta.key)
            },
    {
        if !vec_contains(&self.delete_keys, &delta.key) {
            self.keys.push(delta.key);
            self.values.push(delta.value);
            self.delete_keys.push(delta.key);
        }
    }

    /// A delete record decides its key with no binding; a key already
    /// decided by a newer record keeps its earlier verdict, since lookups
    /// read the first occurrence.
    pub fn add_delete_delta(&mut self, delta: &DeleteDelta)
        ensures
            final(self).keys@ == old(self).keys@,
            final(self).values@ == old(self).values@,
            final(self).delete_keys@ == old(self).delete_keys@.push(delta.key),
    {
        self.delete_keys.push(delta.key);
    }

    /// Folds the base leaf in: a binding whose key no newer record decided
    /// becomes final; every decided key keeps its verdict.
    pub fn add_node(&mut self, node: &LeafNode)
        requires
            old(self).keys@.len() == old(self).values@.len(),
            node.keys@.len() == node.values@.len(),
            distinct(old(self).keys@),
            distinct(node.keys@),
            forall|k: i64| old(self).keys@.contains(k) ==> old(self).delete_keys@.contains(k),
        ensures
            final(self).delete_keys@ == old(self).delete_keys@,
            final(self).keys@.len() == final(self).values@.len(),
            distinct(final(self).keys@),
            forall|k: i64| #[trigger] final(self).keys@.contains(k) ==> old(self).keys@.contains(k)
                || node.keys@.contains(k),
            forall|k: i64| #[trigger] seq_assoc(final(self).keys@, final(self).values@, k)
                == (match seq_assoc(old(self).keys@, old(self).values@, k) {
                Some(v) => Some(v),
                None => if old(self).delete_keys@.contains(k) {
                    None
                } else {
                    seq_assoc(node.keys@, node.values@, k)
                },
            }),
    {
        let ghost k0 = self.keys@;
        let ghost v0 = self.values@;
        let ghost dels = self.delete_keys@;
        let mut j: usize = 0;
        while j < node.keys.len()
            invariant
                j <= node.keys@.len(),
                node.keys@.len() == node.values@.len(),
                distinct(node.keys@),
                k0.len() == v0.len(),
                distinct(k0),
                forall|k: i64| k0.contains(k) ==> dels.contains(k),
                self.delete_keys@ == dels,
                self.keys@.len() == self.values@.len(),
                distinct(self.keys@),
                forall|k: i64| #[trigger] self.keys@.contains(k) ==> k0.contains(k)
                    || node.keys@.take(j as int).contains(k),
                forall|k: i64| #[trigger] seq_assoc(self.keys@, self.values@, k) == (
                match seq_assoc(k0, v0, k) {
                    Some(v) => Some(v),
                    None => if dels.contains(k) {
                        None
                    } else {
                        seq_assoc(node.keys@.take(j as int), node.values@.take(j as int), k)
                    },
                }),
            decreases node.keys@.len() - j,
        {
            let nk = node.keys[j];
            let nv = node.values[j];
            let ghost sk = self.keys@;
            let ghost sv = self.values@;
            let ghost tk = node.keys@.take(j as int);
            let ghost tv = node.values@.take(j as int);
            proof {
                assert(node.keys@.take(j + 1) =~= tk + seq![nk]);
                assert(node.values@.take(j + 1) =~= tv + seq![nv]);
            }
            if !vec_contains(&self.delete_keys, &nk) {
                self.keys.push(nk);
                self.values.push(nv);
                proof {
                    assert(self.keys@ =~= sk + seq![nk]);
                    assert(self.values@ =~= sv + seq![nv]);
                    // the pushed key is new: it is neither finally bound by a
                    // newer record (it is undecided) nor an earlier base entry
                    assert(!sk.contains(nk));
                    assert forall|a: int, b: int| 0 <= a < b < self.keys@.len() implies self.keys@[a]
                        != self.keys@[b] by {
                        if b == sk.len() {
                            assert(sk.contains(sk[a]));
                        }
                    }
                    assert forall|k: i64| #[trigger] self.keys@.contains(k) implies k0.contains(k)
                        || node.keys@.take(j + 1).contains(k) by {
                        let idx = choose|idx: int|
                            0 <= idx < self.keys@.len() && self.keys@[idx] == k;
                        if idx < sk.len() {
                            assert(sk.contains(k));
                        } else {
                            assert(node.keys@.take(j + 1)[j as int] == nk);
                        }
                    }
                    assert forall|k: i64| #[trigger] seq_assoc(self.keys@, self.values@, k) == (
                    match seq_assoc(k0, v0, k) {
                        Some(v) => Some(v),
                        None => if dels.contains(k) {
                            None
                        } else {
                            seq_assoc(node.keys@.take(j + 1), node.values@.take(j + 1), k)
                        },
                    }) by {
                        assert(seq_assoc(sk, sv, k) == (match seq_assoc(k0, v0, k) {
                            Some(v) => Some(v),
                            None => if dels.contains(k) {
                                None
                            } else {
                                seq_assoc(tk, tv, k)
                            },
                        }));
                        lemma_seq_assoc_singleton(nk, nv, k);
                        lemma_seq_assoc_append(sk, sv, seq![nk], seq![nv], k);
                        lemma_seq_assoc_append(tk, tv, seq![nk], seq![nv], k);
                        if k == nk {
                            lemma_seq_assoc_exists(tk, tv, k);
                            assert(!tk.contains(nk)) by {
                                if tk.contains(nk) {
                                    let idx = choose|idx: int|
                                        0 <= idx < tk.len() && tk[idx] == nk;
                                    assert(node.keys@[idx] == node.keys@[j as int]);
                                }
                            }
                            assert(seq_assoc(tk, tv, k) is None);
                        }
                    }
                }
            } else {
                proof {
                    assert forall|k: i64| #[trigger] seq_assoc(self.keys@, self.values@, k) == (
                    match seq_assoc(k0, v0, k) {
                        Some(v) => Some(v),
                        None => if dels.contains(k) {
                            None
                        } else {
                            seq_assoc(node.keys@.take(j + 1), node.values@.take(j + 1), k)
                        },
                    }) by {
                        assert(seq_assoc(self.keys@, self.values@, k) == (match seq_assoc(
                            k0,
                            v0,
                            k,
                        ) {
                            Some(v) => Some(v),
                            None => if dels.contains(k) {
                                None
                            } else {
                                seq_assoc(tk, tv, k)
                            },
                        }));
                        lemma_seq_assoc_singleton(nk, nv, k);
                        lemma_seq_assoc_append(tk, tv, seq![nk], seq![nv], k);
                    }
                    assert forall|k: i64| #[trigger] self.keys@.contains(k) implies k0.contains(k)
                        || node.keys@.take(j + 1).contains(k) by {
                        if tk.contains(k) {
                            let idx = choose|idx: int| 0 <= idx < tk.len() && tk[idx] == k;
                            assert(node.keys@.take(j + 1)[idx] == k);
                        }
                    }
                }
            }
            j = j + 1;
        }
        proof {
            assert(node.keys@.take(node.keys@.len() as int) =~= node.keys@);
            assert(node.values@.take(node.values@.len() as int) =~= node.values@);
        }
    }

    /// Re-sorts the accumulated final bindings by key into one dense leaf;
    /// the bindings themselves are unchanged.
    pub fn build(self) -> (r: LeafNode)
        requires
            self.keys@.len() == self.values@.len(),
            distinct(self.keys@),
        ensures
            r.wf(),
            forall|k: i64| #[trigger] r.spec_get(k) == seq_assoc(self.keys@, self.values@, k),
    {
        let mut out_keys: Vec<i64> = Vec::new();
        let mut out_values: Vec<i64> = Vec::new();
        let mut i: usize = 0;
        while i < self.keys.len()
            invariant
                i <= self.keys@.len(),
                self.keys@.len() == self.values@.len(),
                distinct(self.keys@),
                out_keys@.len() == out_values@.len(),
                strictly_sorted(out_keys@),
                forall|k: i64| #[trigger] seq_assoc(out_keys@, out_values@, k) == seq_assoc(
                    self.keys@.take(i as int),
                    self.values@.take(i as int),
                    k,
                ),
            decreases self.keys@.len() - i,
        {
            let nk = self.keys[i];
            let nv = self.values[i];
            let ghost ok = out_keys@;
            let ghost ov = out_values@;
            let ghost tk = self.keys@.take(i as int);
            let ghost tv = self.values@.take(i as int);
            proof {
                assert(self.keys@.take(i + 1) =~= tk + seq![nk]);
                assert(self.values@.take(i + 1) =~= tv + seq![nv]);
                // the inserted key is not among those already placed
                assert(seq_assoc(ok, ov, nk) == seq_assoc(tk, tv, nk));
                lemma_seq_assoc_exists(tk, tv, nk);
                assert(!tk.contains(nk)) by {
                    if tk.contains(nk) {
                        let idx = choose|idx: int| 0 <= idx < tk.len() && tk[idx] == nk;
                        assert(self.keys@[idx] == self.keys@[i as int]);
                    }
                }
                lemma_seq_assoc_exists(ok, ov, nk);
                assert(!ok.contains(nk));
            }
            // find the sorted position for the key
            let mut p: usize = 0;
            while p < out_keys.len() && out_keys[p] < nk
                invariant
                    p <= out_keys@.len(),
                    forall|a: int| 0 <= a < p ==> out_keys@[a] < nk,
                decreases out_keys@.len() - p,
            {
                p = p + 1;
            }
            proof {
                if p < ok.len() {
                    assert(ok.contains(ok[p as int]));
                    assert(ok[p as int] > nk);
                }
            }
            out_keys.insert(p, nk);
            out_values.insert(p, nv);
            proof {
                assert(out_keys@ =~= ok.take(p as int) + (seq![nk] + ok.skip(p as int)));
                assert(out_values@ =~= ov.take(p as int) + (seq![nv] + ov.skip(p as int)));
                assert forall|a: int, b: int| 0 <= a < b < out_keys@.len() implies out_keys@[a]
                    < out_keys@[b] by {
                    if a < p && b > p {
                        assert(ok[a] < nk);
                        assert(ok[b - 1] > nk) by {
                            if b - 1 > p {
                                assert(ok[p as int] < ok[b - 1]);
                            }
                        }
                    } else if a == p && b > p {
                        assert(ok[b - 1] > nk) by {
                            if b - 1 > p {
                                assert(ok[p as int] < ok[b - 1]);
                            }
                        }
                    }
                }
                assert forall|k: i64| #[trigger] seq_assoc(out_keys@, out_values@, k) == seq_assoc(
                    self.keys@.take(i + 1),
                    self.values@.take(i + 1),
                    k,
                ) by {
                    assert(seq_assoc(ok, ov, k) == seq_assoc(tk, tv, k));
                    lemma_seq_assoc_singleton(nk, nv, k);
                    lemma_seq_assoc_append(
                        ok.take(p as int),
                        ov.take(p as int),
                        seq![nk] + ok.skip(p as int),
                        seq![nv] + ov.skip(p as int),
                        k,
                    );
                    lemma_seq_assoc_append(seq![nk], seq![nv], ok.skip(p as int), ov.skip(p as int), k);
                    lemma_seq_assoc_append(ok.take(p as int), ov.take(p as int), ok.skip(p as int), ov.skip(p as int), k);
                    assert(ok =~= ok.take(p as int) + ok.skip(p as int));
                    assert(ov =~= ov.take(p as int) + ov.skip(p as int));
                    lemma_seq_assoc_append(tk, tv, seq![nk], seq![nv], k);
                    if k == nk {
                        assert(seq_assoc(ok.take(p as int), ov.take(p as int), nk) is None) by {
                            lemma_seq_assoc_exists(ok.take(p as int), ov.take(p as int), nk);
                            if exists|idx: int|
                                0 <= idx < ok.take(p as int).len() && ok.take(p as int)[idx] == nk {
                                let idx = choose|idx: int|
                                    0 <= idx < ok.take(p as int).len() && ok.take(p as int)[idx]
                                        == nk;
                                assert(ok.contains(nk));
                            }
                        }
                    }
                }
            }
            i = i + 1;
        }
        proof {
            assert(self.keys@.take(self.keys@.len() as int) =~= self.keys@);
            assert(self.values@.take(self.values@.len() as int) =~= self.values@);
        }
        LeafNode { keys: out_keys, values: out_values }
    }
}

/// Whether `v` holds `x`.
pub fn vec_contains(v: &Vec<i64>, x: &i64) -> (r: bool)
    ensures
        r == v@.contains(*x),
{
    let mut i: usize = 0;
    while i < v.len()
        invariant
            0 <= i <= v@.len(),
            forall|j: int| 0 <= j < i ==> v@[j] != *x,
        decreases v@.len() - i,
    {
        if v[i] == *x {
            return true;
        }
        i = i + 1;
    }
    false
}

} // verus!
