//! Delta records: immutable modification records layered on a page's chain
//! above its base node. An insert or update binds a key to a new value; a
//! delete tombstones a key. Newer records shadow older chain content.

use vstd::prelude::*;

verus! {

/// Binds `key -> value`, shadowing any older binding for `key`.
#[derive(Clone)]
pub struct InsertDelta {
    pub key: i64,
    pub value: i64,
}

impl InsertDelta {
    pub fn new(key: i64, value: i64) -> (r: Self)
        ensures
            r.key == key,
            r.value == value,
    {
        Self { key, value }
    }
}

/// Rebinds an existing `key -> value`; resolved exactly like an insert,
/// but tracked as a distinct record kind.
#[derive(Clone)]
pub struct UpdateDelta {
    pub key: i64,
    pub value: i64,
}

impl UpdateDelta {
    pub fn new(key: i64, value: i64) -> (r: Self)
        ensures
            r.key == key,
            r.value == value,
    {
        Self { key, value }
    }
}

/// Tombstones `key`: lookups for it resolve to "absent" until a newer
/// insert or update for the same key appears above it.
#[derive(Clone)]
pub struct DeleteDelta {
    pub key: i64,
}

impl DeleteDelta {
    pub fn new(key: i64) -> (r: Self)
        ensures
            r.key == key,
    {
        Self { key }
    }
}

#[derive(Clone)]
pub enum DeltaNode {
    Insert(InsertDelta),
    Update(UpdateDelta),
    Delete(DeleteDelta),
}

/// How one delta record resolves a key: not this record's key, a tombstone,
/// or a current binding.
#[derive(Clone, Copy, Debug, PartialEq, Eq, Structural)]
pub enum DeltaGetResult {
    KeyNotFound,
    NoneValue,
    Found(i64),
}

impl DeltaNode {
    /// The key this record is about.
    pub open spec fn spec_key(&self) -> i64 {
        match self {
            DeltaNode::Insert(d) => d.key,
            DeltaNode::Update(d) => d.key,
            DeltaNode::Delete(d) => d.key,
        }
    }

    /// How this record resolves `key`.
    pub open spec fn spec_get(&self, key: i64) -> DeltaGetResult {
        match self {
            DeltaNode::Insert(d) => if d.key == key {
                DeltaGetResult::Found(d.value)
            } else {
                DeltaGetResult::KeyNotFound
            },
            DeltaNode::Update(d) => if d.key == key {
                DeltaGetResult::Found(d.value)
            } else {
                DeltaGetResult::KeyNotFound
            },
            DeltaNode::Delete(d) => if d.key == key {
                DeltaGetResult::NoneValue
            } else {
                DeltaGetResult::KeyNotFound
            },
        }
    }

    pub fn get(&self, key: &i64) -> (r: DeltaGetResult)
        ensures
            r == self.spec_get(*key),
    {
        match self {
            DeltaNode::Insert(d) => if d.key == *key {
                DeltaGetResult::Found(d.value)
            } else {
                DeltaGetResult::KeyNotFound
            },
            DeltaNode::Update(d) => if d.key == *key {
                DeltaGetResult::Found(d.value)
            } else {
                DeltaGetResult::KeyNotFound
            },
            DeltaNode::Delete(d) => if d.key == *key {
                DeltaGetResult::NoneValue
            } else {
                DeltaGetResult::KeyNotFound
            },
        }
    }
}

} // verus!
