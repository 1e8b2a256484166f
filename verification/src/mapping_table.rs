//! The mapping table: a fixed-capacity array of chains, indexed by page
//! identifier, with a monotonic counter handing out fresh identifiers.

use vstd::prelude::*;

use crate::errors::error::MappingTableError;
use crate::lockfree_list::LockFreeList;

verus! {

/// Fixed capacity of the table; every live page identifier lies below it.
pub const MAPPING_TABLE_SIZE: usize = 0x10_0000;

/// One chain head per page identifier, plus the next free identifier.
pub struct MappingTable {
    pub map: Vec<LockFreeList>,
    pub next_id: usize,
}

impl MappingTable {
    pub open spec fn wf(&self) -> bool {
        &&& self.map@.len() == MAPPING_TABLE_SIZE
        &&& self.next_id <= MAPPING_TABLE_SIZE
    }

    /// A table of empty chains, with no identifier handed out yet.
    pub fn new() -> (r: Self)
        ensures
            r.wf(),
            r.next_id == 0,
    {
        let mut map: Vec<LockFreeList> = Vec::new();
        let mut i: usize = 0;
        while i < MAPPING_TABLE_SIZE
            invariant
                map@.len() == i,
                i <= MAPPING_TABLE_SIZE,
            decreases MAPPING_TABLE_SIZE - i,
        {
            map.push(LockFreeList::new());
            i = i + 1;
        }
        Self { map, next_id: 0 }
    }

    /// The chain of page `id`; callers only pass identifiers obtained from
    /// `new_page` or read out of an inner node's child pointers.
    pub fn get(&self, id: usize) -> (r: &LockFreeList)
        requires
            id < self.map@.len(),
        ensures
            r == &self.map@[id as int],
    {
        &self.map[id]
    }

    /// Hands out the next free page identifier, or reports capacity
    /// exhaustion; never hands out the same identifier twice.
    pub fn new_page(&mut self) -> (r: Result<usize, MappingTableError>)
        requires
            old(self).wf(),
        ensures
            final(self).wf(),
            final(self).map@ == old(self).map@,
            match r {
                Ok(page) => {
                    &&& old(self).next_id < MAPPING_TABLE_SIZE
                    &&& page == old(self).next_id
                    &&& final(self).next_id == old(self).next_id + 1
                },
                Err(e) => {
                    &&& old(self).next_id == MAPPING_TABLE_SIZE
                    &&& final(self).next_id == old(self).next_id
                    &&& e == MappingTableError::NewPageError(old(self).next_id)
                },
            },
    {
        let page = self.next_id;
        if page >= MAPPING_TABLE_SIZE {
            Err(MappingTableError::NewPageError(page))
        } else {
            self.next_id = page + 1;
            Ok(page)
        }
    }
}

} // verus!

