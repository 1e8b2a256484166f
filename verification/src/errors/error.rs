//! Typed failures of the mapping table.

use vstd::prelude::*;

verus! {

/// Failure to hand out a page identifier: the table's fixed capacity is
/// exhausted. Carries the identifier that could not be allocated.
#[derive(Clone, Copy, Debug, PartialEq, Eq, Structural)]
pub enum MappingTableError {
    NewPageError(usize),
}

} // verus!
