//! Entity handles: a dense integer index shared by every component store.
use vstd::prelude::*;

verus! {

/// Identifies one entity; two handles are equal when their indices are.
#[derive(Clone, Copy, PartialEq, Eq, Structural, Debug, Hash)]
pub struct Handle {
    pub index: u32,
}

impl Handle {
    pub fn new(index: u32) -> (r: Handle)
        ensures
            r.index == index,
    {
        Handle { index }
    }

    pub fn get_index(&self) -> (r: u32)
        ensures
            r == self.index,
    {
        self.index
    }
}

} // verus!
