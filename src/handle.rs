use vstd::prelude::*;

verus! {

/// A copyable, non-owning reference to a cell of a collector.
///
/// A handle names the arena slot of its cell together with the generation the
/// slot had when the cell was allocated. Once the cell is swept the slot's
/// generation moves on, so the handle no longer names a live cell.
#[derive(Clone, Copy, Debug, PartialEq, Eq, Structural)]
pub struct Handle {
    pub index: usize,
    pub generation: u64,
}

impl Handle {
    /// The slot index this handle refers to.
    pub fn index(&self) -> (r: usize)
        ensures
            r == self.index,
    {
        self.index
    }

    /// The generation of the slot at the time the cell was allocated.
    pub fn generation(&self) -> (r: u64)
        ensures
            r == self.generation,
    {
        self.generation
    }
}

} // verus!
