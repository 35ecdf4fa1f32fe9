//! The memory of a net.
use vstd::prelude::*;

use crate::runtime::port::Port;

verus! {

/// The cells of wires. A runtime that is given a heap starts with all of it unused.
#[derive(Debug)]
pub struct Heap {
    /// What the first linked end of each wire was linked to.
    pub cells: Vec<Option<Port>>,
    /// Cells that no wire uses.
    pub free: Vec<usize>,
}

impl Heap {
    /// A heap without cells.
    pub fn new() -> (heap: Heap)
        ensures
            heap.cells@ == Seq::<Option<Port>>::empty(),
            heap.free@ == Seq::<usize>::empty(),
    {
        Heap { cells: Vec::new(), free: Vec::new() }
    }
}

} // verus!
