//! The edges of a net.
use vstd::prelude::*;

verus! {

/// One end of a wire.
///
/// A wire is a cell of the heap that two ports share. It is never cloned: each of
/// its two ends is linked once, and the second link joins what the two ends were
/// linked to.
#[derive(Debug)]
pub struct Wire {
    /// The heap cell of the wire.
    pub cell: usize,
}

} // verus!
