//! The data unit that a propagation run disseminates.

use vstd::prelude::*;

verus! {

/// An immutable, content-addressed unit of data.
///
/// The identifier is produced upstream by the storage collaborator, which
/// derives it deterministically from the block's content; the simulator
/// treats it as an opaque, equality-comparable key and never inspects the
/// payload behind it. Parent identifiers are carried along unexamined.
pub struct Block {
    /// Content-derived identifier; identical content yields an identical id.
    pub id: String,
    /// Identifiers of the blocks this one references.
    pub parents: Vec<String>,
}

impl Block {
    /// Wraps an externally derived identifier and parent list as a block.
    pub fn new(id: String, parents: Vec<String>) -> (b: Block)
        ensures
            b.id@ == id@,
            b.parents@ == parents@,
    {
        Block { id, parents }
    }
}

} // verus!
