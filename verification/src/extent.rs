use vstd::prelude::*;

verus! {

/// A byte range of the active log that holds exactly one record.
#[derive(Clone, Copy, Debug, PartialEq, Eq, Structural)]
pub struct Extent {
    pub offset: u64,
    pub length: u64,
}

impl Extent {
    /// The offset just past the last byte of the range.
    pub open spec fn end(self) -> int {
        self.offset + self.length
    }
}

} // verus!
