use vstd::prelude::*;

verus! {

/// In-memory model of one segment file: a capacity-bounded, append-only byte
/// store identified by the logical offset of the first record it may contain.
/// The byte-level framing and read/write mechanics belong to the file-backed
/// collaborator; the file set only reads the identity and capacity kept here.
#[derive(Clone, Copy, PartialEq, Eq, Structural, Debug)]
pub struct Segment {
    starting_offset: u64,
    max_bytes: usize,
}

impl Segment {
    /// The logical offset of the first record this segment may contain; also
    /// its identity within a log directory.
    pub closed spec fn start(self) -> u64 {
        self.starting_offset
    }

    /// The configured byte capacity of this segment.
    pub closed spec fn capacity(self) -> usize {
        self.max_bytes
    }

    /// Create, or reopen from its recovered identity, the segment whose first
    /// record has offset `starting_offset`, bounded by `max_bytes`.
    pub fn new(starting_offset: u64, max_bytes: usize) -> (r: Segment)
        ensures
            r.start() == starting_offset,
            r.capacity() == max_bytes,
    {
        Segment { starting_offset, max_bytes }
    }

    /// The offset of the first record this segment may contain.
    pub fn starting_offset(&self) -> (r: u64)
        ensures
            r == self.start(),
    {
        self.starting_offset
    }
}

} // verus!
