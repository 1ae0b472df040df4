use vstd::prelude::*;

verus! {

/// In-memory model of one index file: a capacity-bounded mapping from logical
/// record offsets to byte positions inside its paired segment. The entry
/// encoding and lookup mechanics belong to the file-backed collaborator; the
/// file set reads the identity, the next expected offset, and whether the
/// index still accepts writes.
#[derive(Clone, Copy, PartialEq, Eq, Structural, Debug)]
pub struct Index {
    starting_offset: u64,
    next_offset: u64,
    max_bytes: usize,
    readonly: bool,
}

impl Index {
    /// The logical offset of the first record this index may cover; also its
    /// identity within a log directory.
    pub closed spec fn start(self) -> u64 {
        self.starting_offset
    }

    /// One past the offset of the last record assigned in this index.
    pub closed spec fn next(self) -> u64 {
        self.next_offset
    }

    /// The configured byte capacity of this index.
    pub closed spec fn capacity(self) -> usize {
        self.max_bytes
    }

    /// Whether the index has been closed for further writes.
    pub closed spec fn is_readonly(self) -> bool {
        self.readonly
    }

    /// Offsets are assigned upward from the starting offset, so the next
    /// expected offset never precedes it.
    pub open spec fn wf(self) -> bool {
        self.start() <= self.next()
    }

    /// This index with writes disabled and everything else unchanged.
    pub closed spec fn read_only_form(self) -> Index {
        Index { readonly: true, ..self }
    }

    /// Demoting an index to read-only changes only its write flag.
    pub proof fn lemma_read_only_form(self)
        ensures
            self.read_only_form().start() == self.start(),
            self.read_only_form().next() == self.next(),
            self.read_only_form().capacity() == self.capacity(),
            self.read_only_form().is_readonly(),
    {
    }

    /// Create the empty, writable index whose first record has offset
    /// `starting_offset`, bounded by `max_bytes`.
    pub fn new(starting_offset: u64, max_bytes: usize) -> (r: Index)
        ensures
            r.start() == starting_offset,
            r.next() == starting_offset,
            r.capacity() == max_bytes,
            !r.is_readonly(),
            r.wf(),
    {
        Index { starting_offset, next_offset: starting_offset, max_bytes, readonly: false }
    }

    /// Reopen an index from its recovered state. Reopened indexes always
    /// accept writes; recovery must demote the ones that represent closed
    /// history.
    pub fn open_existing(starting_offset: u64, next_offset: u64, max_bytes: usize) -> (r: Index)
        requires
            starting_offset <= next_offset,
        ensures
            r.start() == starting_offset,
            r.next() == next_offset,
            r.capacity() == max_bytes,
            !r.is_readonly(),
            r.wf(),
    {
        Index { starting_offset, next_offset, max_bytes, readonly: false }
    }

    /// The offset of the first record this index may cover.
    pub fn starting_offset(&self) -> (r: u64)
        ensures
            r == self.start(),
    {
        self.starting_offset
    }

    /// One past the offset of the last record assigned in this index.
    pub fn next_offset(&self) -> (r: u64)
        ensures
            r == self.next(),
    {
        self.next_offset
    }

    /// Whether the index has been closed for further writes.
    pub fn is_read_only(&self) -> (r: bool)
        ensures
            r == self.is_readonly(),
    {
        self.readonly
    }

    /// Close this index for further writes. The authoritative signal that a
    /// retired pair's index will receive no more entries.
    pub fn set_readonly(&mut self)
        ensures
            *final(self) == old(self).read_only_form(),
            final(self).start() == old(self).start(),
            final(self).next() == old(self).next(),
            final(self).capacity() == old(self).capacity(),
            final(self).is_readonly(),
    {
        self.readonly = true;
    }

    /// Record that offsets up to (but not including) `next_offset` have been
    /// assigned in this index. Stands for the effect of the collaborator's
    /// append operations on the next expected offset.
    pub fn advance_next_offset(&mut self, next_offset: u64)
        requires
            !old(self).is_readonly(),
            old(self).next() <= next_offset,
        ensures
            final(self).start() == old(self).start(),
            final(self).next() == next_offset,
            final(self).capacity() == old(self).capacity(),
            !final(self).is_readonly(),
    {
        self.next_offset = next_offset;
    }
}

} // verus!
