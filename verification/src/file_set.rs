use vstd::prelude::*;

use crate::index::Index;
use crate::options::LogOptions;
use crate::segment::Segment;

verus! {

/// A recovery fault: the log directory held a segment with no index file
/// sharing its starting offset, an unrecoverable inconsistency. Carries the
/// smallest such starting offset.
#[derive(Clone, Copy, PartialEq, Eq, Structural, Debug)]
pub enum LogError {
    MissingIndex(u64),
}

/// The orchestrator of a log directory: exactly one writable (active)
/// segment/index pair, plus the retired, read-only pairs ordered by starting
/// offset. Writers target the active pair; readers ask `find` which pair is
/// responsible for an offset; `roll_segment` retires the active pair and opens
/// a fresh one.
pub struct FileSet {
    active: (Index, Segment),
    closed: Vec<(Index, Segment)>,
    opts: LogOptions,
}

/// A segment/index pair is consistent when both members carry the same
/// starting offset, the index's own invariant holds, and—for retired
/// pairs—the index no longer accepts writes.
pub open spec fn closed_pair_wf(p: (Index, Segment)) -> bool {
    &&& p.0.wf()
    &&& p.0.start() == p.1.start()
    &&& p.0.is_readonly()
}

/// Some discovered index carries the starting offset `off`.
pub open spec fn has_index_at(inds: Seq<Index>, off: u64) -> bool {
    exists|k: int| 0 <= k < inds.len() && inds[k].start() == off
}

/// The discovered index carrying the starting offset `off`; meaningful when
/// `has_index_at(inds, off)` holds and index starting offsets are distinct.
pub open spec fn index_at(inds: Seq<Index>, off: u64) -> Index {
    inds[choose|k: int| 0 <= k < inds.len() && inds[k].start() == off]
}

/// No two discovered segments share a starting offset. File names encode the
/// starting offset, so one directory cannot hold two segment files with the
/// same one.
pub open spec fn seg_starts_distinct(segs: Seq<Segment>) -> bool {
    forall|i: int, j: int| 0 <= i < j < segs.len() ==> segs[i].start() != segs[j].start()
}

/// No two discovered indexes share a starting offset.
pub open spec fn index_starts_distinct(inds: Seq<Index>) -> bool {
    forall|i: int, j: int| 0 <= i < j < inds.len() ==> inds[i].start() != inds[j].start()
}

/// The state every index is in right after being reopened from disk: its own
/// invariant holds and it still accepts writes.
pub open spec fn indexes_as_opened(inds: Seq<Index>) -> bool {
    forall|k: int| 0 <= k < inds.len() ==> (#[trigger] inds[k]).wf() && !inds[k].is_readonly()
}

/// Segments in strictly increasing order of starting offset.
pub open spec fn segs_sorted(segs: Seq<Segment>) -> bool {
    forall|i: int, j: int| 0 <= i < j < segs.len() ==> segs[i].start() < segs[j].start()
}

/// With distinct starting offsets, `index_at` names exactly the index found at
/// any position carrying that offset.
proof fn lemma_index_at_unique(inds: Seq<Index>, off: u64, k: int)
    requires
        index_starts_distinct(inds),
        0 <= k < inds.len(),
        inds[k].start() == off,
    ensures
        index_at(inds, off) == inds[k],
{
    let k0 = choose|k0: int| 0 <= k0 < inds.len() && inds[k0].start() == off;
    assert(0 <= k0 < inds.len() && inds[k0].start() == off);
    if k0 != k {
        assert(inds[k0].start() != inds[k].start());
    }
}

/// What a successful load promises of the reconstructed file set, given the
/// segments and indexes discovered in the log directory. With no segments at
/// all, the file set starts a fresh pair at offset 0 and holds no closed
/// history. Otherwise the segment with the greatest starting offset and its
/// index, still writable, form the active pair, and every other segment sits
/// in the closed collection beside its index, demoted to read-only.
pub open spec fn load_result_ok(
    opts: LogOptions,
    segs: Seq<Segment>,
    inds: Seq<Index>,
    fs: FileSet,
) -> bool {
    &&& fs.wf()
    &&& fs.options() == opts
    &&& if segs.len() == 0 {
        &&& fs.closed_pairs().len() == 0
        &&& fs.active_start() == 0
        &&& fs.active_pair().0.next() == 0
        &&& fs.active_pair().0.capacity() == opts.index_max_bytes
        &&& !fs.active_pair().0.is_readonly()
        &&& fs.active_pair().1.start() == 0
        &&& fs.active_pair().1.capacity() == opts.log_max_bytes
    } else {
        &&& fs.closed_pairs().len() == segs.len() - 1
        &&& segs.contains(fs.active_pair().1)
        &&& forall|i: int| 0 <= i < segs.len() ==> (#[trigger] segs[i]).start() <= fs.active_start()
        &&& fs.active_pair().0 == index_at(inds, fs.active_start())
        &&& !fs.active_pair().0.is_readonly()
        &&& forall|i: int|
            0 <= i < segs.len() && (#[trigger] segs[i]).start() != fs.active_start()
                ==> exists|j: int|
                0 <= j < fs.closed_pairs().len() && #[trigger] fs.closed_pairs()[j] == (
                index_at(inds, segs[i].start()).read_only_form(),
                segs[i],
            )
        &&& forall|j: int|
            0 <= j < fs.closed_pairs().len() ==> segs.contains((#[trigger] fs.closed_pairs()[j]).1)
    }
}

/// The fault a failed load reports: some segment with starting offset `off`
/// has no index sharing that offset, and `off` is the smallest such offset.
pub open spec fn missing_index_at(segs: Seq<Segment>, inds: Seq<Index>, off: u64) -> bool {
    &&& exists|i: int| 0 <= i < segs.len() && (#[trigger] segs[i]).start() == off
    &&& !has_index_at(inds, off)
    &&& forall|i: int|
        0 <= i < segs.len() && (#[trigger] segs[i]).start() < off ==> has_index_at(
            inds,
            segs[i].start(),
        )
}

/// When some index carries the offset `off`, `index_at` picks one that does.
proof fn lemma_index_at_start(inds: Seq<Index>, off: u64)
    requires
        has_index_at(inds, off),
    ensures
        index_at(inds, off).start() == off,
{
    let k = choose|k: int| 0 <= k < inds.len() && inds[k].start() == off;
    assert(0 <= k < inds.len() && inds[k].start() == off);
}

/// A discovered index picked by `index_at` is in the state it was opened in.
proof fn lemma_index_at_wf(inds: Seq<Index>, off: u64)
    requires
        has_index_at(inds, off),
        indexes_as_opened(inds),
    ensures
        index_at(inds, off).wf(),
        !index_at(inds, off).is_readonly(),
{
    let k = choose|k: int| 0 <= k < inds.len() && inds[k].start() == off;
    assert(0 <= k < inds.len() && inds[k].start() == off);
    assert(inds[k].wf() && !inds[k].is_readonly());
}

/// Linear scan for the discovered index carrying the starting offset `off`.
fn find_index_for(indexes: &Vec<Index>, off: u64) -> (r: Option<usize>)
    ensures
        match r {
            Some(k) => k < indexes@.len() && indexes@[k as int].start() == off,
            None => !has_index_at(indexes@, off),
        },
{
    let mut k: usize = 0;
    while k < indexes.len()
        invariant
            k <= indexes@.len(),
            forall|j: int| 0 <= j < k ==> indexes@[j].start() != off,
        decreases indexes@.len() - k,
    {
        if indexes[k].starting_offset() == off {
            return Some(k);
        }
        k += 1;
    }
    None
}

/// Insert a segment with a fresh starting offset into a vector kept in
/// strictly increasing starting-offset order.
fn insert_segment_sorted(segs: &mut Vec<Segment>, s: Segment)
    requires
        segs_sorted(old(segs)@),
        forall|i: int| 0 <= i < old(segs)@.len() ==> old(segs)@[i].start() != s.start(),
    ensures
        final(segs)@.len() == old(segs)@.len() + 1,
        segs_sorted(final(segs)@),
        final(segs)@.contains(s),
        forall|i: int| 0 <= i < old(segs)@.len() ==> final(segs)@.contains(#[trigger] old(segs)@[i]),
        forall|k: int|
            0 <= k < final(segs)@.len() ==> final(segs)@[k] == s || old(segs)@.contains(
                #[trigger] final(segs)@[k],
            ),
{
    let ghost orig = segs@;
    let mut pos: usize = 0;
    loop
        invariant
            segs@ == orig,
            segs_sorted(segs@),
            forall|i: int| 0 <= i < segs@.len() ==> segs@[i].start() != s.start(),
            pos <= segs@.len(),
            forall|i: int| 0 <= i < pos ==> segs@[i].start() < s.start(),
        ensures
            pos <= segs@.len(),
            forall|i: int| 0 <= i < pos ==> segs@[i].start() < s.start(),
            pos < segs@.len() ==> segs@[pos as int].start() > s.start(),
        decreases segs@.len() - pos,
    {
        if pos == segs.len() {
            break ;
        }
        if segs[pos].starting_offset() >= s.starting_offset() {
            break ;
        }
        pos += 1;
    }
    segs.insert(pos, s);
    proof {
        assert forall|i: int| 0 <= i < orig.len() implies segs@.contains(#[trigger] orig[i]) by {
            if i < pos {
                assert(segs@[i] == orig[i]);
            } else {
                assert(segs@[i + 1] == orig[i]);
            }
        }
        assert(segs@[pos as int] == s);
        assert forall|k: int|
            0 <= k < segs@.len() && segs@[k] != s implies orig.contains(segs@[k]) by {
            if k < pos {
                assert(segs@[k] == orig[k]);
            } else if k > pos {
                assert(segs@[k] == orig[k - 1]);
            }
        }
    }
}

impl FileSet {
    /// The single writable pair.
    pub closed spec fn active_pair(self) -> (Index, Segment) {
        self.active
    }

    /// The retired pairs, in increasing order of starting offset.
    pub closed spec fn closed_pairs(self) -> Seq<(Index, Segment)> {
        self.closed@
    }

    /// The configuration this file set was loaded with.
    pub closed spec fn options(self) -> LogOptions {
        self.opts
    }

    /// The starting offset of the active pair: the largest starting offset of
    /// any pair this file set knows.
    pub open spec fn active_start(self) -> u64 {
        self.active_pair().0.start()
    }

    /// The invariants a file set establishes at load and preserves across
    /// rolls: the active pair's members share a starting offset, every closed
    /// pair is consistent and read-only, every closed pair precedes the active
    /// pair, and closed starting offsets are strictly increasing.
    pub open spec fn wf(self) -> bool {
        &&& self.active_pair().0.wf()
        &&& self.active_pair().0.start() == self.active_pair().1.start()
        &&& forall|i: int|
            0 <= i < self.closed_pairs().len() ==> closed_pair_wf(#[trigger] self.closed_pairs()[i])
        &&& forall|i: int|
            0 <= i < self.closed_pairs().len() ==> (#[trigger] self.closed_pairs()[i]).0.start()
                < self.active_start()
        &&& forall|i: int, j: int|
            0 <= i < j < self.closed_pairs().len() ==> self.closed_pairs()[i].0.start()
                < self.closed_pairs()[j].0.start()
    }

    /// Reconstruct a file set from the segments and indexes discovered in the
    /// log directory, in any order. Every segment is paired with the index
    /// sharing its starting offset; a segment with no such index is an
    /// unrecoverable inconsistency and aborts the load, reporting the smallest
    /// offending offset. Indexes with no matching segment are discarded. The
    /// pair with the greatest starting offset stays writable and becomes
    /// active—or, with nothing discovered, a fresh pair is started at offset
    /// 0—and every other pair is demoted to read-only closed history.
    ///
    /// Starting offsets are distinct on each side because file names encode
    /// them, and indexes arrive writable because that is how they are opened.
    pub fn load_log(opts: LogOptions, segments: Vec<Segment>, indexes: Vec<Index>) -> (r: Result<
        FileSet,
        LogError,
    >)
        requires
            seg_starts_distinct(segments@),
            index_starts_distinct(indexes@),
            indexes_as_opened(indexes@),
        ensures
            match r {
                Ok(fs) => load_result_ok(opts, segments@, indexes@, fs) && forall|i: int|
                    0 <= i < segments@.len() ==> has_index_at(
                        indexes@,
                        (#[trigger] segments@[i]).start(),
                    ),
                Err(e) => e matches LogError::MissingIndex(off) && missing_index_at(
                    segments@,
                    indexes@,
                    off,
                ),
            },
    {
        // order the discovered segments by starting offset
        let mut sorted_segs: Vec<Segment> = Vec::new();
        let mut i: usize = 0;
        while i < segments.len()
            invariant
                i <= segments@.len(),
                seg_starts_distinct(segments@),
                sorted_segs@.len() == i,
                segs_sorted(sorted_segs@),
                forall|k: int| 0 <= k < i ==> sorted_segs@.contains(#[trigger] segments@[k]),
                forall|k: int|
                    0 <= k < sorted_segs@.len() ==> exists|j: int|
                        0 <= j < i && #[trigger] sorted_segs@[k] == segments@[j],
            decreases segments@.len() - i,
        {
            let s = segments[i];
            proof {
                assert forall|k: int|
                    0 <= k < sorted_segs@.len() implies sorted_segs@[k].start() != s.start() by {
                    let j = choose|j: int| 0 <= j < i && sorted_segs@[k] == segments@[j];
                    assert(segments@[j].start() != segments@[i as int].start());
                }
            }
            let ghost prev = sorted_segs@;
            insert_segment_sorted(&mut sorted_segs, s);
            proof {
                assert forall|k: int|
                    0 <= k < i + 1 implies sorted_segs@.contains(#[trigger] segments@[k]) by {
                    if k < i {
                        let q = choose|q: int| 0 <= q < prev.len() && prev[q] == segments@[k];
                        assert(sorted_segs@.contains(prev[q]));
                    } else {
                        assert(sorted_segs@.contains(s));
                    }
                }
                assert forall|k: int| 0 <= k < sorted_segs@.len() implies exists|j: int|
                    0 <= j < i + 1 && #[trigger] sorted_segs@[k] == segments@[j] by {
                    if sorted_segs@[k] == s {
                        assert(sorted_segs@[k] == segments@[i as int]);
                    } else {
                        assert(prev.contains(sorted_segs@[k]));
                        let q = choose|q: int| 0 <= q < prev.len() && prev[q] == sorted_segs@[k];
                        let j = choose|j: int| 0 <= j < i && prev[q] == segments@[j];
                        assert(sorted_segs@[k] == segments@[j]);
                    }
                }
            }
            i += 1;
        }
        proof {
            assert forall|k: int| 0 <= k < sorted_segs@.len() implies segments@.contains(
                #[trigger] sorted_segs@[k],
            ) by {
                let j = choose|j: int|
                    0 <= j < segments@.len() && sorted_segs@[k] == segments@[j];
                assert(segments@[j] == sorted_segs@[k]);
            }
        }
        // pair every segment with the index sharing its starting offset,
        // walking upward so a failure reports the smallest unmatched offset
        let mut paired: Vec<(Index, Segment)> = Vec::new();
        let mut p: usize = 0;
        while p < sorted_segs.len()
            invariant
                p <= sorted_segs@.len(),
                index_starts_distinct(indexes@),
                indexes_as_opened(indexes@),
                segs_sorted(sorted_segs@),
                sorted_segs@.len() == segments@.len(),
                forall|k: int|
                    0 <= k < segments@.len() ==> sorted_segs@.contains(#[trigger] segments@[k]),
                forall|k: int|
                    0 <= k < sorted_segs@.len() ==> segments@.contains(#[trigger] sorted_segs@[k]),
                paired@.len() == p,
                forall|k: int| 0 <= k < p ==> (#[trigger] paired@[k]).1 == sorted_segs@[k],
                forall|k: int| 0 <= k < p ==> has_index_at(indexes@, sorted_segs@[k].start()),
                forall|k: int|
                    0 <= k < p ==> (#[trigger] paired@[k]).0 == index_at(
                        indexes@,
                        sorted_segs@[k].start(),
                    ),
            decreases sorted_segs@.len() - p,
        {
            let s = sorted_segs[p];
            match find_index_for(&indexes, s.starting_offset()) {
                Some(k) => {
                    proof {
                        lemma_index_at_unique(indexes@, s.start(), k as int);
                    }
                    let ind = indexes[k];
                    paired.push((ind, s));
                },
                None => {
                    proof {
                        assert(segments@.contains(s));
                        let w = choose|w: int| 0 <= w < segments@.len() && segments@[w] == s;
                        assert(segments@[w].start() == s.start());
                        assert forall|j: int|
                            0 <= j < segments@.len() && (#[trigger] segments@[j]).start()
                                < s.start() implies has_index_at(
                            indexes@,
                            segments@[j].start(),
                        ) by {
                            assert(sorted_segs@.contains(segments@[j]));
                            let q = choose|q: int|
                                0 <= q < sorted_segs@.len() && sorted_segs@[q] == segments@[j];
                            if q > p {
                                assert(sorted_segs@[p as int].start() < sorted_segs@[q].start());
                            }
                            assert(q < p);
                            assert(has_index_at(indexes@, sorted_segs@[q].start()));
                        }
                    }
                    return Err(LogError::MissingIndex(s.starting_offset()));
                },
            }
            p += 1;
        }
        if paired.len() == 0 {
            // nothing on disk: start a brand-new pair at offset 0
            let ind = Index::new(0, opts.index_max_bytes);
            let seg = Segment::new(0, opts.log_max_bytes);
            Ok(FileSet { active: (ind, seg), closed: paired, opts })
        } else {
            // reuse the pair with the greatest starting offset as the active one
            let ghost all_pairs = paired@;
            let active = paired.pop().unwrap();
            // demote every remaining index: closed history accepts no writes
            let mut ro: Vec<(Index, Segment)> = Vec::new();
            let mut k: usize = 0;
            while k < paired.len()
                invariant
                    k <= paired@.len(),
                    paired@ == all_pairs.subrange(0, all_pairs.len() - 1),
                    ro@.len() == k,
                    forall|j: int|
                        0 <= j < k ==> #[trigger] ro@[j] == (
                            paired@[j].0.read_only_form(),
                            paired@[j].1,
                        ),
                decreases paired@.len() - k,
            {
                let mut pr = paired[k];
                pr.0.set_readonly();
                ro.push(pr);
                k += 1;
            }
            let fs = FileSet { active, closed: ro, opts };
            proof {
                let n = sorted_segs@.len() as int;
                assert(fs.active_pair() == all_pairs[n - 1]);
                assert(fs.active_pair().1 == sorted_segs@[n - 1]);
                lemma_index_at_start(indexes@, sorted_segs@[n - 1].start());
                assert(fs.active_start() == sorted_segs@[n - 1].start());
                assert forall|j: int| 0 <= j < fs.closed_pairs().len() implies closed_pair_wf(
                    #[trigger] fs.closed_pairs()[j],
                ) && fs.closed_pairs()[j].0.start() < fs.active_start() by {
                    lemma_index_at_start(indexes@, sorted_segs@[j].start());
                    lemma_index_at_wf(indexes@, sorted_segs@[j].start());
                    index_at(indexes@, sorted_segs@[j].start()).lemma_read_only_form();
                    assert(fs.closed_pairs()[j] == (
                        index_at(indexes@, sorted_segs@[j].start()).read_only_form(),
                        sorted_segs@[j],
                    ));
                }
                assert forall|x: int, y: int|
                    0 <= x < y < fs.closed_pairs().len() implies fs.closed_pairs()[x].0.start()
                    < fs.closed_pairs()[y].0.start() by {
                    lemma_index_at_start(indexes@, sorted_segs@[x].start());
                    lemma_index_at_start(indexes@, sorted_segs@[y].start());
                    index_at(indexes@, sorted_segs@[x].start()).lemma_read_only_form();
                    index_at(indexes@, sorted_segs@[y].start()).lemma_read_only_form();
                }
                assert forall|j: int| 0 <= j < fs.closed_pairs().len() implies segments@.contains(
                    (#[trigger] fs.closed_pairs()[j]).1,
                ) by {
                    assert(fs.closed_pairs()[j].1 == sorted_segs@[j]);
                    assert(segments@.contains(sorted_segs@[j]));
                }
                lemma_index_at_wf(indexes@, sorted_segs@[n - 1].start());
                assert(segments@.contains(fs.active_pair().1));
                assert forall|i2: int|
                    0 <= i2 < segments@.len() implies (#[trigger] segments@[i2]).start()
                    <= fs.active_start() by {
                    let q = choose|q: int|
                        0 <= q < sorted_segs@.len() && sorted_segs@[q] == segments@[i2];
                    if q < n - 1 {
                        assert(sorted_segs@[q].start() < sorted_segs@[n - 1].start());
                    }
                }
                assert forall|i2: int|
                    0 <= i2 < segments@.len() && (#[trigger] segments@[i2]).start()
                        != fs.active_start() implies exists|j: int|
                    0 <= j < fs.closed_pairs().len() && #[trigger] fs.closed_pairs()[j] == (
                    index_at(indexes@, segments@[i2].start()).read_only_form(),
                    segments@[i2],
                ) by {
                    let q = choose|q: int|
                        0 <= q < sorted_segs@.len() && sorted_segs@[q] == segments@[i2];
                    assert(q < n - 1);
                    assert(fs.closed_pairs()[q] == (
                        index_at(indexes@, sorted_segs@[q].start()).read_only_form(),
                        sorted_segs@[q],
                    ));
                }
                assert forall|i2: int|
                    0 <= i2 < segments@.len() implies has_index_at(
                    indexes@,
                    (#[trigger] segments@[i2]).start(),
                ) by {
                    let q = choose|q: int|
                        0 <= q < sorted_segs@.len() && sorted_segs@[q] == segments@[i2];
                    assert(has_index_at(indexes@, sorted_segs@[q].start()));
                }
            }
            Ok(fs)
        }
    }

    /// What `find` returns for `offset`. At or past the active pair's starting
    /// offset the active pair is authoritative, whether or not the offset has
    /// been written yet. Below it, the responsible pair is the closed pair
    /// with the greatest starting offset not exceeding `offset`; none exists
    /// only when `offset` precedes every retained pair.
    pub open spec fn find_result(self, offset: u64, r: Option<(Index, Segment)>) -> bool {
        if offset >= self.active_start() {
            r == Some(self.active_pair())
        } else {
            match r {
                Some(p) => exists|i: int|
                    0 <= i < self.closed_pairs().len() && (#[trigger] self.closed_pairs()[i]) == p
                        && self.closed_pairs()[i].0.start() <= offset && (i + 1
                        < self.closed_pairs().len() ==> offset < self.closed_pairs()[i
                        + 1].0.start()),
                None => forall|i: int|
                    0 <= i < self.closed_pairs().len() ==> offset < (
                    #[trigger] self.closed_pairs()[i]).0.start(),
            }
        }
    }

    /// Return the pair responsible for `offset`: the active pair for any
    /// offset at or past its starting offset, otherwise the closed pair whose
    /// half-open offset range covers `offset`, found by a logarithmic
    /// predecessor search. `None` means the offset precedes the earliest
    /// retained data.
    pub fn find(&self, offset: u64) -> (r: Option<&(Index, Segment)>)
        requires
            self.wf(),
        ensures
            match r {
                Some(p) => self.find_result(offset, Some(*p)),
                None => self.find_result(offset, None),
            },
    {
        if offset >= self.active.0.starting_offset() {
            Some(&self.active)
        } else if self.closed.len() == 0 {
            None
        } else if offset < self.closed[0].0.starting_offset() {
            None
        } else {
            let mut lo: usize = 0;
            let mut hi: usize = self.closed.len() - 1;
            while lo < hi
                invariant
                    lo <= hi < self.closed_pairs().len(),
                    self.closed_pairs()[lo as int].0.start() <= offset,
                    hi + 1 < self.closed_pairs().len() ==> offset < self.closed_pairs()[hi
                        + 1].0.start(),
                decreases hi - lo,
            {
                let mid: usize = hi - (hi - lo) / 2;
                if self.closed[mid].0.starting_offset() <= offset {
                    lo = mid;
                } else {
                    hi = mid - 1;
                }
            }
            Some(&self.closed[lo])
        }
    }

    /// Retire the active pair into the closed collection and open a fresh
    /// active pair at the next starting offset: one past the last record
    /// assigned in the retiring index. The retiring index is closed for
    /// writes first, so no writer can race an append into a pair whose index
    /// has stopped accepting entries; forcing the retiring segment's buffered
    /// writes to durable storage is the file-backed collaborator's part of
    /// this transition. At least one record must have been assigned in the
    /// retiring pair, otherwise the fresh pair would reuse the starting
    /// offset the retiring pair already owns.
    pub fn roll_segment(&mut self)
        requires
            old(self).wf(),
            old(self).active_pair().0.start() < old(self).active_pair().0.next(),
        ensures
            final(self).wf(),
            final(self).options() == old(self).options(),
            final(self).active_start() == old(self).active_pair().0.next(),
            final(self).active_pair().1.start() == old(self).active_pair().0.next(),
            final(self).active_pair().0.next() == old(self).active_pair().0.next(),
            !final(self).active_pair().0.is_readonly(),
            final(self).active_pair().0.capacity() == old(self).options().index_max_bytes,
            final(self).active_pair().1.capacity() == old(self).options().log_max_bytes,
            final(self).closed_pairs() == old(self).closed_pairs().push(
                (old(self).active_pair().0.read_only_form(), old(self).active_pair().1),
            ),
    {
        // close the retiring index before anything else depends on its finality
        self.active.0.set_readonly();
        let next_offset: u64 = self.active.0.next_offset();
        let seg = Segment::new(next_offset, self.opts.log_max_bytes);
        let ind = Index::new(next_offset, self.opts.index_max_bytes);
        // swap the fresh pair into the active slot and retire the previous one
        let prev = self.active;
        self.active = (ind, seg);
        self.closed.push(prev);
        proof {
            let oldc = old(self).closed_pairs();
            let newc = self.closed_pairs();
            assert forall|i: int| 0 <= i < newc.len() implies closed_pair_wf(#[trigger] newc[i])
                && newc[i].0.start() < self.active_start() by {
                if i < oldc.len() {
                    assert(newc[i] == oldc[i]);
                } else {
                    assert(newc[i] == prev);
                }
            }
            assert forall|x: int, y: int| 0 <= x < y < newc.len() implies newc[x].0.start()
                < newc[y].0.start() by {
                assert(newc[x] == oldc[x]);
                if y < oldc.len() {
                    assert(newc[y] == oldc[y]);
                } else {
                    assert(newc[y] == prev);
                }
            }
        }
    }

    /// Shared access to the active pair's index.
    pub fn active_index(&self) -> (r: &Index)
        ensures
            *r == self.active_pair().0,
    {
        &self.active.0
    }

    /// Mutable access to the active pair's index. No validation is performed;
    /// the caller is responsible for the index's own capacity and
    /// offset-ordering contracts when appending.
    pub fn active_index_mut(&mut self) -> (r: &mut Index)
        ensures
            *r == old(self).active_pair().0,
            final(self).active_pair() == (*final(r), old(self).active_pair().1),
            final(self).closed_pairs() == old(self).closed_pairs(),
            final(self).options() == old(self).options(),
    {
        &mut self.active.0
    }

    /// Mutable access to the active pair's segment. No validation is
    /// performed; the caller is responsible for the segment's own capacity
    /// contract when appending.
    pub fn active_segment_mut(&mut self) -> (r: &mut Segment)
        ensures
            *r == old(self).active_pair().1,
            final(self).active_pair() == (old(self).active_pair().0, *final(r)),
            final(self).closed_pairs() == old(self).closed_pairs(),
            final(self).options() == old(self).options(),
    {
        &mut self.active.1
    }

    /// The configuration this file set was loaded with.
    pub fn log_options(&self) -> (r: &LogOptions)
        ensures
            *r == self.options(),
    {
        &self.opts
    }

    /// Ordering law: when rolls have produced closed starting offsets
    /// `o0 < o1 < ...` below the active pair's, a lookup inside the half-open
    /// range `[oi, o(i+1))` — bounded above by the active pair's starting
    /// offset for the last closed pair — returns exactly the closed pair
    /// starting at `oi`, and a lookup at or past the active pair's starting
    /// offset returns the active pair.
    pub proof fn lemma_find_ordering(self, offset: u64, r: Option<(Index, Segment)>)
        requires
            self.wf(),
            self.find_result(offset, r),
        ensures
            offset >= self.active_start() ==> r == Some(self.active_pair()),
            forall|i: int|
                0 <= i < self.closed_pairs().len() && offset < self.active_start() && (
                #[trigger] self.closed_pairs()[i]).0.start() <= offset && (i + 1
                    < self.closed_pairs().len() ==> offset < self.closed_pairs()[i + 1].0.start())
                    ==> r == Some(self.closed_pairs()[i]),
    {
        if offset < self.active_start() {
            assert forall|i: int|
                0 <= i < self.closed_pairs().len() && offset < self.active_start() && (
                #[trigger] self.closed_pairs()[i]).0.start() <= offset && (i + 1
                    < self.closed_pairs().len() ==> offset < self.closed_pairs()[i
                    + 1].0.start()) implies r == Some(self.closed_pairs()[i]) by {
                match r {
                    Some(p) => {
                        let w = choose|w: int|
                            0 <= w < self.closed_pairs().len() && (
                            #[trigger] self.closed_pairs()[w]) == p
                                && self.closed_pairs()[w].0.start() <= offset && (w + 1
                                < self.closed_pairs().len() ==> offset < self.closed_pairs()[w
                                + 1].0.start());
                        if w < i {
                            assert(self.closed_pairs()[w + 1].0.start()
                                <= self.closed_pairs()[i].0.start());
                        }
                        if i < w {
                            assert(self.closed_pairs()[i + 1].0.start()
                                <= self.closed_pairs()[w].0.start());
                        }
                        assert(w == i);
                    },
                    None => {
                        assert(offset < self.closed_pairs()[i].0.start());
                    },
                }
            }
        }
    }

    /// Lookup determinism: `find` is a function of the file set and the
    /// offset alone, so repeated lookups with no intervening mutation return
    /// the same pair.
    pub proof fn lemma_find_idempotent(
        self,
        offset: u64,
        r1: Option<(Index, Segment)>,
        r2: Option<(Index, Segment)>,
    )
        requires
            self.wf(),
            self.find_result(offset, r1),
            self.find_result(offset, r2),
        ensures
            r1 == r2,
    {
        if offset < self.active_start() {
            match (r1, r2) {
                (Some(p1), Some(p2)) => {
                    let w1 = choose|w: int|
                        0 <= w < self.closed_pairs().len() && (#[trigger] self.closed_pairs()[w])
                            == p1 && self.closed_pairs()[w].0.start() <= offset && (w + 1
                            < self.closed_pairs().len() ==> offset < self.closed_pairs()[w
                            + 1].0.start());
                    let w2 = choose|w: int|
                        0 <= w < self.closed_pairs().len() && (#[trigger] self.closed_pairs()[w])
                            == p2 && self.closed_pairs()[w].0.start() <= offset && (w + 1
                            < self.closed_pairs().len() ==> offset < self.closed_pairs()[w
                            + 1].0.start());
                    if w1 < w2 {
                        assert(self.closed_pairs()[w1 + 1].0.start()
                            <= self.closed_pairs()[w2].0.start());
                    }
                    if w2 < w1 {
                        assert(self.closed_pairs()[w2 + 1].0.start()
                            <= self.closed_pairs()[w1].0.start());
                    }
                    assert(w1 == w2);
                },
                (Some(p1), None) => {
                    let w1 = choose|w: int|
                        0 <= w < self.closed_pairs().len() && (#[trigger] self.closed_pairs()[w])
                            == p1 && self.closed_pairs()[w].0.start() <= offset && (w + 1
                            < self.closed_pairs().len() ==> offset < self.closed_pairs()[w
                            + 1].0.start());
                    assert(offset < self.closed_pairs()[w1].0.start());
                },
                (None, Some(p2)) => {
                    let w2 = choose|w: int|
                        0 <= w < self.closed_pairs().len() && (#[trigger] self.closed_pairs()[w])
                            == p2 && self.closed_pairs()[w].0.start() <= offset && (w + 1
                            < self.closed_pairs().len() ==> offset < self.closed_pairs()[w
                            + 1].0.start());
                    assert(offset < self.closed_pairs()[w2].0.start());
                },
                (None, None) => {},
            }
        }
    }

    /// The active pair never sits in the closed collection: every closed
    /// pair's starting offset lies strictly below the active pair's, so no
    /// closed entry is keyed by the active starting offset.
    pub proof fn lemma_active_not_in_closed(self)
        requires
            self.wf(),
        ensures
            forall|i: int|
                0 <= i < self.closed_pairs().len() ==> (
                #[trigger] self.closed_pairs()[i]).0.start() != self.active_start(),
    {
    }

    /// How many retired pairs this file set holds.
    pub fn closed_count(&self) -> (r: usize)
        ensures
            r == self.closed_pairs().len(),
    {
        self.closed.len()
    }
}

} // verus!
