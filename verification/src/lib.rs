//! An append-only, segmented commit log over memory-mapped regions.
//!
//! Records are byte strings. A record is appended to the active segment;
//! when that segment has no room for it, a new segment takes over. A record
//! is read back by the number of its segment and its number within the
//! segment.
//!
//! ```text
//! segment 0                         segment 1 (active)
//! |-------------------------------| |-----------------------------|
//! | record 0  |  record 1  |  ... | |  record 0  | record 1 | ... |
//! |-------------------------------| |-----------------------------|
//! ```
//!
//! The library works on regions that are already mapped: whoever uses it
//! creates the files, maps them, and hands the mappings over.

use vstd::prelude::*;
use memmap::MmapMut;
use crate::mapping::{map_len, mapped_bytes};
use crate::segment::index::ENTRY_SIZE;
use crate::segment::{Segment, SegmentView};
use crate::view::CommitLogView;

pub mod decimal;
pub mod laws;
pub mod mapping;
pub mod reader;
pub mod segment;
pub mod util;
pub mod view;

pub use crate::reader::Reader;

verus! {

/// Why an operation on a commit log failed.
#[derive(Debug)]
pub enum Error {
    /// The operating system refused a request.
    Io(std::io::Error),
    /// A segment failed.
    Segment(segment::Error),
    /// The record is longer than a log file.
    BufferSizeExceeded,
    /// There is no segment of the number asked for: none to read from, or
    /// none at hand to take a record that the active segment has no room
    /// for.
    SegmentUnavailable,
}

/// From where to read.
#[derive(Debug, Clone, Copy, PartialEq, Eq, Structural)]
pub enum Position {
    /// The first record available.
    Horizon,
    /// The record of this number.
    Offset(usize),
}

impl Position {
    /// The number that the position stands for: 1 for the horizon.
    pub open spec fn number(self) -> nat {
        match self {
            Position::Horizon => 1,
            Position::Offset(offset) => offset as nat,
        }
    }
}

/// The address of a record.
#[derive(Debug, Clone, Copy, PartialEq, Eq, Structural)]
pub struct Record {
    /// Number of the record within its segment.
    pub current_offset: usize,
    /// Number of the segment.
    pub segment_index: usize,
}

/// A commit log: its segments, the last of which is the active one, and the
/// sizes of their files.
pub struct CommitLog {
    /// Size in bytes of each log file.
    segment_size: usize,
    /// Size in bytes of each index file.
    index_size: usize,
    /// The segments, oldest first.
    segments: Vec<Segment>,
}

/// The bytes of the two regions of `spare`, where there are any.
pub open spec fn spare_bytes(spare: Option<(MmapMut, MmapMut)>) -> Option<(Seq<u8>, Seq<u8>)> {
    match spare {
        Some((log, index)) => Some((mapped_bytes(log), mapped_bytes(index))),
        None => None,
    }
}

impl CommitLogView {
    /// What a write that needed a new segment has done once the active
    /// segment was flushed: the new segment over `log` and `index` is the
    /// active one and holds `data` as its first record. An index file too
    /// small for a single entry leaves the new segment empty, and the write
    /// fails for want of room in the index.
    pub open spec fn turned(
        self,
        data: Seq<u8>,
        log: Seq<u8>,
        index: Seq<u8>,
        written: Result<usize, Error>,
        after: CommitLogView,
    ) -> bool {
        if self.index_size >= ENTRY_SIZE {
            &&& written matches Ok(n)
            &&& n == data.len()
            &&& after == self.rotated(log, index).appended(data)
        } else {
            &&& written matches Err(
                Error::Segment(segment::Error::Index(segment::index::Error::NoSpaceLeft)),
            )
            &&& after == self.rotated(log, index)
        }
    }

    /// What a write of `data` does, with `spare` the regions at hand for a
    /// new segment: `written` is what it returns and `after` the commit log
    /// that it leaves.
    ///
    /// - A record longer than a log file is refused.
    /// - A record that the active segment has room for is appended to it.
    /// - Any other record needs a new segment. Without regions of the right
    ///   sizes at hand there is none. With them, the active segment is
    ///   flushed; where the operating system refuses that, the write fails
    ///   with its error; else the new segment takes the record.
    ///
    /// A write that fails leaves the commit log as it was, but for the one
    /// that `turned` describes.
    pub open spec fn write_result(
        self,
        data: Seq<u8>,
        spare: Option<(Seq<u8>, Seq<u8>)>,
        written: Result<usize, Error>,
        after: CommitLogView,
    ) -> bool {
        if data.len() > self.segment_size {
            written matches Err(Error::BufferSizeExceeded) && after == self
        } else if self.active().fits(data.len()) {
            written matches Ok(n) && n == data.len() && after == self.appended(data)
        } else {
            match spare {
                Some((log, index)) => {
                    if self.suits(log, index) {
                        ||| written matches Err(Error::Segment(e)) && e.is_refusal() && after
                            == self
                        ||| self.turned(data, log, index, written, after)
                    } else {
                        written matches Err(Error::SegmentUnavailable) && after == self
                    }
                },
                None => written matches Err(Error::SegmentUnavailable) && after == self,
            }
        }
    }

    /// What reading record number `record` of segment number `segment`
    /// returns.
    pub open spec fn read_result(self, segment: nat, record: nat, read: Result<&[u8], Error>) -> bool {
        match read {
            Ok(bytes) => self.read(segment, record) == Some(bytes@),
            Err(Error::SegmentUnavailable) => segment >= self.segments.len(),
            Err(Error::Segment(fault)) => segment < self.segments.len()
                && self.segments[segment as int].read_fault(record, fault),
            Err(_) => false,
        }
    }
}

impl View for CommitLog {
    type V = CommitLogView;

    closed spec fn view(&self) -> CommitLogView {
        CommitLogView {
            segment_size: self.segment_size as nat,
            index_size: self.index_size as nat,
            segments: Seq::new(self.segments@.len(), |i: int| self.segments@[i]@),
        }
    }
}

impl CommitLog {
    /// The invariant of a commit log: every segment is well formed, and the
    /// whole is sound.
    pub closed spec fn wf(&self) -> bool {
        &&& forall|i: int| 0 <= i < self.segments@.len() ==> (#[trigger] self.segments@[i]).wf()
        &&& self@.sound()
    }

    /// A well-formed commit log is sound, and its sizes fit in `usize`.
    pub proof fn lemma_wf(&self)
        requires
            self.wf(),
        ensures
            self@.sound(),
            self@.segment_size <= usize::MAX,
            self@.index_size <= usize::MAX,
            self@.segments.len() <= usize::MAX,
    {
        assert(self.segments@.len() == self.segments.len());
    }

    /// Makes a commit log whose first segment lies over the mapped regions
    /// `log` and `index`. The lengths of the two are the sizes that every
    /// later segment must have.
    pub fn new(log: MmapMut, index: MmapMut) -> (commit_log: CommitLog)
        ensures
            commit_log.wf(),
            commit_log@ == (CommitLogView {
                segment_size: mapped_bytes(log).len(),
                index_size: mapped_bytes(index).len(),
                segments: seq![SegmentView::fresh(0, mapped_bytes(log), mapped_bytes(index))],
            }),
            commit_log@.history() == Seq::<Seq<u8>>::empty(),
    {
        let segment_size = map_len(&log);
        let index_size = map_len(&index);
        proof {
            CommitLogView::lemma_first(mapped_bytes(log), mapped_bytes(index));
        }
        let mut segments: Vec<Segment> = Vec::new();
        segments.push(Segment::new(log, index, 0));
        let commit_log = CommitLog { segment_size, index_size, segments };
        assert(commit_log@.segments =~= seq![
            SegmentView::fresh(0, mapped_bytes(log), mapped_bytes(index)),
        ]);
        commit_log
    }

    /// The size in bytes of each log file, which is also the largest record
    /// that is taken.
    pub fn segment_size(&self) -> (size: usize)
        ensures
            size == self@.segment_size,
    {
        self.segment_size
    }

    /// The size in bytes of each index file.
    pub fn index_size(&self) -> (size: usize)
        ensures
            size == self@.index_size,
    {
        self.index_size
    }

    /// How many segments there are. This is also the ordinal that the next
    /// segment will have.
    pub fn segment_count(&self) -> (count: usize)
        ensures
            count == self@.segments.len(),
    {
        self.segments.len()
    }

    /// The segment of number `segment_index`, where there is one.
    pub fn segment(&self, segment_index: usize) -> (found: Option<&Segment>)
        requires
            self.wf(),
        ensures
            match found {
                Some(segment) => {
                    &&& segment_index < self@.segments.len()
                    &&& segment.wf()
                    &&& segment@ == self@.segments[segment_index as int]
                },
                None => segment_index >= self@.segments.len(),
            },
    {
        if segment_index < self.segments.len() {
            Some(&self.segments[segment_index])
        } else {
            None
        }
    }

    /// Whether a write of `buffer_size` bytes needs a new segment: the
    /// record is not too long for a log file, and the active segment has no
    /// room for it.
    pub fn needs_segment(&mut self, buffer_size: usize) -> (needed: bool)
        requires
            old(self).wf(),
        ensures
            final(self).wf(),
            final(self)@ == old(self)@,
            needed == old(self)@.must_rotate(buffer_size as nat),
    {
        if buffer_size > self.segment_size {
            return false;
        }
        let active = self.segments.len() - 1;
        let fits = self.segments[active].fit(buffer_size);
        assert(self.segments@ =~= old(self).segments@);
        !fits
    }

    /// Makes a new segment over the regions `log` and `index` the active
    /// one, given how the flush of the segment that was active went.
    ///
    /// Regions that have not the sizes of this commit log's files are not
    /// taken. A flush that was refused stops the rotation, and its error is
    /// handed on.
    pub fn rotate_segment(
        &mut self,
        flushed: Result<(), segment::Error>,
        log: MmapMut,
        index: MmapMut,
    ) -> (rotated: Result<(), Error>)
        requires
            old(self).wf(),
        ensures
            final(self).wf(),
            if !old(self)@.suits(mapped_bytes(log), mapped_bytes(index)) {
                rotated matches Err(Error::SegmentUnavailable) && final(self)@ == old(self)@
            } else {
                match flushed {
                    Ok(()) => rotated is Ok && final(self)@ == old(self)@.rotated(
                        mapped_bytes(log),
                        mapped_bytes(index),
                    ),
                    Err(e) => rotated == Err::<(), Error>(Error::Segment(e)) && final(self)@ == old(
                        self,
                    )@,
                }
            },
    {
        if map_len(&log) != self.segment_size || map_len(&index) != self.index_size {
            return Err(Error::SegmentUnavailable);
        }
        match flushed {
            Ok(()) => {},
            Err(e) => {
                return Err(Error::Segment(e));
            },
        }
        proof {
            self@.lemma_rotated(mapped_bytes(log), mapped_bytes(index));
        }
        let next_offset = self.segments.len();
        self.segments.push(Segment::new(log, index, next_offset));
        assert(self@.segments =~= old(self)@.rotated(
            mapped_bytes(log),
            mapped_bytes(index),
        ).segments);
        Ok(())
    }

    /// Appends the record `buffer` and returns its length.
    ///
    /// The record goes to the active segment. Where that has no room for
    /// it, the active segment is flushed and a new segment, over the two
    /// regions of `spare` (for the log, then for the index), takes the
    /// record as its first. `needs_segment` tells beforehand whether `spare`
    /// will be used; regions that are not used are dropped.
    ///
    /// `write_result` states the outcome case by case.
    pub fn write(&mut self, buffer: &[u8], spare: Option<(MmapMut, MmapMut)>) -> (written: Result<
        usize,
        Error,
    >)
        requires
            old(self).wf(),
        ensures
            final(self).wf(),
            old(self)@.write_result(buffer@, spare_bytes(spare), written, final(self)@),
            buffer@.len() > old(self)@.segment_size ==> final(self)@ == old(self)@ && (
            written matches Err(Error::BufferSizeExceeded)),
            old(self)@.addressable() && written is Ok ==> final(self)@.history() == old(
                self,
            )@.history().push(buffer@),
    {
        let buffer_size = buffer.len();
        if buffer_size > self.segment_size {
            return Err(Error::BufferSizeExceeded);
        }
        let active = self.segments.len() - 1;
        let fits = self.segments[active].fit(buffer_size);
        assert(self.segments@ =~= old(self).segments@);
        if !fits {
            match spare {
                Some((log, index)) => {
                    let flushed = self.segments[active].flush();
                    assert(self.segments@ =~= old(self).segments@);
                    let ghost regions = (mapped_bytes(log), mapped_bytes(index));
                    match self.rotate_segment(flushed, log, index) {
                        Ok(()) => {
                            proof {
                                old(self)@.lemma_rotated(regions.0, regions.1);
                            }
                        },
                        Err(e) => {
                            return Err(e);
                        },
                    }
                },
                None => {
                    return Err(Error::SegmentUnavailable);
                },
            }
        }
        let active = self.segments.len() - 1;
        let ghost turned = self@;
        proof {
            assert(turned.in_place(active as int));
            if turned.active().fits(buffer@.len()) {
                turned.lemma_appended(buffer@);
            }
        }
        let written = self.segments[active].write(buffer);
        match written {
            Ok(n) => {
                assert(self@.segments =~= turned.appended(buffer@).segments);
                Ok(n)
            },
            Err(e) => {
                assert(self@.segments =~= turned.segments);
                Err(Error::Segment(e))
            },
        }
    }

    /// Reads record number `offset` of segment number `segment_index`, both
    /// counting from 0. The bytes are borrowed from the log's region.
    pub fn read_at(&mut self, segment_index: usize, offset: usize) -> (read: Result<&[u8], Error>)
        requires
            old(self).wf(),
        ensures
            final(self).wf(),
            final(self)@ == old(self)@,
            old(self)@.read_result(segment_index as nat, offset as nat, read),
            read is Err ==> old(self)@.read(segment_index as nat, offset as nat) is None,
    {
        if segment_index >= self.segments.len() {
            return Err(Error::SegmentUnavailable);
        }
        match self.segments[segment_index].read_at(offset) {
            Ok(bytes) => Ok(bytes),
            Err(e) => Err(Error::Segment(e)),
        }
    }

    /// The address of the record that lies `offset` records after
    /// `position`, in the active segment.
    pub fn read_after(&mut self, position: &Position, offset: usize) -> (record: Result<
        Record,
        Error,
    >)
        requires
            old(self).wf(),
            offset + position.number() <= usize::MAX,
        ensures
            final(self).wf(),
            final(self)@ == old(self)@,
            record matches Ok(address) && address == (Record {
                segment_index: (old(self)@.segments.len() - 1) as usize,
                current_offset: (offset + position.number()) as usize,
            }),
    {
        let horizon: usize = 1;
        let current_pos = match position {
            Position::Horizon => horizon,
            Position::Offset(offset) => *offset,
        };
        Ok(Record { segment_index: self.segments.len() - 1, current_offset: offset + current_pos })
    }

    /// The address of the record at `position`, in the active segment.
    pub fn read(&mut self, position: &Position) -> (record: Result<Record, Error>)
        requires
            old(self).wf(),
        ensures
            final(self).wf(),
            final(self)@ == old(self)@,
            record matches Ok(address) && address == (Record {
                segment_index: (old(self)@.segments.len() - 1) as usize,
                current_offset: position.number() as usize,
            }),
    {
        self.read_after(position, 0)
    }
}

} // verus!
