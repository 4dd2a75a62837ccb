//! Reading a commit log by record address, and stepping an address along.

use vstd::prelude::*;
use crate::view::CommitLogView;
use crate::{CommitLog, Position, Record};

verus! {

/// Why a read through a reader failed.
#[derive(Debug)]
pub enum Error {
    /// The operating system refused a request.
    Io(std::io::Error),
    /// The segment could not read the record.
    Segment(crate::segment::Error),
    /// The address names a segment that the commit log has not.
    InvalidPosition,
}

/// A reader of a commit log that somebody else may go on holding.
pub struct Reader<'a> {
    /// The commit log that is read.
    pub commit_log: &'a CommitLog,
}

/// The address `offset` records after `record`, in the same segment.
pub open spec fn after(record: Record, offset: nat) -> Record {
    Record {
        segment_index: record.segment_index,
        current_offset: (record.current_offset + offset) as usize,
    }
}

/// The address of the first record of the segment after that of `record`.
pub open spec fn start_of_next(record: Record) -> Record {
    Record { segment_index: (record.segment_index + 1) as usize, current_offset: 0 }
}

/// Where a reader that goes through all records turns after a read at
/// `record`, and whether the read before this one had failed too. After a
/// read that succeeded it goes to the next record of the segment. After one
/// that failed it tries the next segment, once: a second failure in a row is
/// the end of the commit log.
pub open spec fn stepped(record: Record, failed: bool, struck: bool) -> Option<(Record, bool)> {
    if !failed {
        Some((after(record, 1), false))
    } else if !struck {
        Some((start_of_next(record), true))
    } else {
        None
    }
}

impl<'a> Reader<'a> {
    /// Reads the record at the address `record`. The bytes are borrowed
    /// from the log's region.
    pub fn read(&self, record: &Record) -> (read: Result<&[u8], Error>)
        requires
            self.commit_log.wf(),
        ensures
            match read {
                Ok(bytes) => self.commit_log@.read(
                    record.segment_index as nat,
                    record.current_offset as nat,
                ) == Some(bytes@),
                Err(Error::InvalidPosition) => record.segment_index
                    >= self.commit_log@.segments.len(),
                Err(Error::Segment(fault)) => {
                    &&& record.segment_index < self.commit_log@.segments.len()
                    &&& self.commit_log@.segments[record.segment_index as int].read_fault(
                        record.current_offset as nat,
                        fault,
                    )
                },
                Err(_) => false,
            },
            read is Err ==> self.commit_log@.read(
                record.segment_index as nat,
                record.current_offset as nat,
            ) is None,
    {
        match self.commit_log.segment(record.segment_index) {
            None => Err(Error::InvalidPosition),
            Some(segment) => match segment.read_at(record.current_offset) {
                Ok(bytes) => Ok(bytes),
                Err(e) => Err(Error::Segment(e)),
            },
        }
    }

    /// The position of a record: its number within its segment.
    pub fn position(record: Record) -> (position: Position)
        ensures
            position == Position::Offset(record.current_offset),
    {
        Position::Offset(record.current_offset)
    }

    /// The address `offset` records after `record`, in the same segment.
    pub fn record_after(record: &Record, offset: usize) -> (next: Record)
        requires
            record.current_offset + offset <= usize::MAX,
        ensures
            next == after(*record, offset as nat),
    {
        Record {
            segment_index: record.segment_index,
            current_offset: record.current_offset + offset,
        }
    }

    /// The address of the record after `record`, in the same segment.
    pub fn next(record: &Record) -> (next: Record)
        requires
            record.current_offset < usize::MAX,
        ensures
            next == after(*record, 1),
    {
        Reader::record_after(record, 1)
    }

    /// The address of the first record of the segment after that of
    /// `record`.
    pub fn next_segment(record: &Record) -> (next: Record)
        requires
            record.segment_index < usize::MAX,
        ensures
            next == start_of_next(*record),
    {
        Record { segment_index: record.segment_index + 1, current_offset: 0 }
    }

    /// The bytes of every record, in the order of writing: what a reader
    /// meets who starts at the first record of the first segment and goes on
    /// by `step` until the end of the commit log.
    pub fn scan(&self) -> (bytes: Vec<u8>)
        requires
            self.commit_log.wf(),
        ensures
            bytes@ == self.commit_log@.scanned(0, 0, false),
    {
        let ghost log = self.commit_log@;
        let mut bytes: Vec<u8> = Vec::new();
        let mut record = Record { segment_index: 0, current_offset: 0 };
        let mut struck = false;
        loop
            invariant
                self.commit_log.wf(),
                log == self.commit_log@,
                bytes@ + log.scanned(
                    record.segment_index as nat,
                    record.current_offset as nat,
                    struck,
                ) == log.scanned(0, 0, false),
            ensures
                bytes@ == log.scanned(0, 0, false),
            decreases
                log.segments_left(record.segment_index as nat),
                log.slots_left(record.segment_index as nat, record.current_offset as nat),
                (if struck { 0nat } else { 1nat }),
        {
            let ghost so_far = bytes@;
            let failed = match self.read(&record) {
                Ok(read) => {
                    bytes.extend_from_slice(read);
                    assert(bytes@ =~= so_far + read@);
                    false
                },
                Err(_) => true,
            };
            proof {
                self.commit_log.lemma_wf();
                if !failed {
                    assert(log.in_place(record.segment_index as int));
                }
            }
            if failed && !struck && record.segment_index == usize::MAX {
                assert(log.scanned(
                    record.segment_index as nat,
                    record.current_offset as nat,
                    struck,
                ) =~= Seq::<u8>::empty()) by {
                    reveal_with_fuel(CommitLogView::scanned, 2);
                }
                assert(bytes@ =~= log.scanned(0, 0, false));
                break ;
            }
            match Reader::step(&record, failed, struck) {
                Some((next, strike)) => {
                    assert(so_far + log.scanned(
                        record.segment_index as nat,
                        record.current_offset as nat,
                        struck,
                    ) =~= bytes@ + log.scanned(
                        next.segment_index as nat,
                        next.current_offset as nat,
                        strike,
                    ));
                    record = next;
                    struck = strike;
                },
                None => {
                    assert(bytes@ =~= log.scanned(0, 0, false));
                    break ;
                },
            }
        }
        bytes
    }

    /// Where to read next after a read at `record`, when going through all
    /// records: `failed` says whether that read failed, `struck` whether the
    /// one before it had. Returns the next address and the new `struck`, or
    /// nothing at the end of the commit log.
    pub fn step(record: &Record, failed: bool, struck: bool) -> (next: Option<(Record, bool)>)
        requires
            !failed ==> record.current_offset < usize::MAX,
            failed && !struck ==> record.segment_index < usize::MAX,
        ensures
            next == stepped(*record, failed, struck),
    {
        if !failed {
            Some((Reader::next(record), false))
        } else if !struck {
            Some((Reader::next_segment(record), true))
        } else {
            None
        }
    }
}

} // verus!
