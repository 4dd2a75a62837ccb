//! A segment: one log and the index that locates its records.
//!
//! Each record that is appended to the log gets an entry in the index, which
//! holds where the record starts and how long it is. Record number `k` is
//! read by way of entry number `k`.

use vstd::prelude::*;
use memmap::MmapMut;
use crate::mapping::mapped_bytes;
use crate::segment::index::{lemma_decode_block, Entry, Index, IndexView, ENTRY_SIZE, FIELD_MAX};
use crate::segment::log::{Log, LogView};

pub mod index;
pub mod log;

verus! {

/// Why an operation on a segment failed.
#[derive(Debug)]
pub enum Error {
    /// The operating system refused a request.
    Io(std::io::Error),
    /// The index failed.
    Index(index::Error),
    /// The log failed.
    Log(log::Error),
}

impl Error {
    /// Whether the error is a refusal by the operating system, met while
    /// flushing the index or the log.
    pub open spec fn is_refusal(self) -> bool {
        match self {
            Error::Io(_) => false,
            Error::Index(e) => e is Io,
            Error::Log(e) => e is Io,
        }
    }
}

/// A log and its index, and the ordinal of the two among the segments of a
/// commit log.
#[derive(Debug)]
pub struct Segment {
    /// The record payloads.
    log: Log,
    /// Where each record lies in the log.
    index: Index,
    /// Ordinal of the segment; the stem of its files' names.
    offset: usize,
}

/// What a segment is, mathematically.
pub struct SegmentView {
    /// Ordinal of the segment.
    pub base_offset: nat,
    /// The log.
    pub log: LogView,
    /// The index.
    pub index: IndexView,
}

impl SegmentView {
    /// A segment over a log region and an index region, with nothing
    /// written.
    pub open spec fn fresh(base_offset: nat, log: Seq<u8>, index: Seq<u8>) -> SegmentView {
        SegmentView {
            base_offset,
            log: LogView { base_offset, bytes: log, cursor: 0 },
            index: IndexView { base_offset, bytes: index, cursor: 0 },
        }
    }

    /// Whether a record of `n` bytes still has room: in the log for its
    /// payload and in the index for its entry.
    pub open spec fn fits(self, n: nat) -> bool {
        self.log.fits(n) && self.index.fits(1)
    }

    /// How many records have been written.
    pub open spec fn count(self) -> nat {
        self.index.count()
    }

    /// The entry that locates the next record to be written.
    pub open spec fn next_entry(self, size: nat) -> Entry {
        Entry { offset: self.log.cursor as usize, size: size as usize }
    }

    /// The segment after a record `data` has been appended.
    pub open spec fn appended(self, data: Seq<u8>) -> SegmentView
        recommends
            self.fits(data.len()),
    {
        SegmentView {
            base_offset: self.base_offset,
            log: self.log.appended(data),
            index: self.index.appended(self.next_entry(data.len())),
        }
    }

    /// What reading record number `k` gives: the bytes of the log that entry
    /// number `k` points at, where the index holds such an entry and the
    /// bytes lie within the log.
    pub open spec fn read(self, k: nat) -> Option<Seq<u8>> {
        if self.index.holds(k) {
            match self.index.entry(k) {
                Some(entry) => self.log.range(entry.offset as nat, entry.size as nat),
                None => None,
            }
        } else {
            None
        }
    }

    /// Whether `fault` is why record number `k` cannot be read: the index
    /// has no block of that number, or the block holds no entry, or the
    /// entry points outside the log. No other error comes of reading.
    pub open spec fn read_fault(self, k: nat, fault: Error) -> bool {
        match fault {
            Error::Index(index::Error::InvalidIndex) => !self.index.holds(k),
            Error::Index(index::Error::Parse) => self.index.holds(k) && self.index.entry(k)
                is None,
            Error::Log(log::Error::InvalidIndex) => self.index.holds(k) && self.index.entry(k)
                is Some && self.read(k) is None,
            _ => false,
        }
    }

    /// Where record number `k` starts if the records lie one after the
    /// other: at 0, or where the record before it ends.
    pub open spec fn start_of(self, k: nat) -> nat {
        if k == 0 {
            0
        } else {
            match self.index.entry((k - 1) as nat) {
                Some(entry) => (entry.offset + entry.size) as nat,
                None => 0,
            }
        }
    }

    /// Whether entry number `k` is in its place: the index holds it, it
    /// starts where the entry before it ends, and it ends within the written
    /// part of the log.
    pub open spec fn linked(self, k: nat) -> bool {
        &&& self.index.entry(k) is Some
        &&& self.index.entry(k)->0.offset == self.start_of(k)
        &&& self.start_of(k + 1) <= self.log.cursor
    }

    /// Whether the index and the log agree: both cursors lie within their
    /// regions, the index holds a whole number of entries, each entry that
    /// has been written starts where the one before it ends, and the last
    /// one ends at the log's cursor.
    pub open spec fn consistent(self) -> bool {
        &&& self.log.cursor <= self.log.capacity()
        &&& self.index.cursor <= self.index.capacity()
        &&& self.index.cursor % (ENTRY_SIZE as nat) == 0
        &&& forall|k: nat| k < self.count() ==> #[trigger] self.linked(k)
        &&& self.start_of(self.count()) == self.log.cursor
    }

    /// Whether every position in the log can be written in an entry: it
    /// fits in ten digits, and in `usize`.
    pub open spec fn addressable(self) -> bool {
        self.log.capacity() <= FIELD_MAX && self.log.capacity() <= usize::MAX
    }

    /// The bytes that entry number `k` points at.
    pub open spec fn record(self, k: nat) -> Seq<u8> {
        match self.read(k) {
            Some(bytes) => bytes,
            None => Seq::empty(),
        }
    }

    /// The records that have been written, in the order of writing.
    pub open spec fn records(self) -> Seq<Seq<u8>> {
        Seq::new(self.count(), |k: int| self.record(k as nat))
    }

    /// The sum of the sizes that the first `k` entries hold.
    pub open spec fn sizes(self, k: nat) -> nat
        decreases k,
    {
        if k == 0 {
            0
        } else {
            self.sizes((k - 1) as nat) + match self.index.entry((k - 1) as nat) {
                Some(entry) => entry.size as nat,
                None => 0,
            }
        }
    }

    /// A segment with nothing written is consistent and holds no record.
    pub proof fn lemma_fresh(base_offset: nat, log: Seq<u8>, index: Seq<u8>)
        ensures
            Self::fresh(base_offset, log, index).consistent(),
            Self::fresh(base_offset, log, index).count() == 0,
            Self::fresh(base_offset, log, index).records() == Seq::<Seq<u8>>::empty(),
    {
        assert(Self::fresh(base_offset, log, index).records() =~= Seq::<Seq<u8>>::empty());
    }

    /// In a consistent segment every record that has been written can be
    /// read, it lies within the written part of the log, and it starts after
    /// as many bytes as the entries before it count.
    pub proof fn lemma_consistent(self, k: nat)
        requires
            self.consistent(),
            k < self.count(),
        ensures
            self.index.holds(k),
            self.index.entry(k) is Some,
            self.index.entry(k)->0.offset == self.sizes(k),
            self.index.entry(k)->0.offset + self.index.entry(k)->0.size <= self.log.cursor,
            self.read(k) == Some(self.records()[k as int]),
            self.records()[k as int].len() == self.index.entry(k)->0.size,
        decreases k,
    {
        assert(self.linked(k));
        assert((k + 1) * ENTRY_SIZE <= self.index.cursor) by (nonlinear_arith)
            requires
                k < self.index.cursor / (ENTRY_SIZE as nat),
                ENTRY_SIZE == 20,
        ;
        if k > 0 {
            self.lemma_consistent((k - 1) as nat);
        }
    }

    /// In a consistent segment the sizes in the entries add up to the
    /// number of bytes written to the log.
    pub proof fn lemma_sizes(self)
        requires
            self.consistent(),
        ensures
            self.sizes(self.count()) == self.log.cursor,
    {
        if self.count() > 0 {
            self.lemma_consistent((self.count() - 1) as nat);
        }
    }

    /// Appending a record that fits to a consistent, addressable segment
    /// leaves every entry in its block and puts the new one in the next.
    proof fn lemma_appended_entries(self, data: Seq<u8>)
        requires
            self.consistent(),
            self.addressable(),
            self.fits(data.len()),
        ensures
            self.appended(data).count() == self.count() + 1,
            self.appended(data).index.holds(self.count()),
            self.appended(data).index.entry(self.count()) == Some(self.next_entry(data.len())),
            self.next_entry(data.len()).offset == self.log.cursor,
            self.next_entry(data.len()).size == data.len(),
            forall|k: nat|
                k < self.count() ==> #[trigger] self.appended(data).index.entry(k)
                    == self.index.entry(k),
    {
        let entry = self.next_entry(data.len());
        let after = self.appended(data);
        let n = self.count();
        self.index.lemma_appended(entry);
        lemma_decode_block(entry);
        assert((n + 1) * ENTRY_SIZE == after.index.cursor) by (nonlinear_arith)
            requires
                self.index.cursor % (ENTRY_SIZE as nat) == 0,
                n == self.index.cursor / (ENTRY_SIZE as nat),
                after.index.cursor == self.index.cursor + ENTRY_SIZE,
                ENTRY_SIZE == 20,
        ;
        assert forall|k: nat| k < n implies #[trigger] after.index.entry(k) == self.index.entry(
            k,
        ) by {
            self.lemma_consistent(k);
            assert(after.index.block(k) == self.index.block(k));
        }
    }

    /// Appending a record that fits to a consistent, addressable segment
    /// gives a consistent segment that holds the records it held, and the
    /// new one after them.
    pub proof fn lemma_appended(self, data: Seq<u8>)
        requires
            self.consistent(),
            self.addressable(),
            self.fits(data.len()),
        ensures
            self.appended(data).consistent(),
            self.appended(data).addressable(),
            self.appended(data).count() == self.count() + 1,
            self.appended(data).records() == self.records().push(data),
    {
        let entry = self.next_entry(data.len());
        let after = self.appended(data);
        let n = self.count();
        self.lemma_appended_entries(data);
        assert forall|k: nat| k < after.count() implies #[trigger] after.linked(k) by {
            if k < n {
                assert(self.linked(k));
                assert(after.index.entry(k) == self.index.entry(k));
                if k > 0 {
                    assert(after.index.entry((k - 1) as nat) == self.index.entry((k - 1) as nat));
                }
            } else {
                if n > 0 {
                    assert(after.index.entry((n - 1) as nat) == self.index.entry((n - 1) as nat));
                }
            }
        }
        assert forall|k: int| 0 <= k < n implies after.records()[k] == self.records()[k] by {
            self.lemma_consistent(k as nat);
            assert(after.index.entry(k as nat) == self.index.entry(k as nat));
            let e = self.index.entry(k as nat)->0;
            assert(after.index.holds(k as nat));
            assert(after.log.bytes.subrange(e.offset as int, e.offset + e.size)
                =~= self.log.bytes.subrange(e.offset as int, e.offset + e.size));
        }
        assert(after.log.bytes.subrange(entry.offset as int, entry.offset + entry.size) =~= data);
        assert(after.records()[n as int] == data);
        assert(after.records() =~= self.records().push(data));
    }
}

impl View for Segment {
    type V = SegmentView;

    closed spec fn view(&self) -> SegmentView {
        SegmentView { base_offset: self.offset as nat, log: self.log@, index: self.index@ }
    }
}

impl Segment {
    /// The invariant of a segment: its log and its index are well formed.
    pub closed spec fn wf(&self) -> bool {
        self.log.wf() && self.index.wf()
    }

    /// In a well-formed segment both cursors lie within their regions, the
    /// index holds a whole number of entries, and all sizes fit in `usize`.
    pub proof fn lemma_wf(&self)
        requires
            self.wf(),
        ensures
            self@.log.cursor <= self@.log.capacity() <= usize::MAX,
            self@.index.cursor <= self@.index.capacity() <= usize::MAX,
            self@.index.cursor % (ENTRY_SIZE as nat) == 0,
            self@.base_offset <= usize::MAX,
    {
        self.log.lemma_wf();
        self.index.lemma_wf();
    }

    /// Makes a segment of ordinal `offset` over two mapped regions, `log`
    /// for the payloads and `index` for the entries. Nothing counts as
    /// written, whatever the regions hold.
    pub fn new(log: MmapMut, index: MmapMut, offset: usize) -> (segment: Segment)
        ensures
            segment.wf(),
            segment@ == SegmentView::fresh(offset as nat, mapped_bytes(log), mapped_bytes(index)),
    {
        Segment { log: Log::new(log, offset), index: Index::new(index, offset), offset }
    }

    /// The log of the segment.
    pub fn log(&self) -> (log: &Log)
        requires
            self.wf(),
        ensures
            log.wf(),
            log@ == self@.log,
    {
        &self.log
    }

    /// The index of the segment.
    pub fn index(&self) -> (index: &Index)
        requires
            self.wf(),
        ensures
            index.wf(),
            index@ == self@.index,
    {
        &self.index
    }

    /// The ordinal of the segment.
    pub fn offset(&self) -> (offset: usize)
        ensures
            offset == self@.base_offset,
    {
        self.offset
    }

    /// Whether a record of `buffer_size` bytes still has room, in the log
    /// and in the index.
    pub fn fit(&mut self, buffer_size: usize) -> (fits: bool)
        requires
            old(self).wf(),
        ensures
            *final(self) == *old(self),
            fits == old(self)@.fits(buffer_size as nat),
    {
        self.log.fit(buffer_size) && self.index.fit(1)
    }

    /// Appends the record `buffer` and returns its length: first its entry
    /// to the index, then its bytes to the log.
    ///
    /// Where the index is full, nothing is written. Where the index has
    /// room and the log has not, the entry stays in the index with no
    /// payload behind it; such a segment is no longer consistent and must
    /// not be written to again. `fit` tells beforehand.
    pub fn write(&mut self, buffer: &[u8]) -> (written: Result<usize, Error>)
        requires
            old(self).wf(),
        ensures
            final(self).wf(),
            match written {
                Ok(n) => {
                    &&& old(self)@.fits(buffer@.len())
                    &&& n == buffer@.len()
                    &&& final(self)@ == old(self)@.appended(buffer@)
                },
                Err(Error::Index(index::Error::NoSpaceLeft)) => {
                    &&& !old(self)@.index.fits(1)
                    &&& *final(self) == *old(self)
                },
                Err(Error::Log(log::Error::NoSpaceLeft)) => {
                    &&& old(self)@.index.fits(1)
                    &&& !old(self)@.log.fits(buffer@.len())
                    &&& final(self)@ == (SegmentView {
                        index: old(self)@.index.appended(old(self)@.next_entry(buffer@.len())),
                        ..old(self)@
                    })
                },
                Err(_) => false,
            },
            old(self)@.consistent() && old(self)@.addressable() && written is Ok ==> {
                &&& final(self)@.consistent()
                &&& final(self)@.records() == old(self)@.records().push(buffer@)
            },
    {
        proof {
            self.lemma_wf();
            if self@.consistent() && self@.addressable() && self@.fits(buffer@.len()) {
                self@.lemma_appended(buffer@);
            }
        }
        let entry = Entry::new(self.log.offset(), buffer.len());
        match self.index.write(entry) {
            Ok(_) => {},
            Err(e) => {
                return Err(Error::Index(e));
            },
        }
        match self.log.write(buffer) {
            Ok(len) => Ok(len),
            Err(e) => Err(Error::Log(e)),
        }
    }

    /// Reads record number `offset`, counting from 0: looks its entry up in
    /// the index and borrows the bytes that the entry points at from the
    /// log.
    pub fn read_at(&self, offset: usize) -> (read: Result<&[u8], Error>)
        requires
            self.wf(),
        ensures
            match read {
                Ok(bytes) => self@.read(offset as nat) == Some(bytes@),
                Err(fault) => self@.read(offset as nat) is None && self@.read_fault(
                    offset as nat,
                    fault,
                ),
            },
    {
        let entry = match self.index.read_at(offset) {
            Ok(entry) => entry,
            Err(e) => {
                return Err(Error::Index(e));
            },
        };
        match self.log.read_at(entry.offset, entry.size) {
            Ok(bytes) => Ok(bytes),
            Err(e) => Err(Error::Log(e)),
        }
    }

    /// Asks for the written pages of the index, then of the log, to be
    /// carried to their files, without waiting for it. The segment is as
    /// before. A refusal for the index is returned before the log is tried.
    /// Whether the requests are taken rests with the operating system;
    /// `index_flushed` and `log_flushed` say what is returned for each
    /// outcome.
    pub fn flush(&mut self) -> (flushed: Result<(), Error>)
        requires
            old(self).wf(),
        ensures
            *final(self) == *old(self),
            flushed matches Err(e) ==> e.is_refusal(),
    {
        match Segment::index_flushed(self.index.flush()) {
            Ok(()) => {},
            Err(e) => {
                return Err(e);
            },
        }
        Segment::log_flushed(self.log.flush())
    }

    /// What the flush of a segment makes of the outcome of flushing its
    /// index: it goes on where the index was flushed, and ends with the
    /// index's error where it was not.
    pub fn index_flushed(outcome: Result<(), index::Error>) -> (flushed: Result<(), Error>)
        ensures
            match outcome {
                Ok(()) => flushed is Ok,
                Err(e) => flushed == Err::<(), Error>(Error::Index(e)),
            },
    {
        match outcome {
            Ok(()) => Ok(()),
            Err(e) => Err(Error::Index(e)),
        }
    }

    /// What the flush of a segment returns for the outcome of flushing its
    /// log, once its index was flushed: nothing where the log was flushed,
    /// the log's error where it was not.
    pub fn log_flushed(outcome: Result<(), log::Error>) -> (flushed: Result<(), Error>)
        ensures
            match outcome {
                Ok(()) => flushed is Ok,
                Err(e) => flushed == Err::<(), Error>(Error::Log(e)),
            },
    {
        match outcome {
            Ok(()) => Ok(()),
            Err(e) => Err(Error::Log(e)),
        }
    }
}

} // verus!
