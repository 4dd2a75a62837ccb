//! The log file of a segment: record payloads, one after the other, in a
//! memory-mapped region of fixed size.

use vstd::prelude::*;
use vstd::string::StringExecFns;
use memmap::MmapMut;
use crate::decimal::{ascii_text, padded, padded_string};
use crate::mapping::{map_flush_async, map_len, map_read, map_write, mapped_bytes};

verus! {

/// Why an operation on a log failed.
#[derive(Debug)]
pub enum Error {
    /// The operating system refused a request.
    Io(std::io::Error),
    /// The payload is longer than the room that is left.
    NoSpaceLeft,
    /// The range asked for does not lie within the log.
    InvalidIndex,
}

/// A log: a mapped region and the position up to which it has been written.
///
/// ```text
///                          cursor
///                             v
/// |---------------------------|-----------|
/// | record 0 | record 1 | ... |  unused   |
/// |---------------------------|-----------|
/// ```
#[derive(Debug)]
pub struct Log {
    /// The mapped region.
    mmap: MmapMut,
    /// Ordinal of the segment that the log belongs to.
    base_offset: usize,
    /// How many bytes have been written; the next payload starts here.
    offset: usize,
    /// Length of the mapped region.
    max_size: usize,
}

/// What a log is, mathematically.
pub struct LogView {
    /// Ordinal of the segment that the log belongs to.
    pub base_offset: nat,
    /// Every byte of the region, written or not.
    pub bytes: Seq<u8>,
    /// How many bytes have been written.
    pub cursor: nat,
}

impl LogView {
    /// The size of the region.
    pub open spec fn capacity(self) -> nat {
        self.bytes.len()
    }

    /// Whether a payload of `n` bytes still has room.
    pub open spec fn fits(self, n: nat) -> bool {
        self.capacity() - self.cursor >= n
    }

    /// The log after `data` has been appended.
    pub open spec fn appended(self, data: Seq<u8>) -> LogView
        recommends
            self.fits(data.len()),
    {
        LogView {
            base_offset: self.base_offset,
            bytes: self.bytes.subrange(0, self.cursor as int) + data + self.bytes.subrange(
                (self.cursor + data.len()) as int,
                self.bytes.len() as int,
            ),
            cursor: self.cursor + data.len(),
        }
    }

    /// The bytes that have been written.
    pub open spec fn live(self) -> Seq<u8> {
        self.bytes.subrange(0, self.cursor as int)
    }

    /// The `size` bytes from `offset` on, where they lie within the region.
    pub open spec fn range(self, offset: nat, size: nat) -> Option<Seq<u8>> {
        if offset + size <= self.capacity() {
            Some(self.bytes.subrange(offset as int, (offset + size) as int))
        } else {
            None
        }
    }
}

impl View for Log {
    type V = LogView;

    closed spec fn view(&self) -> LogView {
        LogView {
            base_offset: self.base_offset as nat,
            bytes: mapped_bytes(self.mmap),
            cursor: self.offset as nat,
        }
    }
}

/// How many digits the ordinal of a segment takes in the names of its files.
pub const STEM_WIDTH: usize = 20;

impl Log {
    /// The name of the log file of the segment of ordinal `base_offset`:
    /// the ordinal in twenty digits, then `.log`.
    pub fn file_name(base_offset: usize) -> (name: String)
        ensures
            name@ == ascii_text(padded(base_offset as nat, STEM_WIDTH as nat)) + ".log"@,
    {
        let mut name = padded_string(base_offset, STEM_WIDTH);
        name.append(".log");
        name
    }

    /// The invariant of a log: the cursor lies within the region, whose
    /// length is the one recorded.
    pub closed spec fn wf(&self) -> bool {
        &&& self.offset <= self.max_size
        &&& self.max_size == mapped_bytes(self.mmap).len()
    }

    /// In a well-formed log the cursor lies within the region, and both fit
    /// in `usize`.
    pub proof fn lemma_wf(&self)
        requires
            self.wf(),
        ensures
            self@.cursor <= self@.capacity() <= usize::MAX,
            self@.base_offset <= usize::MAX,
    {
    }

    /// Makes a log of the mapped region `mmap`, for the segment of ordinal
    /// `base_offset`. Its size is the length of the mapping. Nothing counts
    /// as written, whatever the region holds.
    pub fn new(mmap: MmapMut, base_offset: usize) -> (log: Log)
        ensures
            log.wf(),
            log@ == (LogView {
                base_offset: base_offset as nat,
                bytes: mapped_bytes(mmap),
                cursor: 0,
            }),
    {
        let max_size = map_len(&mmap);
        Log { mmap, base_offset, offset: 0, max_size }
    }

    /// How many bytes have been written.
    pub fn offset(&self) -> (offset: usize)
        ensures
            offset == self@.cursor,
    {
        self.offset
    }

    /// The whole region, as it lies in the file: what has been written,
    /// then the rest.
    pub fn as_bytes(&self) -> (bytes: &[u8])
        requires
            self.wf(),
        ensures
            bytes@ == self@.bytes,
    {
        let bytes = map_read(&self.mmap, 0, self.max_size);
        assert(bytes@ =~= self@.bytes);
        bytes
    }

    /// Whether a payload of `buffer_size` bytes still has room.
    pub fn fit(&mut self, buffer_size: usize) -> (fits: bool)
        requires
            old(self).wf(),
        ensures
            *final(self) == *old(self),
            fits == old(self)@.fits(buffer_size as nat),
    {
        (self.max_size - self.offset) >= buffer_size
    }

    /// Asks for the written pages to be carried to the file, without waiting
    /// for it. The log is as before, whether or not the request is taken.
    /// Whether it is taken rests with the operating system; `flushed` says
    /// what is returned for each of its answers.
    pub fn flush(&mut self) -> (flushed: Result<(), Error>)
        requires
            old(self).wf(),
        ensures
            *final(self) == *old(self),
            flushed matches Err(e) ==> e is Io,
    {
        Log::flushed(map_flush_async(&self.mmap))
    }

    /// What a flush returns for the answer that the operating system gave
    /// to the request: nothing where it took the request, its refusal as
    /// `Io` where it did not.
    pub fn flushed(answer: Result<(), std::io::Error>) -> (flushed: Result<(), Error>)
        ensures
            match answer {
                Ok(()) => flushed is Ok,
                Err(refusal) => flushed == Err::<(), Error>(Error::Io(refusal)),
            },
    {
        match answer {
            Ok(()) => Ok(()),
            Err(refusal) => Err(Error::Io(refusal)),
        }
    }

    /// Appends `buffer` and returns its length. Where it has no room the log
    /// is left as it was.
    pub fn write(&mut self, buffer: &[u8]) -> (written: Result<usize, Error>)
        requires
            old(self).wf(),
        ensures
            final(self).wf(),
            match written {
                Ok(n) => {
                    &&& old(self)@.fits(buffer@.len())
                    &&& n == buffer@.len()
                    &&& final(self)@ == old(self)@.appended(buffer@)
                },
                Err(e) => {
                    &&& !old(self)@.fits(buffer@.len())
                    &&& e is NoSpaceLeft
                    &&& *final(self) == *old(self)
                },
            },
    {
        let buffer_size = buffer.len();
        if !self.fit(buffer_size) {
            return Err(Error::NoSpaceLeft);
        }
        let from = self.offset;
        self.offset += buffer_size;
        map_write(&mut self.mmap, from, self.offset, buffer);
        Ok(buffer_size)
    }

    /// The `size` bytes from `offset` on, borrowed from the region. The range
    /// may reach past what has been written, not past the region.
    pub fn read_at(&self, offset: usize, size: usize) -> (read: Result<&[u8], Error>)
        requires
            self.wf(),
        ensures
            match read {
                Ok(bytes) => self@.range(offset as nat, size as nat) == Some(bytes@),
                Err(e) => self@.range(offset as nat, size as nat) is None && e is InvalidIndex,
            },
    {
        match offset.checked_add(size) {
            Some(end) if end <= self.max_size => Ok(map_read(&self.mmap, offset, end)),
            _ => Err(Error::InvalidIndex),
        }
    }
}

} // verus!
