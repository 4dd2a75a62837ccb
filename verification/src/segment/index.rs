//! The index file of a segment: one entry of fixed width for each record of
//! the log, in a memory-mapped region of fixed size.

use vstd::prelude::*;
use vstd::slice::slice_subrange;
use vstd::string::StringExecFns;
use memmap::MmapMut;
use crate::decimal::{
    ascii_text, field_value, is_digit, lemma_digits_ten, lemma_padded_digits, lemma_padded_len,
    lemma_value_of_padded, padded, padded_string, parse_field, push_ascii, push_padded,
};
use crate::segment::log::STEM_WIDTH;
use crate::mapping::{map_flush_async, map_len, map_read, map_write, mapped_bytes};

verus! {

/// Why an operation on an index failed.
#[derive(Debug)]
pub enum Error {
    /// The operating system refused a request.
    Io(std::io::Error),
    /// The entry read is neither blank nor two fields of decimal digits.
    Parse,
    /// No room is left for another entry.
    NoSpaceLeft,
    /// The entry asked for lies past the end of the index.
    InvalidIndex,
}

/// How many bytes an entry takes in the index.
pub const ENTRY_SIZE: usize = 20;

/// How many bytes each of the two fields of an entry takes.
pub const FIELD_SIZE: usize = 10;

/// The largest number that a field can hold.
pub const FIELD_MAX: u64 = 9_999_999_999;

/// Where a record lies in the log file, and how long it is.
#[derive(Debug, Clone, Copy, PartialEq, Eq, Structural)]
pub struct Entry {
    /// Position of the record's first byte in the log.
    pub offset: usize,
    /// Length of the record in bytes.
    pub size: usize,
}

impl Entry {
    /// Whether both numbers fit in ten digits, so that the entry can be
    /// stored and read back.
    pub open spec fn representable(self) -> bool {
        self.offset <= FIELD_MAX && self.size <= FIELD_MAX
    }

    /// The entry as text: the offset, then the size, each in decimal and
    /// filled with zeros to ten digits, nothing between them. A number
    /// beyond ten digits is written with all its digits.
    pub open spec fn text(self) -> Seq<u8> {
        padded(self.offset as nat, FIELD_SIZE as nat) + padded(self.size as nat, FIELD_SIZE as nat)
    }

    /// What is stored for the entry: the first twenty bytes of its text,
    /// which is the whole of it where the entry is representable.
    pub open spec fn block(self) -> Seq<u8> {
        self.text().subrange(0, ENTRY_SIZE as int)
    }

    /// An entry for the record of `size` bytes at `offset`.
    pub fn new(offset: usize, size: usize) -> (entry: Entry)
        ensures
            entry == (Entry { offset, size }),
    {
        Entry { offset, size }
    }

    /// The text of the entry, as bytes.
    pub fn to_bytes(&self) -> (bytes: Vec<u8>)
        ensures
            bytes@ == self.text(),
    {
        let mut bytes: Vec<u8> = Vec::new();
        push_padded(&mut bytes, self.offset, FIELD_SIZE);
        push_padded(&mut bytes, self.size, FIELD_SIZE);
        assert(bytes@ =~= self.text());
        bytes
    }

    /// The text of the entry, as a string.
    pub fn to_string(&self) -> (text: String)
        ensures
            text@ == ascii_text(self.text()),
    {
        let bytes = self.to_bytes();
        let mut text = String::new();
        push_ascii(&mut text, bytes.as_slice());
        assert(text@ =~= ascii_text(self.text()));
        text
    }

    /// The text of an entry has at least twenty bytes, and exactly twenty
    /// where the entry is representable.
    pub proof fn lemma_text_len(self)
        ensures
            self.text().len() >= ENTRY_SIZE,
            self.block().len() == ENTRY_SIZE,
            self.representable() ==> self.block() == self.text(),
            self.representable() ==> self.block().subrange(0, FIELD_SIZE as int) == padded(
                self.offset as nat,
                FIELD_SIZE as nat,
            ),
            self.representable() ==> self.block().subrange(FIELD_SIZE as int, ENTRY_SIZE as int)
                == padded(self.size as nat, FIELD_SIZE as nat),
    {
        lemma_padded_len(self.offset as nat, FIELD_SIZE as nat);
        lemma_padded_len(self.size as nat, FIELD_SIZE as nat);
        if self.representable() {
            lemma_digits_ten(self.offset as nat);
            lemma_digits_ten(self.size as nat);
            assert(self.block() =~= self.text());
            assert(self.block().subrange(0, FIELD_SIZE as int) =~= padded(
                self.offset as nat,
                FIELD_SIZE as nat,
            ));
            assert(self.block().subrange(FIELD_SIZE as int, ENTRY_SIZE as int) =~= padded(
                self.size as nat,
                FIELD_SIZE as nat,
            ));
        }
    }
}

/// Whether every byte of `block` is zero, as in a part of the file that was
/// never written.
pub open spec fn is_blank(block: Seq<u8>) -> bool {
    forall|i: int| 0 <= i < block.len() ==> #[trigger] block[i] == 0
}

/// The entry that a block of twenty bytes holds. A blank block, one that was
/// never written, reads as the entry of offset 0 and size 0. Any other block
/// holds an entry where both of its halves are ten decimal digits.
pub open spec fn decode(block: Seq<u8>) -> Option<Entry> {
    if is_blank(block) {
        Some(Entry { offset: 0, size: 0 })
    } else {
        match (
            field_value(block.subrange(0, FIELD_SIZE as int)),
            field_value(block.subrange(FIELD_SIZE as int, ENTRY_SIZE as int)),
        ) {
            (Some(offset), Some(size)) => Some(Entry { offset, size }),
            _ => None,
        }
    }
}

/// An entry that is representable reads back as itself from what is stored
/// for it.
pub proof fn lemma_decode_block(entry: Entry)
    requires
        entry.representable(),
    ensures
        decode(entry.block()) == Some(entry),
{
    entry.lemma_text_len();
    let block = entry.block();
    let first = block.subrange(0, FIELD_SIZE as int);
    let second = block.subrange(FIELD_SIZE as int, ENTRY_SIZE as int);
    lemma_padded_digits(entry.offset as nat, FIELD_SIZE as nat);
    lemma_padded_digits(entry.size as nat, FIELD_SIZE as nat);
    lemma_value_of_padded(entry.offset as nat, FIELD_SIZE as nat);
    lemma_value_of_padded(entry.size as nat, FIELD_SIZE as nat);
    assert(first.len() == 10 && second.len() == 10);
    assert(is_digit(first[0]));
    assert(block[0] == first[0]);
    assert(!is_blank(block));
}

/// An index: a mapped region and the position up to which it has been
/// written.
///
/// ```text
///                              cursor
///                                 v
/// |-------------------------------|---------|
/// | offset size | offset size |...| unused  |
/// |-------------------------------|---------|
/// ```
#[derive(Debug)]
pub struct Index {
    /// The mapped region.
    mmap: MmapMut,
    /// Length of the mapped region.
    max_size: usize,
    /// Ordinal of the segment that the index belongs to.
    base_offset: usize,
    /// How many bytes have been written; the next entry starts here.
    offset: usize,
}

/// What an index is, mathematically.
pub struct IndexView {
    /// Ordinal of the segment that the index belongs to.
    pub base_offset: nat,
    /// Every byte of the region, written or not.
    pub bytes: Seq<u8>,
    /// How many bytes have been written.
    pub cursor: nat,
}

impl IndexView {
    /// The size of the region.
    pub open spec fn capacity(self) -> nat {
        self.bytes.len()
    }

    /// Whether `n` more entries still have room.
    pub open spec fn fits(self, n: nat) -> bool {
        self.capacity() - self.cursor >= ENTRY_SIZE * n
    }

    /// How many entries have been written.
    pub open spec fn count(self) -> nat {
        self.cursor / (ENTRY_SIZE as nat)
    }

    /// Whether the region is long enough to hold a block number `k`.
    pub open spec fn holds(self, k: nat) -> bool {
        (k + 1) * ENTRY_SIZE <= self.capacity()
    }

    /// The block number `k` of the region, written or not.
    pub open spec fn block(self, k: nat) -> Seq<u8> {
        self.bytes.subrange((k * ENTRY_SIZE) as int, (k * ENTRY_SIZE + ENTRY_SIZE) as int)
    }

    /// The entry that block number `k` holds.
    pub open spec fn entry(self, k: nat) -> Option<Entry> {
        decode(self.block(k))
    }

    /// The bytes that have been written.
    pub open spec fn live(self) -> Seq<u8> {
        self.bytes.subrange(0, self.cursor as int)
    }

    /// Whether every byte past the cursor is zero.
    pub open spec fn tail_blank(self) -> bool {
        forall|i: int| self.cursor <= i < self.bytes.len() ==> #[trigger] self.bytes[i] == 0
    }

    /// The index after `entry` has been appended.
    pub open spec fn appended(self, entry: Entry) -> IndexView
        recommends
            self.fits(1),
    {
        IndexView {
            base_offset: self.base_offset,
            bytes: self.bytes.subrange(0, self.cursor as int) + entry.block()
                + self.bytes.subrange((self.cursor + ENTRY_SIZE) as int, self.bytes.len() as int),
            cursor: self.cursor + ENTRY_SIZE as nat,
        }
    }

    /// Appending an entry to an index whose cursor stands at the start of a
    /// block fills that block and no other: the written part grows by the
    /// entry's twenty bytes, every other block is as before, and a tail that
    /// was blank stays blank.
    pub proof fn lemma_appended(self, entry: Entry)
        requires
            self.cursor % (ENTRY_SIZE as nat) == 0,
            self.fits(1),
        ensures
            self.appended(entry).capacity() == self.capacity(),
            self.appended(entry).count() == self.count() + 1,
            self.appended(entry).live() == self.live() + entry.block(),
            self.appended(entry).block(self.count()) == entry.block(),
            forall|k: nat|
                k != self.count() && self.holds(k) ==> #[trigger] self.appended(entry).block(k)
                    == self.block(k),
            self.tail_blank() ==> self.appended(entry).tail_blank(),
    {
        entry.lemma_text_len();
        let after = self.appended(entry);
        assert(after.live() =~= self.live() + entry.block());
        assert(after.block(self.count()) =~= entry.block());
        assert forall|k: nat| k != self.count() && self.holds(k) implies #[trigger] after.block(k)
            == self.block(k) by {
            assert(after.block(k) =~= self.block(k));
        }
    }
}

impl View for Index {
    type V = IndexView;

    closed spec fn view(&self) -> IndexView {
        IndexView {
            base_offset: self.base_offset as nat,
            bytes: mapped_bytes(self.mmap),
            cursor: self.offset as nat,
        }
    }
}

impl Index {
    /// The name of the index file of the segment of ordinal `base_offset`:
    /// the ordinal in twenty digits, then `.idx`.
    pub fn file_name(base_offset: usize) -> (name: String)
        ensures
            name@ == ascii_text(padded(base_offset as nat, STEM_WIDTH as nat)) + ".idx"@,
    {
        let mut name = padded_string(base_offset, STEM_WIDTH);
        name.append(".idx");
        name
    }

    /// The invariant of an index: the cursor lies within the region, at the
    /// start of a block, and the region has the length recorded.
    pub closed spec fn wf(&self) -> bool {
        &&& self.offset <= self.max_size
        &&& self.offset % ENTRY_SIZE == 0
        &&& self.max_size == mapped_bytes(self.mmap).len()
    }

    /// In a well-formed index the written part is a whole number of blocks
    /// within the region, and all sizes fit in `usize`.
    pub proof fn lemma_wf(&self)
        requires
            self.wf(),
        ensures
            self@.cursor <= self@.capacity() <= usize::MAX,
            self@.cursor % (ENTRY_SIZE as nat) == 0,
            self@.cursor == self@.count() * ENTRY_SIZE,
            self@.base_offset <= usize::MAX,
    {
    }

    /// Makes an index of the mapped region `mmap`, for the segment of
    /// ordinal `base_offset`. Its size is the length of the mapping. Nothing
    /// counts as written, whatever the region holds.
    pub fn new(mmap: MmapMut, base_offset: usize) -> (index: Index)
        ensures
            index.wf(),
            index@ == (IndexView {
                base_offset: base_offset as nat,
                bytes: mapped_bytes(mmap),
                cursor: 0,
            }),
    {
        let max_size = map_len(&mmap);
        Index { mmap, max_size, base_offset, offset: 0 }
    }

    /// How many bytes have been written: twenty for each entry.
    pub fn offset(&self) -> (offset: usize)
        ensures
            offset == self@.cursor,
    {
        self.offset
    }

    /// The whole region, as it lies in the file: the entries that have been
    /// written, then the rest.
    pub fn as_bytes(&self) -> (bytes: &[u8])
        requires
            self.wf(),
        ensures
            bytes@ == self@.bytes,
    {
        let bytes = map_read(&self.mmap, 0, self.max_size);
        assert(bytes@ =~= self@.bytes);
        bytes
    }

    /// Whether `entry` more entries still have room.
    pub fn fit(&mut self, entry: usize) -> (fits: bool)
        requires
            old(self).wf(),
        ensures
            *final(self) == *old(self),
            fits == old(self)@.fits(entry as nat),
    {
        entry <= (self.max_size - self.offset) / ENTRY_SIZE
    }

    /// Appends `entry` and returns the twenty bytes it took. Where no room
    /// is left the index stays as it was.
    pub fn write(&mut self, entry: Entry) -> (written: Result<usize, Error>)
        requires
            old(self).wf(),
        ensures
            final(self).wf(),
            match written {
                Ok(n) => {
                    &&& old(self)@.fits(1)
                    &&& n == ENTRY_SIZE
                    &&& final(self)@ == old(self)@.appended(entry)
                    &&& final(self)@.capacity() == old(self)@.capacity()
                    &&& final(self)@.count() == old(self)@.count() + 1
                    &&& final(self)@.block(old(self)@.count()) == entry.block()
                    &&& final(self)@.live() == old(self)@.live() + entry.block()
                    &&& old(self)@.tail_blank() ==> final(self)@.tail_blank()
                },
                Err(e) => {
                    &&& !old(self)@.fits(1)
                    &&& e is NoSpaceLeft
                    &&& *final(self) == *old(self)
                },
            },
    {
        if !self.fit(1) {
            return Err(Error::NoSpaceLeft);
        }
        let text = entry.to_bytes();
        proof {
            entry.lemma_text_len();
            self@.lemma_appended(entry);
        }
        let from = self.offset;
        self.offset += ENTRY_SIZE;
        map_write(&mut self.mmap, from, self.offset, slice_subrange(text.as_slice(), 0, ENTRY_SIZE));
        Ok(ENTRY_SIZE)
    }

    /// Asks for the written pages to be carried to the file, without waiting
    /// for it. The index is as before, whether or not the request is taken.
    /// Whether it is taken rests with the operating system; `flushed` says
    /// what is returned for each of its answers.
    pub fn flush(&mut self) -> (flushed: Result<(), Error>)
        requires
            old(self).wf(),
        ensures
            *final(self) == *old(self),
            flushed matches Err(e) ==> e is Io,
    {
        Index::flushed(map_flush_async(&self.mmap))
    }

    /// What a flush returns for the answer that the operating system gave
    /// to the request: nothing where it took the request, its refusal as
    /// `Io` where it did not.
    pub fn flushed(answer: Result<(), std::io::Error>) -> (flushed: Result<(), Error>)
        ensures
            match answer {
                Ok(()) => flushed is Ok,
                Err(refusal) => flushed == Err::<(), Error>(Error::Io(refusal)),
            },
    {
        match answer {
            Ok(()) => Ok(()),
            Err(refusal) => Err(Error::Io(refusal)),
        }
    }

    /// Reads the entry number `offset`, counting from 0. The entry may lie
    /// past what has been written, not past the region: a block that was
    /// never written reads as the entry of offset 0 and size 0.
    pub fn read_at(&self, offset: usize) -> (read: Result<Entry, Error>)
        requires
            self.wf(),
        ensures
            match read {
                Ok(entry) => self@.holds(offset as nat) && self@.entry(offset as nat) == Some(
                    entry,
                ),
                Err(Error::InvalidIndex) => !self@.holds(offset as nat),
                Err(Error::Parse) => self@.holds(offset as nat) && self@.entry(offset as nat)
                    is None,
                Err(_) => false,
            },
    {
        if offset >= self.max_size / ENTRY_SIZE {
            return Err(Error::InvalidIndex);
        }
        let from = offset * ENTRY_SIZE;
        let block = map_read(&self.mmap, from, from + ENTRY_SIZE);
        match decode_block(block) {
            Some(entry) => Ok(entry),
            None => Err(Error::Parse),
        }
    }
}

/// Reads the entry that a block of twenty bytes holds.
pub fn decode_block(block: &[u8]) -> (entry: Option<Entry>)
    requires
        block@.len() == ENTRY_SIZE,
    ensures
        entry == decode(block@),
{
    let mut blank = true;
    let mut i: usize = 0;
    while i < ENTRY_SIZE
        invariant
            i <= ENTRY_SIZE,
            block@.len() == ENTRY_SIZE,
            blank == (forall|j: int| 0 <= j < i ==> #[trigger] block@[j] == 0),
        decreases ENTRY_SIZE - i,
    {
        if block[i] != 0 {
            blank = false;
        }
        i += 1;
    }
    if blank {
        return Some(Entry { offset: 0, size: 0 });
    }
    let first = parse_field(slice_subrange(block, 0, FIELD_SIZE));
    let second = parse_field(slice_subrange(block, FIELD_SIZE, ENTRY_SIZE));
    match (first, second) {
        (Some(offset), Some(size)) => Some(Entry { offset, size }),
        _ => None,
    }
}

} // verus!
