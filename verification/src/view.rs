//! What a commit log is, mathematically, and what holds of it.
//!
//! A commit log is a row of segments. Its records are those of its
//! segments, in their order; a record is found by the number of its segment
//! and its number within the segment.

use vstd::prelude::*;
use crate::segment::index::{is_blank, ENTRY_SIZE, FIELD_MAX};
use crate::segment::SegmentView;

verus! {

/// The model of a commit log.
pub struct CommitLogView {
    /// The size of every log file, and the largest record that is taken.
    pub segment_size: nat,
    /// The size of every index file.
    pub index_size: nat,
    /// The segments, oldest first. The last one is the active one.
    pub segments: Seq<SegmentView>,
}

/// The records of a row of segments, one after the other.
pub open spec fn flat(records: Seq<Seq<Seq<u8>>>) -> Seq<Seq<u8>> {
    records.flatten()
}

/// Where record number `i` of all lies in a row of segments' records: the
/// number of its segment, and its number within that segment.
pub open spec fn locate(records: Seq<Seq<Seq<u8>>>, i: nat) -> (nat, nat)
    decreases records.len(),
{
    if records.len() == 0 || i < records.first().len() {
        (0, i)
    } else {
        let (segment, within) = locate(records.drop_first(), (i - records.first().len()) as nat);
        (segment + 1, within)
    }
}

/// Record number `i` of all is the record that `locate` points at.
pub proof fn lemma_locate(records: Seq<Seq<Seq<u8>>>, i: nat)
    requires
        i < flat(records).len(),
    ensures
        locate(records, i).0 < records.len(),
        locate(records, i).1 < records[locate(records, i).0 as int].len(),
        records[locate(records, i).0 as int][locate(records, i).1 as int] == flat(records)[i as int],
    decreases records.len(),
{
    if records.len() == 0 {
    } else if i < records.first().len() {
    } else {
        let rest = records.drop_first();
        lemma_locate(rest, (i - records.first().len()) as nat);
    }
}

/// Appending a record to the last segment's records appends it to the
/// records of all.
pub proof fn lemma_flat_extend(records: Seq<Seq<Seq<u8>>>, data: Seq<u8>)
    requires
        records.len() > 0,
    ensures
        flat(records.update(records.len() - 1, records.last().push(data))) == flat(records).push(
            data,
        ),
{
    let front = records.drop_last();
    assert(records =~= front.push(records.last()));
    assert(records.update(records.len() - 1, records.last().push(data)) =~= front.push(
        records.last().push(data),
    ));
    front.lemma_flatten_push(records.last());
    front.lemma_flatten_push(records.last().push(data));
    assert(front.flatten() + records.last().push(data) =~= (front.flatten() + records.last()).push(
        data,
    ));
}

impl CommitLogView {
    /// The segment that takes the writes.
    pub open spec fn active(self) -> SegmentView {
        self.segments.last()
    }

    /// Whether segment number `i` has `i` for its ordinal and files of the
    /// sizes that the commit log was made with, written up to a point
    /// within them; in the index, up to the end of an entry.
    pub open spec fn in_place(self, i: int) -> bool {
        &&& self.segments[i].base_offset == i
        &&& self.segments[i].log.base_offset == i
        &&& self.segments[i].index.base_offset == i
        &&& self.segments[i].log.capacity() == self.segment_size
        &&& self.segments[i].index.capacity() == self.index_size
        &&& self.segments[i].log.cursor <= self.segment_size
        &&& self.segments[i].index.cursor <= self.index_size
        &&& self.segments[i].index.cursor % (ENTRY_SIZE as nat) == 0
    }

    /// Whether in every index file all that lies past the written part is
    /// zero.
    pub open spec fn index_tails_blank(self) -> bool {
        forall|i: int|
            0 <= i < self.segments.len() ==> (#[trigger] self.segments[i]).index.tail_blank()
    }

    /// Whether every position in a log file can be written in an index
    /// entry: the files are of at most 9,999,999,999 bytes.
    pub open spec fn addressable(self) -> bool {
        self.segment_size <= FIELD_MAX && self.segment_size <= usize::MAX
    }

    /// Whether in every segment the index and the log agree.
    pub open spec fn consistent(self) -> bool {
        forall|i: int| 0 <= i < self.segments.len() ==> (#[trigger] self.segments[i]).consistent()
    }

    /// What holds of every commit log: it has a segment, each segment is in
    /// its place, and, where the log files are addressable, index and log
    /// agree in each.
    pub open spec fn sound(self) -> bool {
        &&& self.segments.len() >= 1
        &&& forall|i: int| 0 <= i < self.segments.len() ==> #[trigger] self.in_place(i)
        &&& self.addressable() ==> self.consistent()
    }

    /// What reading record number `record` of segment number `segment`
    /// gives.
    pub open spec fn read(self, segment: nat, record: nat) -> Option<Seq<u8>> {
        if segment < self.segments.len() {
            self.segments[segment as int].read(record)
        } else {
            None
        }
    }

    /// The records of each segment.
    pub open spec fn records(self) -> Seq<Seq<Seq<u8>>> {
        Seq::new(self.segments.len(), |i: int| self.segments[i].records())
    }

    /// All records, in the order in which they were written.
    pub open spec fn history(self) -> Seq<Seq<u8>> {
        flat(self.records())
    }

    /// The number of the segment that holds record number `i` of all.
    pub open spec fn segment_of(self, i: nat) -> nat {
        locate(self.records(), i).0
    }

    /// The number that record number `i` of all has within its segment.
    pub open spec fn offset_within(self, i: nat) -> nat {
        locate(self.records(), i).1
    }

    /// How many blocks the index of segment number `segment` holds from
    /// block number `record` on; none where there is no such segment.
    pub open spec fn slots_left(self, segment: nat, record: nat) -> nat {
        if segment < self.segments.len() && record <= self.segments[segment as int].index.capacity()
            / (ENTRY_SIZE as nat) {
            (self.segments[segment as int].index.capacity() / (ENTRY_SIZE as nat) - record) as nat
        } else {
            0
        }
    }

    /// How many segments lie at or after number `segment`, and one more.
    pub open spec fn segments_left(self, segment: nat) -> nat {
        if segment <= self.segments.len() {
            (self.segments.len() + 1 - segment) as nat
        } else {
            0
        }
    }

    /// The bytes that a reader meets who goes through the commit log from
    /// record number `record` of segment number `segment` on: it reads
    /// record after record; where a read fails it turns to the next
    /// segment; where the read before had failed too it stops. `struck`
    /// says whether the read before failed.
    pub open spec fn scanned(self, segment: nat, record: nat, struck: bool) -> Seq<u8>
        decreases
            self.segments_left(segment),
            self.slots_left(segment, record),
            (if struck { 0nat } else { 1nat }),
    {
        match self.read(segment, record) {
            Some(bytes) => bytes + self.scanned(segment, record + 1, false),
            None => if struck {
                Seq::empty()
            } else {
                self.scanned(segment + 1, 0, true)
            },
        }
    }

    /// Whether a record of `n` bytes is taken at all, and the active segment
    /// has no room for it: a new segment is needed.
    pub open spec fn must_rotate(self, n: nat) -> bool {
        n <= self.segment_size && !self.active().fits(n)
    }

    /// Whether two regions have the sizes of this commit log's files.
    pub open spec fn suits(self, log: Seq<u8>, index: Seq<u8>) -> bool {
        log.len() == self.segment_size && index.len() == self.index_size
    }

    /// The commit log after `data` has been appended to the active segment.
    pub open spec fn appended(self, data: Seq<u8>) -> CommitLogView {
        CommitLogView {
            segments: self.segments.update(
                self.segments.len() - 1,
                self.active().appended(data),
            ),
            ..self
        }
    }

    /// The commit log after a new, empty segment over the regions `log` and
    /// `index` has become the active one.
    pub open spec fn rotated(self, log: Seq<u8>, index: Seq<u8>) -> CommitLogView {
        CommitLogView {
            segments: self.segments.push(SegmentView::fresh(self.segments.len(), log, index)),
            ..self
        }
    }

    /// The commit log after a successful write of `data`: appended to the
    /// active segment where it fits there, else to a new segment over the
    /// two regions of `spare`.
    pub open spec fn written(self, data: Seq<u8>, spare: Option<(Seq<u8>, Seq<u8>)>) -> CommitLogView {
        if self.active().fits(data.len()) {
            self.appended(data)
        } else {
            match spare {
                Some((log, index)) => self.rotated(log, index).appended(data),
                None => self,
            }
        }
    }

    /// The commit log after the records `payloads` have been written, one
    /// after the other, with `spare(k)` the regions at hand for a new
    /// segment at write number `k`.
    pub open spec fn written_all(
        self,
        payloads: Seq<Seq<u8>>,
        spare: spec_fn(int) -> (Seq<u8>, Seq<u8>),
    ) -> CommitLogView
        decreases payloads.len(),
    {
        if payloads.len() == 0 {
            self
        } else {
            self.written_all(payloads.drop_last(), spare).written(
                payloads.last(),
                Some(spare(payloads.len() - 1)),
            )
        }
    }

    /// A commit log of one empty segment is sound and holds no record.
    pub proof fn lemma_first(log: Seq<u8>, index: Seq<u8>)
        ensures
            ({
                let first = CommitLogView {
                    segment_size: log.len(),
                    index_size: index.len(),
                    segments: seq![SegmentView::fresh(0, log, index)],
                };
                first.sound() && first.history() == Seq::<Seq<u8>>::empty()
            }),
    {
        let first = CommitLogView {
            segment_size: log.len(),
            index_size: index.len(),
            segments: seq![SegmentView::fresh(0, log, index)],
        };
        SegmentView::lemma_fresh(0, log, index);
        assert(first.in_place(0));
        assert(first.records() =~= seq![Seq::<Seq<u8>>::empty()]);
        first.records().lemma_flatten_one_element();
    }

    /// Appending a record that fits the active segment keeps the commit log
    /// sound and changes no segment but the active one. Where the log files
    /// are addressable, the record becomes the last of all, at the next
    /// number of the active segment.
    pub proof fn lemma_appended(self, data: Seq<u8>)
        requires
            self.sound(),
            self.active().fits(data.len()),
        ensures
            self.appended(data).sound(),
            self.appended(data).segments.len() == self.segments.len(),
            self.index_tails_blank() ==> self.appended(data).index_tails_blank(),
            self.addressable() ==> {
                &&& self.appended(data).history() == self.history().push(data)
                &&& self.appended(data).read(
                    (self.segments.len() - 1) as nat,
                    self.active().count(),
                ) == Some(data)
            },
    {
        let after = self.appended(data);
        let last = self.segments.len() - 1;
        assert(self.in_place(last));
        assert forall|i: int| 0 <= i < after.segments.len() implies #[trigger] after.in_place(
            i,
        ) by {
            assert(self.in_place(i));
            if i == last {
                self.active().index.lemma_appended(self.active().next_entry(data.len()));
            }
        }
        if self.index_tails_blank() {
            assert forall|i: int| 0 <= i < after.segments.len() implies (
            #[trigger] after.segments[i]).index.tail_blank() by {
                assert(self.segments[i].index.tail_blank());
                if i == last {
                    self.active().index.lemma_appended(self.active().next_entry(data.len()));
                }
            }
        }
        if self.addressable() {
            assert(self.segments[last].consistent());
            self.active().lemma_appended(data);
            assert forall|i: int| 0 <= i < after.segments.len() implies (
            #[trigger] after.segments[i]).consistent() by {
                if i != last {
                    assert(self.segments[i].consistent());
                }
            }
            assert(after.records() =~= self.records().update(
                last,
                self.records().last().push(data),
            ));
            lemma_flat_extend(self.records(), data);
            after.segments[last].lemma_consistent(self.active().count());
            assert(after.segments[last].records()[self.active().count() as int] == data);
        }
    }

    /// Making a new segment the active one keeps the commit log sound and
    /// its records as they are.
    pub proof fn lemma_rotated(self, log: Seq<u8>, index: Seq<u8>)
        requires
            self.sound(),
            self.suits(log, index),
        ensures
            self.rotated(log, index).sound(),
            self.rotated(log, index).segments.len() == self.segments.len() + 1,
            self.rotated(log, index).active() == SegmentView::fresh(
                self.segments.len(),
                log,
                index,
            ),
            self.rotated(log, index).history() == self.history(),
            self.index_tails_blank() && is_blank(index) ==> self.rotated(
                log,
                index,
            ).index_tails_blank(),
    {
        let after = self.rotated(log, index);
        SegmentView::lemma_fresh(self.segments.len(), log, index);
        assert forall|i: int| 0 <= i < after.segments.len() implies #[trigger] after.in_place(
            i,
        ) by {
            if i < self.segments.len() {
                assert(self.in_place(i));
            }
        }
        if self.addressable() {
            assert forall|i: int| 0 <= i < after.segments.len() implies (
            #[trigger] after.segments[i]).consistent() by {
                if i < self.segments.len() {
                    assert(self.segments[i].consistent());
                }
            }
        }
        if self.index_tails_blank() && is_blank(index) {
            assert forall|i: int| 0 <= i < after.segments.len() implies (
            #[trigger] after.segments[i]).index.tail_blank() by {
                if i < self.segments.len() {
                    assert(self.segments[i].index.tail_blank());
                }
            }
        }
        assert(after.records() =~= self.records().push(Seq::<Seq<u8>>::empty()));
        self.records().lemma_flatten_push(Seq::<Seq<u8>>::empty());
        assert(self.history() + Seq::<Seq<u8>>::empty() =~= self.history());
    }
}

} // verus!
