//! What holds of a commit log over any run of writes.

use vstd::prelude::*;
use vstd::seq_lib::lemma_flatten_concat;
use crate::segment::index::{is_blank, Entry, ENTRY_SIZE};
use crate::segment::SegmentView;
use crate::view::{flat, lemma_locate, CommitLogView};
use crate::Error;

verus! {

/// A write that succeeds leaves what the model of a write gives.
pub proof fn law_write_follows_model(
    before: CommitLogView,
    data: Seq<u8>,
    spare: Option<(Seq<u8>, Seq<u8>)>,
    written: Result<usize, Error>,
    after: CommitLogView,
)
    requires
        before.write_result(data, spare, written, after),
        written is Ok,
    ensures
        written == Ok::<usize, Error>(data.len() as usize),
        data.len() <= before.segment_size,
        after == before.written(data, spare),
{
}

/// A record longer than a log file is refused, and the commit log stays as
/// it was.
pub proof fn law_reject_oversize(
    before: CommitLogView,
    data: Seq<u8>,
    spare: Option<(Seq<u8>, Seq<u8>)>,
    written: Result<usize, Error>,
    after: CommitLogView,
)
    requires
        before.write_result(data, spare, written, after),
        data.len() > before.segment_size,
    ensures
        written matches Err(Error::BufferSizeExceeded),
        after == before,
{
}

/// One write to a sound commit log with addressable log files, room for an
/// entry in an index file, and regions of the right sizes at hand: the
/// commit log stays sound, keeps its sizes, and the record becomes the last
/// of all.
pub proof fn law_write(before: CommitLogView, data: Seq<u8>, log: Seq<u8>, index: Seq<u8>)
    requires
        before.sound(),
        before.addressable(),
        before.index_size >= ENTRY_SIZE,
        data.len() <= before.segment_size,
        before.suits(log, index),
    ensures
        before.written(data, Some((log, index))).sound(),
        before.written(data, Some((log, index))).segment_size == before.segment_size,
        before.written(data, Some((log, index))).index_size == before.index_size,
        before.written(data, Some((log, index))).history() == before.history().push(data),
{
    if before.active().fits(data.len()) {
        before.lemma_appended(data);
    } else {
        before.lemma_rotated(log, index);
        before.rotated(log, index).lemma_appended(data);
    }
}

/// In every index file of a sound commit log the written part is a whole
/// number of entries of twenty bytes, and lies within the file.
pub proof fn law_index_fixed_width(commit_log: CommitLogView, i: int)
    requires
        commit_log.sound(),
        0 <= i < commit_log.segments.len(),
    ensures
        commit_log.segments[i].index.live().len() == commit_log.segments[i].index.count()
            * ENTRY_SIZE,
        commit_log.segments[i].index.live().len() <= commit_log.index_size,
        commit_log.segments[i].index.capacity() == commit_log.index_size,
{
    assert(commit_log.in_place(i));
}

/// Where all that lies past the written part of every index file is zero, a
/// write leaves it so, given that the index region for a new segment is all
/// zero, as a new file is.
pub proof fn law_index_tails_stay_blank(
    before: CommitLogView,
    data: Seq<u8>,
    log: Seq<u8>,
    index: Seq<u8>,
)
    requires
        before.sound(),
        before.index_tails_blank(),
        before.index_size >= ENTRY_SIZE,
        data.len() <= before.segment_size,
        before.suits(log, index),
        is_blank(index),
    ensures
        before.written(data, Some((log, index))).index_tails_blank(),
{
    if before.active().fits(data.len()) {
        before.lemma_appended(data);
    } else {
        before.lemma_rotated(log, index);
        before.rotated(log, index).lemma_appended(data);
    }
}

/// A record that is longer than the room left in the active log goes to a
/// new segment. After the write there is exactly one segment more, and the
/// record is the first of the last segment.
pub proof fn law_rotation_boundary(
    before: CommitLogView,
    data: Seq<u8>,
    log: Seq<u8>,
    index: Seq<u8>,
)
    requires
        before.sound(),
        before.addressable(),
        before.index_size >= ENTRY_SIZE,
        data.len() <= before.segment_size,
        before.suits(log, index),
        data.len() > before.active().log.capacity() - before.active().log.cursor,
    ensures
        before.written(data, Some((log, index))).segments.len() == before.segments.len() + 1,
        before.written(data, Some((log, index))).read(before.segments.len(), 0) == Some(data),
{
    before.lemma_rotated(log, index);
    let turned = before.rotated(log, index);
    SegmentView::lemma_fresh(before.segments.len(), log, index);
    turned.lemma_appended(data);
}

/// In a sound commit log with addressable log files, record number `i` of
/// all is read at the address that `segment_of` and `offset_within` give
/// for it.
pub proof fn law_read_located(commit_log: CommitLogView, i: nat)
    requires
        commit_log.sound(),
        commit_log.addressable(),
        i < commit_log.history().len(),
    ensures
        commit_log.read(commit_log.segment_of(i), commit_log.offset_within(i)) == Some(
            commit_log.history()[i as int],
        ),
{
    lemma_locate(commit_log.records(), i);
    let s = commit_log.segment_of(i);
    let r = commit_log.offset_within(i);
    assert(commit_log.segments[s as int].consistent());
    commit_log.segments[s as int].lemma_consistent(r);
}

/// After the records `payloads`, none longer than a log file, have been
/// written in order, the records of the commit log are those it had, then
/// `payloads`; and each is read back at its address.
pub proof fn law_round_trip(
    start: CommitLogView,
    payloads: Seq<Seq<u8>>,
    spare: spec_fn(int) -> (Seq<u8>, Seq<u8>),
)
    requires
        start.sound(),
        start.addressable(),
        start.index_size >= ENTRY_SIZE,
        forall|k: int| 0 <= k < payloads.len() ==> (#[trigger] payloads[k]).len()
            <= start.segment_size,
        forall|k: int| start.suits((#[trigger] spare(k)).0, spare(k).1),
    ensures
        start.written_all(payloads, spare).sound(),
        start.written_all(payloads, spare).segment_size == start.segment_size,
        start.written_all(payloads, spare).index_size == start.index_size,
        start.written_all(payloads, spare).history() == start.history() + payloads,
        forall|i: nat|
            i < start.history().len() + payloads.len() ==> #[trigger] start.written_all(
                payloads,
                spare,
            ).read(
                start.written_all(payloads, spare).segment_of(i),
                start.written_all(payloads, spare).offset_within(i),
            ) == Some((start.history() + payloads)[i as int]),
    decreases payloads.len(),
{
    let end = start.written_all(payloads, spare);
    if payloads.len() == 0 {
        assert(start.history() + payloads =~= start.history());
    } else {
        let k = payloads.len() - 1;
        let before = start.written_all(payloads.drop_last(), spare);
        law_round_trip(start, payloads.drop_last(), spare);
        assert(payloads[k].len() <= start.segment_size);
        assert(start.suits(spare(k).0, spare(k).1));
        law_write(before, payloads.last(), spare(k).0, spare(k).1);
        assert((start.history() + payloads.drop_last()).push(payloads.last()) =~= start.history()
            + payloads);
    }
    assert forall|i: nat| i < start.history().len() + payloads.len() implies #[trigger] end.read(
        end.segment_of(i),
        end.offset_within(i),
    ) == Some((start.history() + payloads)[i as int]) by {
        law_read_located(end, i);
    }
}

/// In a commit log that began empty, over the regions `log` and `index`,
/// the record of write number `i` is read at the address of record number
/// `i` of all, however many segments the writes have filled.
pub proof fn law_ordering(
    log: Seq<u8>,
    index: Seq<u8>,
    payloads: Seq<Seq<u8>>,
    spare: spec_fn(int) -> (Seq<u8>, Seq<u8>),
    i: nat,
)
    requires
        index.len() >= ENTRY_SIZE,
        forall|k: int| 0 <= k < payloads.len() ==> (#[trigger] payloads[k]).len() <= log.len(),
        forall|k: int| (#[trigger] spare(k)).0.len() == log.len() && spare(k).1.len() == index.len(),
        (CommitLogView {
            segment_size: log.len(),
            index_size: index.len(),
            segments: seq![SegmentView::fresh(0, log, index)],
        }).addressable(),
        i < payloads.len(),
    ensures
        ({
            let start = CommitLogView {
                segment_size: log.len(),
                index_size: index.len(),
                segments: seq![SegmentView::fresh(0, log, index)],
            };
            let end = start.written_all(payloads, spare);
            end.read(end.segment_of(i), end.offset_within(i)) == Some(payloads[i as int])
        }),
{
    let start = CommitLogView {
        segment_size: log.len(),
        index_size: index.len(),
        segments: seq![SegmentView::fresh(0, log, index)],
    };
    CommitLogView::lemma_first(log, index);
    law_round_trip(start, payloads, spare);
    let end = start.written_all(payloads, spare);
    assert(start.history() + payloads =~= payloads);
    assert(end.read(end.segment_of(i), end.offset_within(i)) == Some(
        (start.history() + payloads)[i as int],
    ));
}

/// The bytes of the records of one segment from number `from` on.
pub open spec fn rest_of_segment(records: Seq<Seq<u8>>, from: nat) -> Seq<u8> {
    if from < records.len() {
        records.subrange(from as int, records.len() as int).flatten()
    } else {
        Seq::empty()
    }
}

/// The bytes of the records of the segments from number `from` on.
pub open spec fn rest_of_log(records: Seq<Seq<Seq<u8>>>, from: nat) -> Seq<u8> {
    if from < records.len() {
        flat(records.subrange(from as int, records.len() as int)).flatten()
    } else {
        Seq::empty()
    }
}

/// The bytes from a record on are its own, then those from the next on.
proof fn lemma_rest_of_segment(records: Seq<Seq<u8>>, from: nat)
    requires
        from < records.len(),
    ensures
        rest_of_segment(records, from) == records[from as int] + rest_of_segment(records, from + 1),
{
    let tail = records.subrange(from as int, records.len() as int);
    assert(tail.first() == records[from as int]);
    if from + 1 < records.len() {
        assert(tail.drop_first() =~= records.subrange((from + 1) as int, records.len() as int));
    } else {
        assert(tail.drop_first() =~= Seq::<Seq<u8>>::empty());
    }
    assert(tail.flatten() == tail.first() + tail.drop_first().flatten());
    assert(rest_of_segment(records, from) =~= records[from as int] + rest_of_segment(
        records,
        from + 1,
    ));
}

/// The bytes from a segment on are its own, then those from the next on.
proof fn lemma_rest_of_log(records: Seq<Seq<Seq<u8>>>, from: nat)
    requires
        from < records.len(),
    ensures
        rest_of_log(records, from) == rest_of_segment(records[from as int], 0) + rest_of_log(
            records,
            from + 1,
        ),
{
    let tail = records.subrange(from as int, records.len() as int);
    assert(tail.first() == records[from as int]);
    let later = tail.drop_first();
    if from + 1 < records.len() {
        assert(later =~= records.subrange((from + 1) as int, records.len() as int));
    } else {
        assert(later =~= Seq::<Seq<Seq<u8>>>::empty());
    }
    lemma_flatten_concat(records[from as int], later.flatten());
    let own = records[from as int];
    if own.len() > 0 {
        assert(own.subrange(0, own.len() as int) =~= own);
    }
}

/// In a sound commit log with addressable log files and index files that
/// are blank past their written part, a block of the index that lies within
/// the file reads as its record where one was written, else as an empty
/// record.
proof fn lemma_read_slot(commit_log: CommitLogView, segment: nat, record: nat)
    requires
        commit_log.sound(),
        commit_log.addressable(),
        commit_log.index_tails_blank(),
        segment < commit_log.segments.len(),
        (record + 1) * ENTRY_SIZE <= commit_log.index_size,
    ensures
        commit_log.read(segment, record) == Some(
            if record < commit_log.records()[segment as int].len() {
                commit_log.records()[segment as int][record as int]
            } else {
                Seq::<u8>::empty()
            },
        ),
{
    let s = commit_log.segments[segment as int];
    assert(commit_log.in_place(segment as int));
    assert(s.consistent());
    assert(s.index.tail_blank());
    if record < s.count() {
        s.lemma_consistent(record);
    } else {
        assert(record * ENTRY_SIZE >= s.index.cursor) by (nonlinear_arith)
            requires
                record >= s.index.cursor / (ENTRY_SIZE as nat),
                s.index.cursor % (ENTRY_SIZE as nat) == 0,
                ENTRY_SIZE == 20,
        ;
        let block = s.index.block(record);
        assert forall|i: int| 0 <= i < block.len() implies #[trigger] block[i] == 0 by {
            assert(block[i] == s.index.bytes[record * ENTRY_SIZE + i]);
        }
        assert(s.index.entry(record) == Some(Entry { offset: 0, size: 0 }));
        assert(s.log.bytes.subrange(0, 0) =~= Seq::<u8>::empty());
    }
}

/// What a scan meets from a block of a segment's index on: the records of
/// the segment from that number on, then those of the segments after it.
proof fn lemma_scan_from(commit_log: CommitLogView, segment: nat, record: nat, struck: bool)
    requires
        commit_log.sound(),
        commit_log.addressable(),
        commit_log.index_tails_blank(),
        commit_log.index_size >= ENTRY_SIZE,
        segment < commit_log.segments.len(),
        record <= commit_log.index_size / (ENTRY_SIZE as nat),
        struck ==> record == 0,
    ensures
        commit_log.scanned(segment, record, struck) == rest_of_segment(
            commit_log.records()[segment as int],
            record,
        ) + rest_of_log(commit_log.records(), segment + 1),
    decreases commit_log.segments.len() - segment, commit_log.index_size / (ENTRY_SIZE as nat)
        - record,
{
    let records = commit_log.records();
    let own = records[segment as int];
    let slots = commit_log.index_size / (ENTRY_SIZE as nat);
    assert(commit_log.in_place(segment as int));
    if record < slots {
        assert((record + 1) * ENTRY_SIZE <= commit_log.index_size) by (nonlinear_arith)
            requires
                record < commit_log.index_size / (ENTRY_SIZE as nat),
                ENTRY_SIZE == 20,
        ;
        lemma_read_slot(commit_log, segment, record);
        lemma_scan_from(commit_log, segment, record + 1, false);
        if record < own.len() {
            lemma_rest_of_segment(own, record);
        }
        assert(commit_log.scanned(segment, record, struck) == commit_log.read(
            segment,
            record,
        )->0 + commit_log.scanned(segment, record + 1, false));
        assert(commit_log.scanned(segment, record, struck) =~= rest_of_segment(own, record)
            + rest_of_log(records, segment + 1));
    } else {
        assert(!commit_log.segments[segment as int].index.holds(record)) by (nonlinear_arith)
            requires
                record >= commit_log.index_size / (ENTRY_SIZE as nat),
                commit_log.segments[segment as int].index.capacity() == commit_log.index_size,
                ENTRY_SIZE == 20,
        ;
        assert(commit_log.read(segment, record) is None);
        assert(record > 0);
        assert(commit_log.segments[segment as int].count() <= slots) by (nonlinear_arith)
            requires
                commit_log.segments[segment as int].count() == commit_log.segments[segment as int].index.cursor / (ENTRY_SIZE as nat),
                commit_log.segments[segment as int].index.cursor <= commit_log.index_size,
                slots == commit_log.index_size / (ENTRY_SIZE as nat),
                ENTRY_SIZE == 20,
        ;
        assert(rest_of_segment(own, record) =~= Seq::<u8>::empty());
        assert(commit_log.scanned(segment, record, struck) == commit_log.scanned(
            segment + 1,
            0,
            true,
        ));
        if segment + 1 < commit_log.segments.len() {
            lemma_scan_from(commit_log, segment + 1, 0, true);
            lemma_rest_of_log(records, segment + 1);
        } else {
            assert(commit_log.read(segment + 1, 0) is None);
            assert(commit_log.scanned(segment + 1, 0, true) =~= Seq::<u8>::empty());
        }
        assert(commit_log.scanned(segment, record, struck) =~= rest_of_segment(own, record)
            + rest_of_log(records, segment + 1));
    }
}

/// Whatever is computed over the bytes written, record after record, comes
/// out the same over the bytes that a scan meets, for they are the same
/// bytes. This holds of a sound commit log with addressable log files whose
/// index files have room for an entry and are blank past their written
/// part, as they are when every file was new.
pub proof fn law_scan_meets_history(commit_log: CommitLogView)
    requires
        commit_log.sound(),
        commit_log.addressable(),
        commit_log.index_tails_blank(),
        commit_log.index_size >= ENTRY_SIZE,
    ensures
        commit_log.scanned(0, 0, false) == commit_log.history().flatten(),
{
    let records = commit_log.records();
    lemma_scan_from(commit_log, 0, 0, false);
    lemma_rest_of_log(records, 0);
    assert(records.subrange(0, records.len() as int) =~= records);
}

} // verus!
