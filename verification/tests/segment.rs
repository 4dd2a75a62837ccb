use commit_log::segment::index::Error as IndexError;
use commit_log::segment::log::Error as LogError;
use commit_log::segment::{Error, Segment};
use memmap::MmapMut;

/// A segment of ordinal `offset` over two fresh regions, all zero as new
/// files are.
fn open_segment(offset: usize, max_log_size: usize, max_index_size: usize) -> Segment {
    Segment::new(
        MmapMut::map_anon(max_log_size).unwrap(),
        MmapMut::map_anon(max_index_size).unwrap(),
        offset,
    )
}

#[test]
fn mod_test_create() {
    let s = open_segment(0, 10, 1000);

    assert_eq!(s.offset(), 0);
    assert_eq!(s.log().as_bytes().len(), 10);
    assert_eq!(s.index().as_bytes().len(), 1000);
    assert_eq!(s.log().offset(), 0);
    assert_eq!(s.index().offset(), 0);
}

#[test]
fn it_creates_the_file_when_it_does_not_exist() {
    let s = open_segment(0, 10, 1000);

    assert_eq!(s.log().as_bytes(), &[0u8; 10][..]);
}

#[test]
fn mod_test_write() {
    let mut s = open_segment(0, 100, 100);
    assert_eq!(s.write(b"2104").unwrap(), 4);

    assert_eq!(&s.log().as_bytes()[0..4], &b"2104"[..]);
    assert_eq!(&s.index().as_bytes()[0..20], &b"00000000000000000004"[..]);
}

#[test]
fn it_writes_to_a_new_segment_file() {
    let mut s = open_segment(0, 100, 1000);
    s.write(b"2104").unwrap();

    assert_eq!(&s.log().as_bytes()[0..4], &b"2104"[..]);
}

#[test]
fn segment_entries_follow_one_another() {
    let mut s = open_segment(0, 100, 100);
    s.write(b"first-message").unwrap();
    s.write(b"").unwrap();
    s.write(b"second-message").unwrap();

    assert_eq!(
        &s.index().as_bytes()[0..60],
        &b"000000000000000000130000000013000000000000000000130000000014"[..]
    );
    assert_eq!(s.log().offset(), 27);
    assert_eq!(s.index().offset(), 60);
    assert_eq!(s.read_at(0).unwrap(), b"first-message");
    assert_eq!(s.read_at(1).unwrap(), b"");
    assert_eq!(s.read_at(2).unwrap(), b"second-message");
}

#[test]
#[should_panic]
fn mod_test_invalid_write() {
    let mut s = open_segment(0, 20, 1000);
    s.write(b"this-has-17-bytes").unwrap();

    // it already has 17 bytes out of 20, it won't fit more than 3
    s.write(b"this-should-error").unwrap();
}

#[test]
#[should_panic]
fn it_fails_when_writing_to_a_file_that_is_full() {
    let mut s = open_segment(0, 20, 1000);
    s.write(b"this-has-17-bytes").unwrap();

    assert_eq!(&s.log().as_bytes()[..17], &b"this-has-17-bytes"[..]);

    s.write(b"this-should-error").unwrap();
}

#[test]
fn segment_write_with_a_full_index_changes_nothing() {
    let mut s = open_segment(0, 100, 39);
    s.write(b"one").unwrap();
    assert!(matches!(
        s.write(b"two"),
        Err(Error::Index(IndexError::NoSpaceLeft))
    ));
    assert_eq!(s.log().offset(), 3);
    assert_eq!(s.index().offset(), 20);
    assert_eq!(&s.log().as_bytes()[3..], &[0u8; 97][..]);
}

#[test]
fn segment_write_with_a_full_log_leaves_the_entry_behind() {
    let mut s = open_segment(0, 20, 1000);
    s.write(b"this-has-17-bytes").unwrap();
    assert!(!s.fit(17));
    assert!(matches!(
        s.write(b"this-should-error"),
        Err(Error::Log(LogError::NoSpaceLeft))
    ));
    // the entry was written before the log refused the payload
    assert_eq!(s.index().offset(), 40);
    assert_eq!(&s.index().as_bytes()[20..40], &b"00000000170000000017"[..]);
    assert_eq!(s.log().offset(), 17);
    // and points past the end of the log
    assert!(matches!(
        s.read_at(1),
        Err(Error::Log(LogError::InvalidIndex))
    ));
    assert_eq!(s.read_at(0).unwrap(), b"this-has-17-bytes");
}

#[test]
fn test_fit() {
    // check index size
    let mut s = open_segment(0, 20, 10);
    assert!(!s.fit(1)); // false because the index needs at least 20 bytes for an entry

    // check buffer size
    let mut s = open_segment(0, 20, 10);
    assert!(!s.fit(100)); // false because of buffer size

    // check correct
    let mut s = open_segment(0, 100, 100);
    assert!(s.fit(50)); // true because both buffer and index fit
}

#[test]
fn segment_fit_needs_log_and_index() {
    let mut s = open_segment(0, 10, 20);
    assert!(s.fit(10));
    assert!(!s.fit(11));
    s.write(b"abc").unwrap();
    // the log has room, the index has none
    assert!(!s.fit(1));
    assert!(!s.fit(0));
}

#[test]
fn mod_test_read() {
    let mut s = open_segment(0, 100, 1000);

    s.write(b"first-message").unwrap();
    s.write(b"second-message").unwrap();
    s.flush().unwrap();

    assert_eq!(s.read_at(0).unwrap(), b"first-message");
    assert_eq!(s.read_at(1).unwrap(), b"second-message");
}

#[test]
fn it_reads_at_a_given_location() {
    let mut s = open_segment(0, 100, 1000);

    s.write(b"first-message").unwrap();
    s.write(b"second-message").unwrap();

    assert_eq!(s.read_at(0).unwrap(), b"first-message");
    assert_eq!(s.read_at(1).unwrap(), b"second-message");
}

#[test]
fn segment_read_errors() {
    let mut s = open_segment(0, 100, 60);
    s.write(b"first-message").unwrap();

    // a block that was never written reads as an empty record
    assert_eq!(s.read_at(1).unwrap(), b"");
    assert_eq!(s.read_at(2).unwrap(), b"");
    // past the index
    assert!(matches!(
        s.read_at(3),
        Err(Error::Index(IndexError::InvalidIndex))
    ));
}

#[test]
fn segment_read_of_stale_regions() {
    let mut index = MmapMut::map_anon(40).unwrap();
    index[0..20].copy_from_slice(b"00000000050000000010");
    index[20..40].copy_from_slice(b"0000000005000000001x");
    let s = Segment::new(MmapMut::map_anon(14).unwrap(), index, 0);
    // the entry points past the log
    assert!(matches!(
        s.read_at(0),
        Err(Error::Log(LogError::InvalidIndex))
    ));
    assert!(matches!(s.read_at(1), Err(Error::Index(IndexError::Parse))));
    let mut index = MmapMut::map_anon(20).unwrap();
    index[0..20].copy_from_slice(b"00000000050000000009");
    let s = Segment::new(MmapMut::map_anon(14).unwrap(), index, 0);
    assert_eq!(s.read_at(0).unwrap(), &[0u8; 9][..]);
}

#[test]
#[should_panic]
fn mod_it_fails_to_write_to_a_pre_existing_full_file() {
    // a log region that was written before: it occupies 18 bytes
    let mut log = MmapMut::map_anon(20).unwrap();
    log[..18].copy_from_slice(b"initial-content-18");

    let mut s = Segment::new(log, MmapMut::map_anon(1000).unwrap(), 0); // the limit is 20 bytes
    s.write(b"1").unwrap(); // should be able to write 1 byte (total 19)

    assert_eq!(
        String::from_utf8(s.log().as_bytes()[..19].to_vec()).unwrap(),
        String::from("initial-content-181")
    );

    // should not be able to write another 16 bytes
    s.write(b"this-should-error").unwrap();
}

#[test]
fn segment_over_a_written_region_starts_at_its_beginning() {
    let mut log = MmapMut::map_anon(20).unwrap();
    log[..18].copy_from_slice(b"initial-content-18");

    let mut s = Segment::new(log, MmapMut::map_anon(1000).unwrap(), 0);
    assert_eq!(s.log().offset(), 0);
    s.write(b"1").unwrap();
    assert_eq!(&s.log().as_bytes()[..18], &b"1nitial-content-18"[..]);
    assert_eq!(s.read_at(0).unwrap(), b"1");
}

#[test]
fn segment_flush_of_mapped_regions_is_taken() {
    let mut s = open_segment(0, 100, 1000);
    s.write(b"first-message").unwrap();
    s.flush().unwrap();
    // flushing changes nothing in the segment
    assert_eq!(s.log().offset(), 13);
    assert_eq!(s.index().offset(), 20);
    assert_eq!(s.read_at(0).unwrap(), b"first-message");
}

#[test]
fn segment_flush_names_the_part_that_was_refused() {
    assert!(Segment::index_flushed(Ok(())).is_ok());
    assert!(Segment::log_flushed(Ok(())).is_ok());

    let refusal = std::io::Error::new(std::io::ErrorKind::Other, "busy");
    match Segment::index_flushed(Err(IndexError::Io(refusal))) {
        Err(Error::Index(IndexError::Io(e))) => assert_eq!(e.to_string(), "busy"),
        other => panic!("the refusal was not handed on: {:?}", other),
    }
    let refusal = std::io::Error::new(std::io::ErrorKind::Other, "no memory");
    match Segment::log_flushed(Err(LogError::Io(refusal))) {
        Err(Error::Log(LogError::Io(e))) => assert_eq!(e.to_string(), "no memory"),
        other => panic!("the refusal was not handed on: {:?}", other),
    }
    // any error of the part is handed on under the part's name
    assert!(matches!(
        Segment::index_flushed(Err(IndexError::NoSpaceLeft)),
        Err(Error::Index(IndexError::NoSpaceLeft))
    ));
    assert!(matches!(
        Segment::log_flushed(Err(LogError::InvalidIndex)),
        Err(Error::Log(LogError::InvalidIndex))
    ));
}
