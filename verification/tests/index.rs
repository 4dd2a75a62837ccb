use commit_log::segment::index::{decode_block, Entry, Error, Index};
use memmap::MmapMut;

/// An index of the segment `base_offset` over a fresh region of `max_size`
/// bytes, all zero as a new file is.
fn open_index(base_offset: usize, max_size: usize) -> Index {
    Index::new(MmapMut::map_anon(max_size).unwrap(), base_offset)
}

#[test]
fn test_entry_to_string() {
    let e0 = Entry::new(0, 0);
    let e1 = Entry::new(1, 2);
    let e2 = Entry::new(1521230, 91028317);

    assert_eq!(e0.to_string(), "00000000000000000000".to_string());
    assert_eq!(e1.to_string(), "00000000010000000002".to_string());
    assert_eq!(e2.to_string(), "00015212300091028317".to_string());
}

#[test]
fn index_test_entry_to_string() {
    let e0 = Entry::new(0, 0);
    let e1 = Entry::new(1, 2);
    let e2 = Entry::new(1521230, 91028317);

    assert_eq!(e0.to_string(), "00000000000000000000".to_string());
    assert_eq!(e1.to_string(), "00000000010000000002".to_string());
    assert_eq!(e2.to_string(), "00015212300091028317".to_string());
    assert_eq!(e2.to_bytes(), b"00015212300091028317".to_vec());
}

#[test]
fn entry_beyond_ten_digits_keeps_all_its_digits() {
    let e = Entry::new(12_345_678_901, 7);
    assert_eq!(e.to_string(), "123456789010000000007".to_string());
    let e = Entry::new(9_999_999_999, 9_999_999_999);
    assert_eq!(e.to_string(), "99999999999999999999".to_string());
}

#[test]
fn index_file_name_has_twenty_digits() {
    assert_eq!(Index::file_name(0), "00000000000000000000.idx".to_string());
    assert_eq!(Index::file_name(11812312), "00000000000011812312.idx".to_string());
    assert_eq!(
        Index::file_name(18446744073709551615),
        "18446744073709551615.idx".to_string()
    );
}

#[test]
fn index_test_create() {
    let i = open_index(0, 10);

    assert_eq!(i.offset(), 0);
    assert_eq!(i.as_bytes(), &[0u8; 10][..]);
}

#[test]
fn index_test_write() {
    let mut i = open_index(0, 25);
    assert_eq!(i.write(Entry::new(0, 10)).unwrap(), 20);
    i.flush().unwrap();

    // The region is as long as it was made; what was not written is zero.
    assert_eq!(
        String::from_utf8(i.as_bytes().to_vec()).unwrap(),
        String::from("00000000000000000010\u{0}\u{0}\u{0}\u{0}\u{0}")
    );
    assert_eq!(i.offset(), 20);
}

#[test]
#[should_panic]
fn index_test_invalid_write() {
    let mut i = open_index(0, 10);
    // the region is too small for an entry
    i.write(Entry::new(0, 10)).unwrap();
}

#[test]
fn index_write_without_room_is_no_space_left() {
    let mut i = open_index(0, 39);
    assert_eq!(i.write(Entry::new(0, 10)).unwrap(), 20);
    assert!(matches!(i.write(Entry::new(10, 1)), Err(Error::NoSpaceLeft)));
    // nothing was written by the failed call
    assert_eq!(i.offset(), 20);
    assert_eq!(&i.as_bytes()[20..], &[0u8; 19][..]);
}

#[test]
fn index_test_record_fit() {
    let mut i = open_index(0, 100);
    i.write(Entry::new(0, 10)).unwrap();

    assert!(i.fit(4));
    assert!(!i.fit(5));
}

#[test]
fn index_fit_holds_at_the_boundary() {
    // 25 bytes hold exactly one entry
    let mut i = open_index(0, 25);
    assert!(i.fit(0));
    assert!(i.fit(1));
    assert!(!i.fit(2));
    assert!(!i.fit(usize::MAX));
    i.write(Entry::new(0, 1)).unwrap();
    assert!(i.fit(0));
    assert!(!i.fit(1));

    let mut i = open_index(0, 40);
    assert!(i.fit(2));
    assert!(!i.fit(3));
}

#[test]
fn index_test_read() {
    let mut i = open_index(0, 50);
    i.write(Entry::new(0, 10)).unwrap();
    i.write(Entry::new(10, 20)).unwrap();

    assert_eq!(i.read_at(0).unwrap(), Entry::new(0, 10));
    assert_eq!(i.read_at(1).unwrap(), Entry::new(10, 20));
}

#[test]
fn index_round_trip_on_the_region() {
    let mut i = open_index(0, 50);
    i.write(Entry::new(0, 10)).unwrap();
    i.write(Entry::new(10, 20)).unwrap();

    let bytes = i.as_bytes();
    assert_eq!(bytes.len(), 50);
    assert_eq!(&bytes[..40], &b"0000000000000000001000000000100000000020"[..]);
    assert_eq!(&bytes[40..], &[0u8; 10][..]);
}

#[test]
#[should_panic]
fn index_test_invalid_read() {
    let mut i = open_index(0, 50);
    i.write(Entry::new(0, 10)).unwrap();

    i.read_at(20).unwrap(); // should fail since the position is invalid
}

#[test]
fn index_read_past_the_region_is_invalid_index() {
    let i = open_index(0, 50);
    assert!(matches!(i.read_at(2), Err(Error::InvalidIndex)));
    assert!(matches!(i.read_at(20), Err(Error::InvalidIndex)));
    assert!(matches!(i.read_at(usize::MAX), Err(Error::InvalidIndex)));

    // a region of exactly two blocks holds block number 1
    let i = open_index(0, 40);
    assert!(i.read_at(1).is_ok());
    assert!(matches!(i.read_at(2), Err(Error::InvalidIndex)));
}

#[test]
fn index_block_never_written_reads_as_zero_zero() {
    let mut i = open_index(0, 50);
    i.write(Entry::new(5, 7)).unwrap();
    assert_eq!(i.read_at(1).unwrap(), Entry::new(0, 0));
}

#[test]
fn index_block_that_is_no_entry_is_a_parse_error() {
    // a stale region: the second block holds text that is no entry
    let mut region = MmapMut::map_anon(60).unwrap();
    region[20..40].copy_from_slice(b"00000000xx0000000020");
    region[40..60].copy_from_slice(b"+000000001+000000002");
    region[0] = b'0';
    let i = Index::new(region, 0);
    assert!(matches!(i.read_at(0), Err(Error::Parse)));
    assert!(matches!(i.read_at(1), Err(Error::Parse)));
    assert!(matches!(i.read_at(2), Err(Error::Parse)));
}

#[test]
fn decode_block_reads_both_fields() {
    assert_eq!(decode_block(b"00015212300091028317"), Some(Entry::new(1521230, 91028317)));
    assert_eq!(decode_block(b"99999999999999999999"), Some(Entry::new(9_999_999_999, 9_999_999_999)));
    assert_eq!(decode_block(&[0u8; 20]), Some(Entry::new(0, 0)));
    assert_eq!(decode_block(b"0000000000000000000 "), None);
    assert_eq!(decode_block(b"-0000000010000000000"), None);
}

#[test]
fn entry_read_back_is_the_entry_written() {
    let entries = [
        Entry::new(0, 0),
        Entry::new(1, 2),
        Entry::new(1521230, 91028317),
        Entry::new(9_999_999_999, 0),
        Entry::new(0, 9_999_999_999),
    ];
    let mut i = open_index(3, 100);
    for e in entries.iter() {
        assert_eq!(i.write(*e).unwrap(), 20);
    }
    for (k, e) in entries.iter().enumerate() {
        assert_eq!(i.read_at(k).unwrap(), *e);
    }
}

#[test]
fn index_flush_of_a_mapped_region_is_taken() {
    let mut i = open_index(0, 50);
    i.write(Entry::new(0, 10)).unwrap();
    i.flush().unwrap();
    // flushing changes nothing in the index
    assert_eq!(i.offset(), 20);
    assert_eq!(i.read_at(0).unwrap(), Entry::new(0, 10));
}

#[test]
fn index_flushed_hands_the_answer_of_the_system_on() {
    assert!(Index::flushed(Ok(())).is_ok());
    let refusal = std::io::Error::new(std::io::ErrorKind::Other, "busy");
    match Index::flushed(Err(refusal)) {
        Err(Error::Io(e)) => {
            assert_eq!(e.kind(), std::io::ErrorKind::Other);
            assert_eq!(e.to_string(), "busy");
        }
        other => panic!("the refusal was not handed on: {:?}", other),
    }
}
