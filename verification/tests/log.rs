use commit_log::segment::log::{Error, Log};
use memmap::MmapMut;

/// A log of the segment `base_offset` over a fresh region of `max_size`
/// bytes, all zero as a new file is.
fn open_log(base_offset: usize, max_size: usize) -> Log {
    Log::new(MmapMut::map_anon(max_size).unwrap(), base_offset)
}

#[test]
fn log_test_create() {
    let l = open_log(0, 10);

    assert_eq!(l.as_bytes().len(), 10);
    assert_eq!(l.offset(), 0); // should be zero when creating
}

#[test]
fn it_creates_a_new_file() {
    let l = open_log(0, 10);

    assert_eq!(l.as_bytes(), &[0u8; 10][..]);
}

#[test]
fn log_file_name_has_twenty_digits() {
    assert_eq!(Log::file_name(0), "00000000000000000000.log".to_string());
    assert_eq!(Log::file_name(11812312), "00000000000011812312.log".to_string());
    assert_eq!(Log::file_name(10), "00000000000000000010.log".to_string());
}

#[test]
fn log_test_write() {
    let mut l = open_log(0, 20);
    assert_eq!(l.write(b"this-has-17-bytes").unwrap(), 17);
    l.flush().unwrap();

    // The region is as long as it was made; what was not written is zero.
    assert_eq!(
        String::from_utf8(l.as_bytes().to_vec()).unwrap(),
        String::from("this-has-17-bytes\u{0}\u{0}\u{0}")
    );

    assert_eq!(l.offset(), 17); // should update the offset when writing
}

#[test]
fn it_writes_to_a_log() {
    let mut l = open_log(0, 20);
    l.write(b"this-has-17-bytes").unwrap();

    assert_eq!(
        String::from_utf8(l.as_bytes().to_vec()).unwrap(),
        String::from("this-has-17-bytes\u{0}\u{0}\u{0}")
    );
}

#[test]
#[should_panic]
fn log_test_invalid_write() {
    let mut l = open_log(0, 15);
    // buffer is bigger than log size
    l.write(b"this-has-17-bytes").unwrap();
}

#[test]
#[should_panic]
fn it_fails_to_write_to_a_full_log() {
    let mut l = open_log(0, 15);
    l.write(b"this-has-17-bytes").unwrap();
}

#[test]
fn log_write_without_room_is_no_space_left() {
    let mut l = open_log(0, 20);
    l.write(b"this-has-17-bytes").unwrap();
    assert!(matches!(l.write(b"four"), Err(Error::NoSpaceLeft)));
    // the failed call wrote nothing and did not move the cursor
    assert_eq!(l.offset(), 17);
    assert_eq!(&l.as_bytes()[17..], &[0u8; 3][..]);
    // what still fits is taken, up to the last byte
    assert_eq!(l.write(b"abc").unwrap(), 3);
    assert_eq!(l.as_bytes(), &b"this-has-17-bytesabc"[..]);
    assert_eq!(l.offset(), 20);
}

#[test]
fn log_takes_an_empty_write() {
    let mut l = open_log(0, 4);
    assert_eq!(l.write(b"").unwrap(), 0);
    assert_eq!(l.offset(), 0);
    assert_eq!(l.write(b"full").unwrap(), 4);
    assert_eq!(l.write(b"").unwrap(), 0);
    assert_eq!(l.offset(), 4);
}

#[test]
fn log_test_record_fit() {
    let mut l = open_log(0, 100);
    l.write(b"this-has-17-bytes").unwrap();

    assert!(l.fit(20)); //  20 =< (100 - 17)
    assert!(l.fit(82)); //  82 =< (100 - 17)
    assert!(l.fit(83)); //  83 =< (100 - 17)
    assert!(!l.fit(84)); //  84 =< (100 - 17)
    assert!(!l.fit(200)); // 200 =< (100 - 17)
}

#[test]
fn it_checks_if_buffer_fit() {
    let mut l = open_log(0, 100);
    l.write(b"this-has-17-bytes").unwrap();

    assert!(l.fit(20));
    assert!(l.fit(82));
    // the boundary counts as fitting
    assert!(l.fit(83));
    assert!(!l.fit(84));
    assert!(!l.fit(200));
    assert!(!l.fit(usize::MAX));
    assert_eq!(l.offset(), 17);
}

#[test]
fn log_test_read() {
    let mut l = open_log(0, 50);
    l.write(b"hello-from-the-other-side").unwrap();
    l.flush().unwrap();

    assert_eq!(l.read_at(0, 25).unwrap(), b"hello-from-the-other-side");
    assert_eq!(l.read_at(1, 24).unwrap(), b"ello-from-the-other-side");
}

#[test]
#[should_panic]
fn log_test_invalid_read() {
    let mut l = open_log(0, 50);
    l.write(b"hello-from-the-other-side").unwrap();

    l.read_at(51, 20).unwrap(); // should fail since the position is invalid
}

#[test]
fn log_read_is_bounded_by_the_region() {
    let mut l = open_log(0, 50);
    l.write(b"hello-from-the-other-side").unwrap();

    // up to the end of the region, written or not
    assert_eq!(l.read_at(25, 25).unwrap(), &[0u8; 25][..]);
    assert_eq!(l.read_at(50, 0).unwrap(), b"");
    assert_eq!(l.read_at(0, 50).unwrap().len(), 50);
    // not past it
    assert!(matches!(l.read_at(25, 26), Err(Error::InvalidIndex)));
    assert!(matches!(l.read_at(51, 0), Err(Error::InvalidIndex)));
    assert!(matches!(l.read_at(51, 20), Err(Error::InvalidIndex)));
    assert!(matches!(l.read_at(usize::MAX, 2), Err(Error::InvalidIndex)));
    assert!(matches!(l.read_at(2, usize::MAX), Err(Error::InvalidIndex)));
}

#[test]
fn log_write_leaves_the_written_part_alone() {
    let mut l = open_log(0, 30);
    l.write(b"first").unwrap();
    l.write(b"second").unwrap();
    assert_eq!(l.read_at(0, 5).unwrap(), b"first");
    assert_eq!(l.read_at(5, 6).unwrap(), b"second");
    assert_eq!(&l.as_bytes()[..11], &b"firstsecond"[..]);
    assert_eq!(&l.as_bytes()[11..], &[0u8; 19][..]);
}

#[test]
fn log_flush_of_a_mapped_region_is_taken() {
    let mut l = open_log(0, 20);
    l.write(b"this-has-17-bytes").unwrap();
    l.flush().unwrap();
    // flushing changes nothing in the log
    assert_eq!(l.offset(), 17);
    assert_eq!(&l.as_bytes()[..17], &b"this-has-17-bytes"[..]);
}

#[test]
fn log_flushed_hands_the_answer_of_the_system_on() {
    assert!(Log::flushed(Ok(())).is_ok());
    let refusal = std::io::Error::new(std::io::ErrorKind::Other, "no memory");
    match Log::flushed(Err(refusal)) {
        Err(Error::Io(e)) => {
            assert_eq!(e.kind(), std::io::ErrorKind::Other);
            assert_eq!(e.to_string(), "no memory");
        }
        other => panic!("the refusal was not handed on: {:?}", other),
    }
}
