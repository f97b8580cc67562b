use pathtrie::fst::{Error, Fst};

#[test]
fn rejects_an_empty_buffer() {
    let r: Result<Fst<u32>, Error> = Fst::new(&[]);
    assert!(matches!(r, Err(Error::TooSmall)));
}

#[test]
fn rejects_wrong_magic_bytes() {
    let r: Result<Fst<u32>, Error> = Fst::new(&[0x00, 0x00, 0x00, 0x04]);
    assert!(matches!(r, Err(Error::InvalidMagicBytes([0x00, 0x00]))));
}

#[test]
fn rejects_another_width() {
    let r: Result<Fst<u32>, Error> = Fst::new(&[0xFF, 0xDF, 0x00, 0x02]);
    assert!(matches!(r, Err(Error::InvalidAlignment(2, 4))));
}

#[test]
fn reads_a_buffer_written_by_hand() {
    // width 2: header, then "ab" with value 0x0102, then the end of the run
    let data: Vec<u8> = vec![
        0xFF, 0xDF, 0x00, 0x02, // header
        0xFF, 0xFF, 0x02, 0x01, 0x02, b'a', b'b', 0x00, // record, padded to 8
        0x00, 0x00, 0x00, 0x00, // end of the run
    ];
    let fst: Fst<u16> = Fst::new(&data).unwrap();
    assert_eq!(fst.get(b"ab"), Some(0x0102));
    assert_eq!(fst.get(b"a"), None);
    assert_eq!(fst.get(b"abc"), None);
    assert_eq!(fst.get(b""), None);
}

#[test]
fn a_truncated_buffer_holds_nothing() {
    let data: Vec<u8> = vec![0xFF, 0xDF, 0x00, 0x02, 0xFF, 0xFF, 0x02];
    let fst: Fst<u16> = Fst::new(&data).unwrap();
    assert_eq!(fst.get(b"ab"), None);
}

#[test]
fn a_child_offset_that_points_back_ends_the_walk() {
    // width 1: a record with children whose offset points at itself
    let data: Vec<u8> = vec![0xFF, 0xDF, 0x00, 0x01, 0x04, 0x01, b'a', 0x00, 0x00];
    let fst: Fst<u8> = Fst::new(&data).unwrap();
    assert_eq!(fst.get(b"a"), None);
    assert_eq!(fst.get(b"ab"), None);
}

#[test]
fn rejects_another_version() {
    let r: Result<Fst<u32>, Error> = Fst::new(&[0xFF, 0xDF, 0x01, 0x04]);
    assert!(matches!(r, Err(Error::InvalidVersion(1))));
    let r: Result<Fst<u8>, Error> = Fst::new(&[0xFF, 0xDF, 0xFF, 0x01, 0x00, 0x00]);
    assert!(matches!(r, Err(Error::InvalidVersion(0xFF))));
}

#[test]
fn the_first_failure_is_the_one_named() {
    // too short, whatever the bytes
    let r: Result<Fst<u32>, Error> = Fst::new(&[0x00, 0x00, 0x01]);
    assert!(matches!(r, Err(Error::TooSmall)));
    // wrong magic before wrong version and width
    let r: Result<Fst<u32>, Error> = Fst::new(&[0xFF, 0x00, 0x01, 0x02]);
    assert!(matches!(r, Err(Error::InvalidMagicBytes([0xFF, 0x00]))));
    // wrong version before wrong width
    let r: Result<Fst<u32>, Error> = Fst::new(&[0xFF, 0xDF, 0x02, 0x02]);
    assert!(matches!(r, Err(Error::InvalidVersion(2))));
    // all four bytes right
    let r: Result<Fst<u32>, Error> = Fst::new(&[0xFF, 0xDF, 0x00, 0x04]);
    assert!(r.is_ok());
}
