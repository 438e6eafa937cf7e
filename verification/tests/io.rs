use tintbox::error::Error;
use tintbox::io::MemReader;

#[test]
fn positioned_read_does_not_disturb_then_continues() {
    let data: [u8; 8] = [0, 0, 0, 0, 0xAA, 0xBB, 0xCC, 0xDD];
    let mut r = MemReader::new(&data);
    let mut b = [0u8; 4];
    r.read_at(4, &mut b).unwrap();
    assert_eq!(b, [0xAA, 0xBB, 0xCC, 0xDD]);
    assert_eq!(r.tell(), 8);
}

#[test]
fn truncation_is_an_error() {
    let data = [0u8; 1];
    assert!(MemReader::new(&data).read_u32().is_err());
}

#[test]
fn alignment_pads_correctly() {
    let data = [0u8; 8];
    let mut r = MemReader::new(&data);
    r.read_u8().unwrap();
    r.read_alignment().unwrap();
    assert_eq!(r.tell(), 4);
    r.read_alignment().unwrap();
    assert_eq!(r.tell(), 4);
}

#[test]
fn signed_reads_known_patterns() {
    let mut r = MemReader::new(&[0xFFu8]);
    assert_eq!(r.read_i8().unwrap(), -1);
    let mut r = MemReader::new(&[0x80u8]);
    assert_eq!(r.read_i8().unwrap(), -128);
    let mut r = MemReader::new(&[0x7Fu8]);
    assert_eq!(r.read_i8().unwrap(), 127);
    let mut r = MemReader::new(&[0xFF, 0xFE]);
    assert_eq!(r.read_i16().unwrap(), -2);
    let mut r = MemReader::new(&[0x80, 0x00]);
    assert_eq!(r.read_i16().unwrap(), i16::MIN);
    let mut r = MemReader::new(&[0xFF, 0xFF, 0xFF, 0xFE]);
    assert_eq!(r.read_i32().unwrap(), -2);
    let mut r = MemReader::new(&[0x80, 0x00, 0x00, 0x00]);
    assert_eq!(r.read_i32().unwrap(), i32::MIN);
}

#[test]
fn read_ascii_trims_at_nul() {
    let data = [b'H', b'i', 0x00, b'j', b'u', b'n', b'k'];
    let mut r = MemReader::new(&data);
    assert_eq!(r.read_ascii(7).unwrap(), "Hi");
    assert_eq!(r.tell(), 7);
    let data = [b'A', b'B', b'C'];
    let mut r = MemReader::new(&data);
    assert_eq!(r.read_ascii(3).unwrap(), "ABC");
}

#[test]
fn be_reads() {
    let data: [u8; 8] = [0x12, 0x34, 0x56, 0x78, 0x9a, 0xbc, 0xde, 0xf0];
    let mut r = MemReader::new(&data);
    assert_eq!(r.read_u16().unwrap(), 0x1234);
    let mut r = MemReader::new(&data);
    assert_eq!(r.read_u32().unwrap(), 0x1234_5678);
    let mut r = MemReader::new(&data);
    assert_eq!(r.read_u64().unwrap(), 0x1234_5678_9abc_def0);
    assert_eq!(r.tell(), 8);
}

#[test]
fn arrays_and_truncation_details() {
    let data: [u8; 8] = [0x00, 0x01, 0xAB, 0xCD, 0xFF, 0xFF, 0x12, 0x34];
    let mut r = MemReader::new(&data);
    assert_eq!(r.read_u16_array(4).unwrap(), vec![0x0001, 0xABCD, 0xFFFF, 0x1234]);
    let mut r = MemReader::new(&data);
    assert_eq!(r.read_u32_array(2).unwrap(), vec![0x0001_ABCD, 0xFFFF_1234]);
    let mut r = MemReader::new(&data[..7]);
    match r.read_u16_array(4) {
        Err(Error::Truncated { needed, got }) => assert_eq!((needed, got), (2, 1)),
        _ => panic!("expected a truncation"),
    }
    assert_eq!(r.tell(), 6);
    let mut r = MemReader::new(&data[..3]);
    match r.read_u32() {
        Err(Error::Truncated { needed, got }) => assert_eq!((needed, got), (4, 3)),
        _ => panic!("expected a truncation"),
    }
    assert_eq!(r.tell(), 0);
}

#[test]
fn seek_and_type_base() {
    let data: [u8; 8] = [b'm', b'f', b't', b'2', 0, 0, 0, 0];
    let mut r = MemReader::new(&data);
    assert_eq!(r.read_type_base().unwrap().to_raw(), 0x6D66_7432);
    assert_eq!(r.tell(), 8);
    assert!(matches!(r.seek(9), Err(Error::Range)));
    r.seek(5).unwrap();
    assert_eq!(r.tell(), 5);
    let data6 = [0u8; 6];
    let mut r = MemReader::new(&data6);
    r.seek(5).unwrap();
    assert!(r.read_alignment().is_err());
    assert_eq!(r.read_s15f16().is_err(), true);
}
