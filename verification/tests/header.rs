use tintbox::error::Error;
use tintbox::header::{validate_version, ColorSpace, Header, ProfileClass, RenderingIntent};
use tintbox::io::MemReader;
use tintbox::sig::Signature;

#[test]
fn validate_version_normal_v44_unchanged() {
    assert_eq!(validate_version(0x0440_0000), 0x0440_0000);
    assert_eq!(validate_version(0x0220_0000), 0x0220_0000);
}

#[test]
fn validate_version_clamps_over_range_major() {
    assert_eq!(validate_version(0xFF40_0000), 0x0940_0000);
}

#[test]
fn validate_version_clamps_bcd_nibbles() {
    assert_eq!(validate_version(0x04FF_0000), 0x0499_0000);
    assert_eq!(validate_version(0x04A5_0000), 0x0495_0000);
}

#[test]
fn validate_version_zeroes_reserved_bytes() {
    assert_eq!(validate_version(0x0440_ABCD), 0x0440_0000);
    assert_eq!(validate_version(0x0000_FFFF), 0x0000_0000);
}

#[test]
fn parse_rejects_bad_magic() {
    let buf = [0u8; 128];
    let mut r = MemReader::new(&buf);
    assert!(matches!(Header::parse(&mut r), Err(Error::BadSignature(_))));
}

#[test]
fn validate_version_is_idempotent_on_examples() {
    for v in [0u32, 0x0440_0000, 0xFFFF_FFFF, 0x04A5_1234, 0x1234_5678] {
        let once = validate_version(v);
        assert_eq!(validate_version(once), once);
    }
}

fn header_bytes(version: u32, magic: u32) -> Vec<u8> {
    let mut b = Vec::new();
    b.extend_from_slice(&1000u32.to_be_bytes()); // size
    b.extend_from_slice(b"tbox"); // cmm
    b.extend_from_slice(&version.to_be_bytes());
    b.extend_from_slice(b"mntr");
    b.extend_from_slice(b"RGB ");
    b.extend_from_slice(b"XYZ ");
    for v in [2024u16, 5, 17, 12, 30, 45] {
        b.extend_from_slice(&v.to_be_bytes());
    }
    b.extend_from_slice(&magic.to_be_bytes());
    b.extend_from_slice(b"APPL"); // platform
    b.extend_from_slice(&7u32.to_be_bytes()); // flags
    b.extend_from_slice(b"none"); // manufacturer
    b.extend_from_slice(&9u32.to_be_bytes()); // model
    b.extend_from_slice(&0x0102_0304_0506_0708u64.to_be_bytes()); // attributes
    b.extend_from_slice(&1u32.to_be_bytes()); // intent
    b.extend_from_slice(&0x0000_F6D6u32.to_be_bytes()); // illuminant X
    b.extend_from_slice(&0x0001_0000u32.to_be_bytes()); // Y
    b.extend_from_slice(&0xFFFF_0000u32.to_be_bytes()); // Z = -1.0
    b.extend_from_slice(b"tbox"); // creator
    for i in 0..16u8 {
        b.push(i);
    }
    b.extend_from_slice(&[0u8; 28]);
    b
}

#[test]
fn parse_reads_every_field() {
    let buf = header_bytes(0x0430_0000, 0x6163_7370);
    let mut r = MemReader::new(&buf);
    let h = Header::parse(&mut r).unwrap();
    assert_eq!(h.size, 1000);
    assert_eq!(h.cmm, Signature::from_bytes(*b"tbox"));
    assert_eq!(h.version, 0x0430_0000);
    assert_eq!(h.device_class, ProfileClass::Display);
    assert_eq!(h.color_space, ColorSpace::Rgb);
    assert_eq!(h.pcs, ColorSpace::XYZ);
    assert_eq!(h.date.year, 2024);
    assert_eq!(h.date.seconds, 45);
    assert_eq!(h.platform, Signature::from_bytes(*b"APPL"));
    assert_eq!(h.flags, 7);
    assert_eq!(h.model, 9);
    assert_eq!(h.attributes, 0x0102_0304_0506_0708);
    assert_eq!(h.rendering_intent, RenderingIntent::RelativeColorimetric);
    assert_eq!(h.illuminant, [0xF6D6, 0x1_0000, -0x1_0000]);
    assert_eq!(h.profile_id[15], 15);
    assert_eq!(r.tell(), 128);
}

#[test]
fn parse_rejects_version_above_five() {
    let buf = header_bytes(0x0600_0000, 0x6163_7370);
    let mut r = MemReader::new(&buf);
    assert!(matches!(Header::parse(&mut r), Err(Error::Unsupported(_))));
}

#[test]
fn parse_reports_short_header() {
    let buf = header_bytes(0x0430_0000, 0x6163_7370);
    let mut r = MemReader::new(&buf[..50]);
    match Header::parse(&mut r) {
        Err(Error::Truncated { needed, got }) => {
            assert_eq!(needed, 4);
            assert_eq!(got, 2);
        }
        _ => panic!("expected a truncation"),
    }
}

#[test]
fn class_space_intent_codes_round_trip() {
    for v in [0x6D6E_7472u32, 0x7363_6E72, 0x1234_5678] {
        assert_eq!(ProfileClass::from_raw(v).to_raw(), v);
    }
    for v in [0x5247_4220u32, 0x4C61_6220, 0x4643_4C52, 0xDEAD_BEEF] {
        assert_eq!(ColorSpace::from_raw(v).to_raw(), v);
    }
    for v in [0u32, 3, 4, 0xFFFF_FFFF] {
        assert_eq!(RenderingIntent::from_raw(v).to_raw(), v);
    }
    assert_eq!(ColorSpace::from_raw(0x434D_594B), ColorSpace::Cmyk);
    assert_eq!(ColorSpace::from_raw(0x1234_5678), ColorSpace::Other(Signature::from_raw(0x1234_5678)));
}
