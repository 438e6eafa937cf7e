use tintbox::directory::{compatible_types, parse_directory};
use tintbox::error::Error;
use tintbox::io::MemReader;
use tintbox::sig::Signature;

fn dir_bytes(entries: &[(u32, u32, u32)]) -> Vec<u8> {
    let mut v = Vec::new();
    v.extend_from_slice(&(entries.len() as u32).to_be_bytes());
    for (sig, off, size) in entries {
        v.extend_from_slice(&sig.to_be_bytes());
        v.extend_from_slice(&off.to_be_bytes());
        v.extend_from_slice(&size.to_be_bytes());
    }
    v
}

#[test]
fn skips_zero_and_out_of_range() {
    let bytes = dir_bytes(&[
        (0x41324230, 200, 0),
        (0x42324130, 0, 10),
        (0x6b545243, 900, 200),
        (0x77747074, 200, 20),
    ]);
    let mut r = MemReader::new(&bytes);
    let e = parse_directory(&mut r, 1000, 1000).unwrap();
    assert_eq!(e.len(), 1);
    assert_eq!(e[0].sig.to_raw(), 0x77747074);
    assert!(e[0].linked.is_none());
}

#[test]
fn clamps_headersize_to_slice_len() {
    let bytes = dir_bytes(&[(0x77747074, 500, 600)]);
    let mut r = MemReader::new(&bytes);
    let e = parse_directory(&mut r, 100_000, 1000).unwrap();
    assert!(e.is_empty());
}

#[test]
fn detects_link_for_compatible_shared_offset() {
    let bytes = dir_bytes(&[(0x646D_6E64, 200, 40), (0x6465_7363, 200, 40)]);
    let mut r = MemReader::new(&bytes);
    let e = parse_directory(&mut r, 1000, 1000).unwrap();
    assert_eq!(e.len(), 2);
    assert!(e[0].linked.is_none());
    assert_eq!(e[1].linked, Some(Signature::from_raw(0x646D_6E64)));
}

#[test]
fn no_link_when_incompatible_even_if_offset_matches() {
    let bytes = dir_bytes(&[(0x4132_4230, 200, 40), (0x7774_7074, 200, 40)]);
    let mut r = MemReader::new(&bytes);
    let e = parse_directory(&mut r, 1000, 1000).unwrap();
    assert_eq!(e.len(), 2);
    assert!(e[1].linked.is_none());
}

#[test]
fn duplicate_signature_rejects() {
    let bytes = dir_bytes(&[(0x77747074, 200, 20), (0x77747074, 300, 20)]);
    let mut r = MemReader::new(&bytes);
    assert!(matches!(parse_directory(&mut r, 1000, 1000), Err(Error::Corrupt(_))));
}

#[test]
fn too_many_tags_rejected() {
    let mut bytes = Vec::new();
    bytes.extend_from_slice(&101u32.to_be_bytes());
    let mut r = MemReader::new(&bytes);
    assert!(matches!(parse_directory(&mut r, 1000, 1000), Err(Error::Range)));
}

#[test]
fn overflowing_entry_is_skipped_and_last_link_wins() {
    let bytes = dir_bytes(&[
        (0x7258_595A, 100, 20),       // rXYZ
        (0x6758_595A, 100, 20),       // gXYZ links to rXYZ
        (0x6258_595A, 100, 20),       // bXYZ links to gXYZ (the last match)
        (0x6B54_5243, 0xFFFF_FFF0, 0x20), // kTRC: offset + size overflows
    ]);
    let mut r = MemReader::new(&bytes);
    let e = parse_directory(&mut r, 1000, 1000).unwrap();
    assert_eq!(e.len(), 3);
    assert_eq!(e[1].linked, Some(Signature::from_raw(0x7258_595A)));
    assert_eq!(e[2].linked, Some(Signature::from_raw(0x6758_595A)));
}

#[test]
fn truncated_directory_reports_the_short_field() {
    let bytes = dir_bytes(&[(0x7774_7074, 200, 20), (0x6B54_5243, 300, 20)]);
    let mut r = MemReader::new(&bytes[..22]);
    match parse_directory(&mut r, 1000, 1000) {
        Err(Error::Truncated { needed, got }) => assert_eq!((needed, got), (4, 2)),
        _ => panic!("expected a truncation"),
    }
}

#[test]
fn compatibility_follows_descriptors() {
    let s = |v: u32| Signature::from_raw(v);
    assert!(compatible_types(s(0x646D_6E64), s(0x6465_7363)));
    assert!(!compatible_types(s(0x6370_7274), s(0x6465_7363)));
    assert!(!compatible_types(s(0x4132_4230), s(0x7774_7074)));
    assert!(!compatible_types(s(0x1234_5678), s(0x1234_5678)));
    assert!(compatible_types(s(0x4232_4130), s(0x6761_6D74)));
}
