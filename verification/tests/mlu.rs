use tintbox::error::Error;
use tintbox::io::MemReader;
use tintbox::mlu::{decode_utf16be, read_mlu_value, read_text_description_value};

#[test]
fn synthetic_two_record_mlu_decodes() {
    let mut payload: Vec<u8> = Vec::new();
    payload.extend_from_slice(&2u32.to_be_bytes());
    payload.extend_from_slice(&12u32.to_be_bytes());
    payload.extend_from_slice(b"en");
    payload.extend_from_slice(b"US");
    payload.extend_from_slice(&4u32.to_be_bytes());
    payload.extend_from_slice(&40u32.to_be_bytes());
    payload.extend_from_slice(b"de");
    payload.extend_from_slice(b"DE");
    payload.extend_from_slice(&4u32.to_be_bytes());
    payload.extend_from_slice(&44u32.to_be_bytes());
    payload.extend_from_slice(&[0x00, b'H', 0x00, b'i']);
    payload.extend_from_slice(&[0x00, b'Y', 0x00, b'o']);
    let size = payload.len() as u32;

    let mut buf: Vec<u8> = Vec::new();
    buf.extend_from_slice(b"mluc");
    buf.extend_from_slice(&[0, 0, 0, 0]);
    buf.extend_from_slice(&payload);

    let mut r = MemReader::new(&buf);
    let _sig = r.read_type_base().unwrap();
    let mlu = read_mlu_value(&mut r, size).unwrap();
    assert_eq!(mlu.entries.len(), 2);
    assert_eq!(mlu.entries[0].language, *b"en");
    assert_eq!(mlu.entries[0].country, *b"US");
    assert_eq!(mlu.entries[0].text, "Hi");
    assert_eq!(mlu.entries[1].language, *b"de");
    assert_eq!(mlu.entries[1].country, *b"DE");
    assert_eq!(mlu.entries[1].text, "Yo");
    // The reader ends past the furthest string of the pool.
    assert_eq!(r.tell(), buf.len() as u64);
}

#[test]
fn rec_len_not_12_is_rejected() {
    let mut payload: Vec<u8> = Vec::new();
    payload.extend_from_slice(&1u32.to_be_bytes());
    payload.extend_from_slice(&16u32.to_be_bytes());
    let size = payload.len() as u32;
    let mut r = MemReader::new(&payload);
    assert!(read_mlu_value(&mut r, size).is_err());
}

fn mlu_with_record(offset: u32, len: u32, pool: &[u8]) -> Vec<u8> {
    let mut buf: Vec<u8> = Vec::new();
    buf.extend_from_slice(b"mluc");
    buf.extend_from_slice(&[0, 0, 0, 0]);
    buf.extend_from_slice(&1u32.to_be_bytes());
    buf.extend_from_slice(&12u32.to_be_bytes());
    buf.extend_from_slice(b"fr");
    buf.extend_from_slice(b"FR");
    buf.extend_from_slice(&len.to_be_bytes());
    buf.extend_from_slice(&offset.to_be_bytes());
    buf.extend_from_slice(pool);
    buf
}

#[test]
fn mlu_record_offset_checks() {
    let pool = [0x00, b'A', 0x00, b'B'];
    // Header = 12 * 1 + 8 = 20; the pool starts at tag offset 28.
    let good = mlu_with_record(28, 4, &pool);
    let size = (good.len() - 8) as u32;
    let mut r = MemReader::new(&good);
    r.read_type_base().unwrap();
    assert_eq!(read_mlu_value(&mut r, size).unwrap().entries[0].text, "AB");

    for (offset, len, msg) in [
        (29, 2, "MLU entry offset is odd"),
        (26, 2, "MLU entry offset inside header"),
        (28, 6, "MLU entry runs past tag"),
    ] {
        let bad = mlu_with_record(offset, len, &pool);
        let mut r = MemReader::new(&bad);
        r.read_type_base().unwrap();
        match read_mlu_value(&mut r, size) {
            Err(Error::Corrupt(m)) => assert_eq!(m, msg),
            _ => panic!("expected a corrupt-entry error for offset {offset}"),
        }
    }
}

#[test]
fn mlu_truncated_directory() {
    let mut buf: Vec<u8> = Vec::new();
    buf.extend_from_slice(&3u32.to_be_bytes());
    buf.extend_from_slice(&12u32.to_be_bytes());
    buf.extend_from_slice(b"en");
    let mut r = MemReader::new(&buf);
    assert!(matches!(read_mlu_value(&mut r, 100), Err(Error::Truncated { needed: 2, got: 0 })));
}

#[test]
fn utf16_decoding() {
    assert_eq!(decode_utf16be(&[0x00, b'H', 0x00, b'i']), "Hi");
    // A surrogate pair: U+1F600.
    assert_eq!(decode_utf16be(&[0xD8, 0x3D, 0xDE, 0x00]), "\u{1F600}");
    // A lone high surrogate before a normal unit; a lone low surrogate.
    assert_eq!(decode_utf16be(&[0xD8, 0x3D, 0x00, b'x']), "\u{FFFD}x");
    assert_eq!(decode_utf16be(&[0xDC, 0x00, 0x00, b'y']), "\u{FFFD}y");
    assert_eq!(decode_utf16be(&[0xD8, 0x00]), "\u{FFFD}");
    // A trailing odd byte is dropped.
    assert_eq!(decode_utf16be(&[0x00, b'z', 0x41]), "z");
    assert_eq!(decode_utf16be(&[0x00, 0xE9]), "\u{e9}");
}

fn desc(ascii: &[u8], unicode: Option<&[u16]>, slack: usize) -> Vec<u8> {
    let mut b = Vec::new();
    b.extend_from_slice(&(ascii.len() as u32).to_be_bytes());
    b.extend_from_slice(ascii);
    if let Some(units) = unicode {
        b.extend_from_slice(&0u32.to_be_bytes());
        b.extend_from_slice(&(units.len() as u32).to_be_bytes());
        for u in units {
            b.extend_from_slice(&u.to_be_bytes());
        }
    }
    b.extend(std::iter::repeat(0u8).take(slack));
    b
}

#[test]
fn text_description_ascii_and_unicode() {
    let body = desc(b"Caf\xe9\0junk", Some(&[0x43, 0x61, 0x66, 0xe9, 0, 0x41]), 67);
    let mut r = MemReader::new(&body);
    let m = read_text_description_value(&mut r, body.len() as u32).unwrap();
    assert_eq!(m.entries.len(), 2);
    assert_eq!(m.entries[0].language, [0, 0]);
    assert_eq!(m.entries[0].text, "Caf\u{e9}");
    assert_eq!(m.entries[1].language, [0xff, 0xff]);
    assert_eq!(m.entries[1].country, [0xff, 0xff]);
    assert_eq!(m.entries[1].text, "Caf\u{e9}");
    assert_eq!(r.tell(), (4 + 9 + 8 + 12) as u64);
}

#[test]
fn text_description_tolerates_a_missing_unicode_block() {
    let body = desc(b"Plain", None, 0);
    let mut r = MemReader::new(&body);
    let m = read_text_description_value(&mut r, body.len() as u32).unwrap();
    assert_eq!(m.entries.len(), 1);
    assert_eq!(m.entries[0].text, "Plain");
    // A zero unicode count keeps only the ASCII entry.
    let body = desc(b"Plain", Some(&[]), 0);
    let mut r = MemReader::new(&body);
    let m = read_text_description_value(&mut r, body.len() as u32).unwrap();
    assert_eq!(m.entries.len(), 1);
}

#[test]
fn text_description_rejections() {
    let mut r = MemReader::new(&[0, 0, 0, 0]);
    assert!(matches!(read_text_description_value(&mut r, 3), Err(Error::Corrupt(_))));
    let body = desc(b"Plain", None, 0);
    let mut r = MemReader::new(&body);
    assert!(matches!(read_text_description_value(&mut r, 8), Err(Error::Corrupt(_))));
    let mut big = Vec::new();
    big.extend_from_slice(&0x80000u32.to_be_bytes());
    let mut r = MemReader::new(&big);
    assert!(matches!(read_text_description_value(&mut r, 100), Err(Error::Corrupt(_))));
}
