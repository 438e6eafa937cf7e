use tintbox::named::{NamedColorList, MAX_CHANNELS};

#[test]
fn alloc_rejects_too_many_colorants() {
    assert!(NamedColorList::allocate(MAX_CHANNELS + 1, "", "").is_none());
    assert!(NamedColorList::allocate(MAX_CHANNELS, "", "").is_some());
}

#[test]
fn append_and_accessors() {
    let mut list = NamedColorList::allocate(2, "PRE", "SUF").unwrap();
    list.append("Cyan", Some([0x0101, 0x0202, 0x0303]), Some(&[0x1111, 0x2222]));
    list.append("Mag", None, None);

    assert_eq!(list.count(), 2);
    assert_eq!(list.colorant_count(), 2);
    assert_eq!(list.prefix, "PRE");
    assert_eq!(list.suffix, "SUF");

    assert_eq!(list.colors[0].pcs, [0x0101, 0x0202, 0x0303]);
    assert_eq!(list.colors[0].device, vec![0x1111, 0x2222]);
    assert_eq!(list.colors[1].pcs, [0, 0, 0]);
    assert_eq!(list.colors[1].device, vec![0, 0]);

    assert_eq!(list.index("cyan"), Some(0));
    assert_eq!(list.index("MAG"), Some(1));
    assert_eq!(list.index("absent"), None);
}

#[test]
fn append_short_colorant_zero_pads() {
    let mut list = NamedColorList::allocate(3, "", "").unwrap();
    list.append("x", None, Some(&[0xAAAA]));
    assert_eq!(list.colors[0].device, vec![0xAAAA, 0, 0]);
}

#[test]
fn long_colorants_are_cut() {
    let mut list = NamedColorList::allocate(1, "", "").unwrap();
    list.append("x", None, Some(&[1, 2, 3]));
    assert_eq!(list.colors[0].device, vec![1]);
}

#[test]
fn affixes_and_names_are_clamped() {
    let long = "A".repeat(40);
    let list = NamedColorList::allocate(0, &long, "ab\0cd").unwrap();
    assert_eq!(list.prefix, "A".repeat(32));
    assert_eq!(list.suffix, "ab");
    let mut list = list;
    list.append(&"n".repeat(300), None, None);
    assert_eq!(list.colors[0].name.len(), 255);
    // A multi-byte character straddling the cut is dropped whole.
    let mut prefix = "x".repeat(31);
    prefix.push('é');
    let list = NamedColorList::allocate(0, &prefix, "").unwrap();
    assert_eq!(list.prefix, "x".repeat(31));
}

#[test]
fn index_finds_first_match() {
    let mut list = NamedColorList::allocate(0, "", "").unwrap();
    list.append("Red", None, None);
    list.append("RED", None, None);
    assert_eq!(list.index("red"), Some(0));
}
