use tintbox::cgats::write::strip_trailing_zeros;
use tintbox::cgats::Profile;

const SAMPLE: &str = "CGATS.17\nORIGINATOR \"tester\"\nNUMBER_OF_FIELDS 3\nBEGIN_DATA_FORMAT\nSAMPLE_ID RGB_R RGB_G\nEND_DATA_FORMAT\nNUMBER_OF_SETS 2\nBEGIN_DATA\nA1 10 20\nA2 30 \"4 0\"\nEND_DATA\n";

#[test]
fn load_reads_properties_and_cells() {
    let p = Profile::load_from_mem(SAMPLE.as_bytes()).unwrap();
    assert_eq!(p.table_count(), 1);
    assert_eq!(p.sheet_type(), "CGATS.17");
    assert_eq!(p.get_property("ORIGINATOR"), Some("tester"));
    assert_eq!(p.get_property("number_of_fields"), Some("3"));
    assert_eq!(p.num_samples(), 3);
    assert_eq!(p.data_format(1), Some("RGB_R"));
    assert_eq!(p.find_data_format("rgb_g"), 2);
    assert_eq!(p.get_data_rowcol(0, 1), Some("10"));
    assert_eq!(p.get_data_by_name("A2", "RGB_G"), Some("4 0"));
    assert_eq!(p.patch_name(1), Some("A2"));
    assert_eq!(p.patch_by_name("a2"), 1);
    assert_eq!(p.patch_by_name("A9"), -1);
    assert_eq!(p.enum_properties(), vec!["ORIGINATOR", "NUMBER_OF_FIELDS", "NUMBER_OF_SETS"]);
}

#[test]
fn save_writes_the_stream_back() {
    let mut p = Profile::load_from_mem(SAMPLE.as_bytes()).unwrap();
    let out = p.save_to_mem();
    let expected = "CGATS.17\nORIGINATOR\t\"tester\"\nNUMBER_OF_FIELDS\t3\nNUMBER_OF_SETS\t2\nBEGIN_DATA_FORMAT\n SAMPLE_ID\tRGB_R\tRGB_G\nEND_DATA_FORMAT\nBEGIN_DATA\n A1\t10\t20\n A2\t30\t\"4 0\"\nEND_DATA\n\0";
    assert_eq!(String::from_utf8(out.clone()).unwrap(), expected);
    // Saving leaves the object as it was.
    assert_eq!(p.save_to_mem(), out);
}

#[test]
fn load_rejects_bad_input() {
    assert!(Profile::load_from_mem(b"").is_err());
    assert!(Profile::load_from_mem(b"short").is_err());
    assert!(Profile::load_from_mem(b"a b c d e f g\nmore text").is_err());
    assert!(Profile::load_from_mem(b"CGATS.17\nNUMBER_OF_FIELDS 1\nNUMBER_OF_FIELDS 2\n").is_err());
    let bad_rows = "CGATS.17\nNUMBER_OF_FIELDS 1\nNUMBER_OF_SETS 2\nBEGIN_DATA_FORMAT\nX\nEND_DATA_FORMAT\nBEGIN_DATA\n1\nEND_DATA\n";
    assert!(Profile::load_from_mem(bad_rows.as_bytes()).is_err());
}

#[test]
fn set_then_get_property() {
    let mut p = Profile::load_from_mem(SAMPLE.as_bytes()).unwrap();
    assert!(p.set_property_str("DESCRIPTOR", "a test"));
    assert_eq!(p.get_property("descriptor"), Some("a test"));
    assert!(!p.set_property_str("EMPTY", ""));
    assert!(p.set_property_hex("FLAGS", 255));
    assert_eq!(p.get_property("FLAGS"), Some("255"));
    assert!(p.set_property_uncooked("RAW", "x y"));
    assert_eq!(p.get_property("RAW"), Some("x y"));
    assert!(!p.set_property_uncooked("NUMBER_OF_FIELDS", "9"));
    let out = String::from_utf8(p.save_to_mem()).unwrap();
    assert!(out.contains("FLAGS\t0xFF\n"));
    assert!(out.contains("DESCRIPTOR\t\"a test\"\n"));
    assert!(out.contains("RAW\tx y\n"));
}

#[test]
fn set_then_get_cell() {
    let mut p = Profile::load_from_mem(SAMPLE.as_bytes()).unwrap();
    assert!(p.set_data_rowcol(1, 2, "99"));
    assert_eq!(p.get_data_rowcol(1, 2), Some("99"));
    assert!(!p.set_data_rowcol(-1, 0, "x"));
    assert_eq!(p.get_data_rowcol(5, 0), None);
}

#[test]
fn tables_and_sheet_types() {
    let mut p = Profile::load_from_mem(SAMPLE.as_bytes()).unwrap();
    assert_eq!(p.set_table(1).unwrap(), 1);
    assert_eq!(p.table_count(), 2);
    assert_eq!(p.sheet_type(), "");
    p.set_sheet_type("SECOND");
    assert_eq!(p.sheet_type(), "SECOND");
    assert!(p.set_table(5).is_err());
    assert_eq!(p.set_table(0).unwrap(), 0);
    assert_eq!(p.sheet_type(), "CGATS.17");
}

#[test]
fn pair_properties_and_comments() {
    let text = "CGATS.17\nWEIGHTING_FUNCTION \"name, D50;obs,2\"\n# a comment\nNUMBER_OF_FIELDS 1\n";
    let mut p = Profile::load_from_mem(text.as_bytes()).unwrap();
    assert_eq!(p.get_property_multi("WEIGHTING_FUNCTION", "name"), Some("D50"));
    assert_eq!(p.get_property_multi("weighting_function", "OBS"), Some("2"));
    let out = String::from_utf8(p.save_to_mem()).unwrap();
    assert_eq!(out, "CGATS.17\nWEIGHTING_FUNCTION\t\"name,D50\"\nWEIGHTING_FUNCTION\t\"obs,2\"\nNUMBER_OF_FIELDS\t1\n\0");
}

#[test]
fn numbers_hex_binary_and_reals() {
    let text = "CGATS.17\nA 0x1F\nB 0b101\nC -12\nD 1.5\nE 12abc\n";
    let p = Profile::load_from_mem(text.as_bytes()).unwrap();
    assert_eq!(p.get_property("A"), Some("31"));
    assert_eq!(p.get_property("B"), Some("5"));
    assert_eq!(p.get_property("C"), Some("-12"));
    assert_eq!(p.get_property("D"), Some("1.5"));
    assert_eq!(p.get_property("E"), Some("12abc"));
}

#[test]
fn label_columns_are_expanded() {
    let text = "CGATS.17\nNUMBER_OF_FIELDS 2\nNUMBER_OF_SETS 1\nREF \"target\"\nBEGIN_DATA_FORMAT\nSAMPLE_ID LABEL\nEND_DATA_FORMAT\nBEGIN_DATA\nP1 REF\nEND_DATA\n";
    let p = Profile::load_from_mem(text.as_bytes()).unwrap();
    assert_eq!(p.get_data_rowcol(0, 1), Some("REF 0 target"));
}

#[test]
fn trailing_zeros_are_stripped() {
    assert_eq!(strip_trailing_zeros("1.2500"), "1.25");
    assert_eq!(strip_trailing_zeros("3.000"), "3");
    assert_eq!(strip_trailing_zeros("10.00"), "10");
    assert_eq!(strip_trailing_zeros("100"), "100");
    assert_eq!(strip_trailing_zeros("-0.500"), "-0.5");
    assert_eq!(strip_trailing_zeros("1e+10"), "1e+10");
}

#[test]
fn a_data_block_opens_a_table_with_its_own_sheet_type() {
    let text = "CGATS.17\nNUMBER_OF_FIELDS 1\nNUMBER_OF_SETS 1\nBEGIN_DATA_FORMAT\nSAMPLE_ID\nEND_DATA_FORMAT\nBEGIN_DATA\nA1\nEND_DATA\nIT8.7/2\nNUMBER_OF_FIELDS 1\nNUMBER_OF_SETS 1\nBEGIN_DATA_FORMAT\nSAMPLE_ID\nEND_DATA_FORMAT\nBEGIN_DATA\nB1\nEND_DATA\n";
    let mut p = Profile::load_from_mem(text.as_bytes()).unwrap();
    assert_eq!(p.table_count(), 2);
    assert_eq!(p.sheet_type(), "CGATS.17");
    assert_eq!(p.patch_name(0), Some("A1"));
    assert_eq!(p.set_table(1).unwrap(), 1);
    assert_eq!(p.sheet_type(), "IT8.7/2");
    assert_eq!(p.patch_name(0), Some("B1"));
}

#[test]
fn a_long_sheet_type_is_cut_at_a_character_boundary() {
    let mut p = Profile::load_from_mem(SAMPLE.as_bytes()).unwrap();
    let long = "\u{e9}".repeat(600);
    p.set_sheet_type(&long);
    assert_eq!(p.sheet_type().len(), 1022);
    assert_eq!(p.sheet_type(), "\u{e9}".repeat(511));
    let ascii = "x".repeat(2000);
    p.set_sheet_type(&ascii);
    assert_eq!(p.sheet_type(), "x".repeat(1023));
}

#[test]
fn a_counter_already_held_cannot_be_set() {
    let mut p = Profile::load_from_mem(SAMPLE.as_bytes()).unwrap();
    assert!(!p.set_property_str("number_of_sets", "7"));
    assert_eq!(p.get_property("NUMBER_OF_SETS"), Some("2"));
    assert!(p.set_property_str("#note", "a comment"));
    assert!(p.set_property_str("originator", "me"));
    assert_eq!(p.get_property("ORIGINATOR"), Some("me"));
}

#[test]
fn a_cell_in_range_reads_back_and_the_others_stay() {
    let text = "CGATS.17\nNUMBER_OF_FIELDS 2\nNUMBER_OF_SETS 1\nBEGIN_DATA_FORMAT\nSAMPLE_ID RGB_R\nEND_DATA_FORMAT\nBEGIN_DATA\nA1 10\nEND_DATA\n";
    let mut p = Profile::load_from_mem(text.as_bytes()).unwrap();
    assert!(p.set_data_rowcol(0, 1, "42"));
    assert_eq!(p.get_data_rowcol(0, 1), Some("42"));
    assert_eq!(p.get_data_rowcol(0, 0), Some("A1"));
    assert!(!p.set_data_rowcol(2, 0, "x"));
    assert!(!p.set_data_rowcol(0, 3, "x"));
    assert_eq!(p.get_data_rowcol(0, 1), Some("42"));
}
