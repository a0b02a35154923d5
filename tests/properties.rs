use reloaded3_localisation::merge_locale_table_rust;
use reloaded3_localisation::parser::insert_hashed;
use reloaded3_localisation::sanitize_r3_locale_file;
use reloaded3_localisation::store::{HashIndex, ValueBuilder};
use reloaded3_localisation::{
    insert_into_hashtable, parse_r3locale_bytes, LocaleTable, MergeTableError, ParseR3Error,
};

fn parse(text: &[u8]) -> LocaleTable {
    parse_r3locale_bytes(text).expect("document should parse")
}

fn sorted_entries(table: &LocaleTable) -> Vec<(u64, String)> {
    let mut all: Vec<(u64, String)> = table
        .all_entries()
        .into_iter()
        .map(|(h, v)| (h, v.to_string()))
        .collect();
    all.sort();
    all
}

#[test]
fn well_formed_document_round_trips() {
    let table = parse(b"[[alpha]]\none\n[[beta]]\ntwo words\n[[gamma]]\nthree\nlines\n");
    assert_eq!(table.find_entry(b"alpha"), Some("one"));
    assert_eq!(table.find_entry(b"beta"), Some("two words"));
    assert_eq!(table.find_entry(b"gamma"), Some("three\nlines"));
    assert_eq!(table.all_entries().len(), 3);
}

#[test]
fn parsing_twice_gives_same_lookups() {
    let text = b"[[a]]\n1\n[[b]]\n2\n";
    let first = parse(text);
    let second = parse(text);
    assert_eq!(sorted_entries(&first), sorted_entries(&second));
    for key in [&b"a"[..], b"b", b"c"] {
        assert_eq!(first.find_entry(key), second.find_entry(key));
    }
}

#[test]
fn trailing_comment_is_dropped() {
    let table = parse(b"[[A]]\nB\n##hidden\n");
    assert_eq!(table.find_entry(b"A"), Some("B"));
    assert_eq!(table.all_entries().len(), 1);
}

#[test]
fn commented_header_creates_nothing() {
    let table = parse(b"##[[X]]\n");
    assert_eq!(table.find_entry(b"X"), None);
    assert_eq!(table.all_entries().len(), 0);
}

#[test]
fn header_must_start_a_line() {
    let table = parse(b"prefix[[A]]\nv\n");
    assert_eq!(table.find_entry(b"A"), None);
    assert_eq!(table.find_entry(b"prefix[[A"), None);
    assert_eq!(table.all_entries().len(), 0);
}

#[test]
fn repeated_key_is_rejected() {
    let result = parse_r3locale_bytes(b"[[K]]\nv1\n[[K]]\nv2\n");
    assert!(matches!(result, Err(ParseR3Error::DuplicateKeys)));
}

#[test]
fn header_without_value_is_rejected() {
    let result = parse_r3locale_bytes(b"[[K]]");
    assert!(matches!(result, Err(ParseR3Error::KeyValueMismatch)));
}

#[test]
fn unclosed_header_is_rejected() {
    let result = parse_r3locale_bytes(b"[[K\nv\n");
    assert!(matches!(result, Err(ParseR3Error::BracketMismatch)));
}

#[test]
fn merge_prefers_earlier_table() {
    let t1 = parse(b"[[K]]\na\n");
    let t2 = parse(b"[[K]]\nb\n");
    let merged = merge_locale_table_rust(&[&t1, &t2]).expect("merge should succeed");
    assert_eq!(merged.find_entry(b"K"), Some("a"));
    assert_eq!(merged.all_entries().len(), 1);
}

#[test]
fn merge_keeps_disjoint_keys() {
    let t1 = parse(b"[[K]]\na\n");
    let t2 = parse(b"[[M]]\nb\n");
    let merged = merge_locale_table_rust(&[&t1, &t2]).expect("merge should succeed");
    assert_eq!(merged.find_entry(b"K"), Some("a"));
    assert_eq!(merged.find_entry(b"M"), Some("b"));
    assert_eq!(merged.all_entries().len(), 2);
}

#[test]
fn merge_of_nothing_is_empty() {
    let merged = merge_locale_table_rust(&[]).expect("merge should succeed");
    assert_eq!(merged.all_entries().len(), 0);
}

#[test]
fn invalid_utf8_anywhere_is_rejected() {
    let result = parse_r3locale_bytes(b"[[a]]\nfine\n[[b]]\nbad \xC3 byte\n[[c]]\nok\n");
    assert!(matches!(result, Err(ParseR3Error::InvalidUTF8Value)));
    let in_key = parse_r3locale_bytes(b"[[k\xFF]]\nv\n");
    assert!(matches!(in_key, Err(ParseR3Error::InvalidUTF8Value)));
    let in_comment = parse_r3locale_bytes(b"## \xFE\n[[k]]\nv\n");
    assert!(matches!(in_comment, Err(ParseR3Error::InvalidUTF8Value)));
}

#[test]
fn line_endings_do_not_matter() {
    let lf = parse(b"[[a]]\nfirst\nline\n[[b]]\nsecond\n");
    let crlf = parse(b"[[a]]\r\nfirst\r\nline\r\n[[b]]\r\nsecond\r\n");
    let cr = parse(b"[[a]]\rfirst\rline\r[[b]]\rsecond\r");
    assert_eq!(sorted_entries(&lf), sorted_entries(&crlf));
    assert_eq!(sorted_entries(&lf), sorted_entries(&cr));
    assert_eq!(crlf.find_entry(b"a"), Some("first\nline"));
}

#[test]
fn sanitizer_normalises_and_blanks() {
    let out = sanitize_r3_locale_file(b"a\r\nb\rc ##x\r\nd").expect("valid text");
    assert_eq!(out, b"a\nb\nc    \nd".to_vec());
    let bad = sanitize_r3_locale_file(b"\xFF");
    assert!(matches!(bad, Err(ParseR3Error::InvalidUTF8Value)));
}

#[test]
fn empty_document_gives_empty_table() {
    let table = parse(b"");
    assert_eq!(table.all_entries().len(), 0);
    assert_eq!(table.find_entry(b""), None);
}

#[test]
fn keys_and_values_are_trimmed() {
    let table = parse(b"[[  spaced key \t]]\n \t value text  \n\n");
    assert_eq!(table.find_entry(b"spaced key"), Some("value text"));
    assert_eq!(table.find_entry(b"  spaced key \t"), None);
}

#[test]
fn empty_value_is_kept() {
    let table = parse(b"[[a]]\n[[b]]\nx\n");
    assert_eq!(table.find_entry(b"a"), Some(""));
    assert_eq!(table.find_entry(b"b"), Some("x"));
}

#[test]
fn too_many_values_exceed_capacity() {
    let mut text = String::new();
    for i in 0..65537u32 {
        text.push_str(&format!("[[k{}]]\nv\n", i));
    }
    let result = parse_r3locale_bytes(text.as_bytes());
    assert!(matches!(result, Err(ParseR3Error::CapacityExceeded)));
}

#[test]
fn largest_value_count_fits() {
    let mut text = String::new();
    for i in 0..65536u32 {
        text.push_str(&format!("[[k{}]]\nv\n", i));
    }
    let table = parse(text.as_bytes());
    assert_eq!(table.find_entry(b"k65535"), Some("v"));
}

#[test]
fn merge_error_converts_from_parse_error() {
    assert_eq!(
        MergeTableError::from(ParseR3Error::DuplicateKeys),
        MergeTableError::DuplicateKeys
    );
    assert_eq!(
        MergeTableError::from(ParseR3Error::CapacityExceeded),
        MergeTableError::CapacityExceeded
    );
}

#[test]
fn index_rejects_repeated_key() {
    let mut index = HashIndex::new();
    assert!(insert_into_hashtable(&mut index, b"key", 0).is_ok());
    assert!(matches!(
        insert_into_hashtable(&mut index, b"key", 1),
        Err(ParseR3Error::DuplicateKeys)
    ));
    assert!(insert_into_hashtable(&mut index, b"other", 1).is_ok());
    assert_eq!(index.entries().len(), 2);
}

#[test]
fn builder_hands_out_sequential_ids() {
    let mut builder = ValueBuilder::new();
    assert_eq!(builder.try_push("x").ok(), Some(0));
    assert_eq!(builder.try_push("yz").ok(), Some(1));
    let table = builder.build();
    assert_eq!(table.get(1), Some("yz"));
    assert_eq!(table.get(2), None);
}

#[test]
fn lookup_by_hash_matches_enumeration() {
    let table = parse(b"[[one]]\n1\n[[two]]\n2\n");
    for (hash, value) in table.all_entries() {
        assert_eq!(table.find_hash(hash), Some(value));
    }
    let hashes: Vec<u64> = table.all_entries().into_iter().map(|(h, _)| h).collect();
    let unused = (0..u64::MAX).find(|h| !hashes.contains(h)).unwrap();
    assert_eq!(table.find_hash(unused), None);
}

#[test]
fn hashed_insert_detects_repeats() {
    let mut index = HashIndex::new();
    assert!(insert_hashed(&mut index, 7, 0).is_ok());
    assert!(insert_hashed(&mut index, 8, 1).is_ok());
    assert!(matches!(insert_hashed(&mut index, 7, 2), Err(ParseR3Error::DuplicateKeys)));
    assert_eq!(index.find(7), Some(0));
    assert_eq!(index.find(8), Some(1));
    assert_eq!(index.find(9), None);
}
