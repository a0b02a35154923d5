use reloaded3_localisation::{parse_r3locale_bytes, ParseR3Error};

#[test]
fn test_parse_and_find_entry() {
    let sample =
        b"[[example_key]]hiiii\nexample_value\n##BYEE\n[[another_key]]\nanother_value\n";
    let table = parse_r3locale_bytes(sample).expect("Parse failed");

    let val = table.find_entry(b"example_key");
    assert_eq!(val, Some("example_value"));

    let val2 = table.find_entry(b"another_key");
    assert_eq!(val2, Some("another_value"));

    let missing = table.find_entry(b"missing");
    assert_eq!(missing, None);
}

#[test]
fn test_invalid_utf8() {
    let sample = b"[[bad_key]]\n\xFF\xFE\xFD\n";
    let result = parse_r3locale_bytes(sample);
    assert!(matches!(result, Err(ParseR3Error::InvalidUTF8Value)));
}

#[test]
fn test_key_value_mismatch() {
    let sample = b"[[only_key]]";
    let result = parse_r3locale_bytes(sample);
    assert!(matches!(result, Err(ParseR3Error::KeyValueMismatch)));
}

#[test]
fn test_bracket_mismatch() {
    let sample = b"[[no_close\nvalue here\n";
    let result = parse_r3locale_bytes(sample);
    assert!(matches!(result, Err(ParseR3Error::BracketMismatch)));
}

#[test]
fn test_duplicate_keys() {
    let sample = b"[[duplicate_key]]\nfirst_value\n[[duplicate_key]]\nsecond_value";
    let result = parse_r3locale_bytes(sample);
    assert!(matches!(result, Err(ParseR3Error::DuplicateKeys)));
}
