use rskey::codec::{decode, encode};

fn pairs(raw: &[(&str, &str)]) -> Vec<(String, String)> {
    raw.iter()
        .map(|(k, v)| (k.to_string(), v.to_string()))
        .collect()
}

#[test]
fn empty_mapping_encodes_as_bare_braces() {
    assert_eq!("{}", encode(&Vec::new()));
}

#[test]
fn one_entry_encodes_as_a_quoted_pair() {
    assert_eq!("{\"k\":\"v\"}", encode(&pairs(&[("k", "v")])));
}

#[test]
fn quotes_and_backslashes_are_escaped() {
    let entries = pairs(&[("sa\"id", "a\\b")]);
    assert_eq!("{\"sa\\\"id\":\"a\\\\b\"}", encode(&entries));
}

#[test]
fn decode_reverses_encode() {
    let entries = pairs(&[
        ("key1", "value1"),
        ("quote\"key", "back\\slash"),
        ("", ""),
        ("colon:comma,brace}", "{\"\\"),
        ("umlaut \u{e4}", "snowman \u{2603}"),
    ]);
    let decoded = decode(&encode(&entries)).expect("a fresh encoding must decode");
    assert_eq!(entries, decoded);
}

#[test]
fn decode_of_empty_object_is_no_entries() {
    let decoded = decode("{}").unwrap();
    assert!(decoded.is_empty());
}

#[test]
fn decode_keeps_entry_order() {
    let decoded = decode("{\"b\":\"2\",\"a\":\"1\"}").unwrap();
    assert_eq!(pairs(&[("b", "2"), ("a", "1")]), decoded);
}

#[test]
fn malformed_snapshots_are_refused() {
    for bad in [
        "",
        "{",
        "}",
        "{}{}",
        "{} ",
        " {}",
        "{\"a\":\"b\"",
        "{\"a\":\"b\"}x",
        "{\"a\"}",
        "{\"a\":}",
        "{\"a\":\"b\",}",
        "{\"a\" :\"b\"}",
        "{\"a\":\"b\\x\"}",
        "{\"a\":\"b\\\"}",
        "{'a':'b'}",
        "plain text",
    ] {
        assert!(decode(bad).is_none(), "expected {bad:?} to be refused");
    }
}

#[test]
fn decode_accepts_duplicate_keys_in_order() {
    // the codec reads whatever run of pairs the text holds; refusing
    // duplicates is the store's policy, not the format's
    let decoded = decode("{\"a\":\"1\",\"a\":\"2\"}").unwrap();
    assert_eq!(pairs(&[("a", "1"), ("a", "2")]), decoded);
}
