use clip_tags::codec::parse_store_file;
use clip_tags::codec::parse_tags;
use clip_tags::codec::serialize_store_file;
use clip_tags::codec::serialize_tags;

#[test]
fn parses_plain_tag_array() {
    let tags = parse_tags("[\"a\",\"b\",\"c\"]").unwrap();
    assert_eq!(tags, vec!["a".to_string(), "b".to_string(), "c".to_string()]);
}

#[test]
fn parses_empty_array() {
    let tags = parse_tags("[]").unwrap();
    assert!(tags.is_empty());
}

#[test]
fn parses_with_whitespace() {
    let tags = parse_tags(" \t\r\n[ \"a\" ,\n\"b\" ]  ").unwrap();
    assert_eq!(tags, vec!["a".to_string(), "b".to_string()]);
}

#[test]
fn parses_short_escapes() {
    let tags = parse_tags("[\"a\\nb\", \"q\\\"q\", \"s\\\\s\", \"t\\tt\", \"x\\/x\"]").unwrap();
    assert_eq!(
        tags,
        vec![
            "a\nb".to_string(),
            "q\"q".to_string(),
            "s\\s".to_string(),
            "t\tt".to_string(),
            "x/x".to_string()
        ]
    );
}

#[test]
fn parses_unicode_escapes() {
    let tags = parse_tags("[\"\\u0041\\u00e9\"]").unwrap();
    assert_eq!(tags, vec!["A\u{e9}".to_string()]);
}

#[test]
fn parses_surrogate_pair_escape() {
    // U+1F600 as a JSON surrogate pair
    let tags = parse_tags("[\"\\ud83d\\ude00\"]").unwrap();
    assert_eq!(tags, vec!["\u{1F600}".to_string()]);
}

#[test]
fn rejects_lone_surrogate() {
    assert!(parse_tags("[\"\\ud83d\"]").is_none());
}

#[test]
fn rejects_non_json() {
    assert!(parse_tags("not json").is_none());
}

#[test]
fn rejects_error_prefixed_reply() {
    assert!(parse_tags("Error: connection refused").is_none());
}

#[test]
fn rejects_non_string_element() {
    assert!(parse_tags("[1,2]").is_none());
    assert!(parse_tags("[\"a\", 2]").is_none());
    assert!(parse_tags("[null]").is_none());
}

#[test]
fn rejects_unterminated_array() {
    assert!(parse_tags("[\"a\"").is_none());
    assert!(parse_tags("[\"a\",").is_none());
    assert!(parse_tags("[\"a").is_none());
}

#[test]
fn rejects_trailing_garbage() {
    assert!(parse_tags("[\"a\"] x").is_none());
    assert!(parse_tags("[\"a\"][]").is_none());
}

#[test]
fn rejects_raw_control_character() {
    assert!(parse_tags("[\"a\u{0001}b\"]").is_none());
}

#[test]
fn rejects_json_object() {
    assert!(parse_tags("{\"a\": 1}").is_none());
}

#[test]
fn serializes_tags_exactly() {
    let tags = vec!["a".to_string(), "b\"c".to_string(), "d\\e".to_string(), "f\ng".to_string()];
    let s = serialize_tags(&tags);
    assert_eq!(s, "[\"a\",\"b\\\"c\",\"d\\\\e\",\"f\\u000ag\"]");
}

#[test]
fn serializes_empty_tags() {
    let tags: Vec<String> = Vec::new();
    assert_eq!(serialize_tags(&tags), "[]");
}

#[test]
fn tag_round_trip_through_text() {
    let tags = vec!["plain".to_string(), "with \"quotes\"".to_string(), "line\nbreak".to_string()];
    let s = serialize_tags(&tags);
    let back = parse_tags(&s).unwrap();
    assert_eq!(back, tags);
}

#[test]
fn serialized_tags_parse_with_serde() {
    let tags = vec!["a".to_string(), "b\"c".to_string(), "tab\there".to_string()];
    let s = serialize_tags(&tags);
    let v: Vec<String> = serde_json::from_str(&s).unwrap();
    assert_eq!(v, tags);
}

#[test]
fn store_file_round_trip() {
    let entries = vec![
        ("hello".to_string(), vec!["a".to_string(), "b".to_string()]),
        ("wor\"ld".to_string(), vec!["x\\y".to_string()]),
    ];
    let s = serialize_store_file(&entries);
    let back = parse_store_file(&s).unwrap();
    assert_eq!(back, entries);
}

#[test]
fn store_file_exact_shape() {
    let entries = vec![("hello".to_string(), vec!["a".to_string()])];
    let s = serialize_store_file(&entries);
    assert_eq!(s, "{\"clipboardHistory.text_with_related_tags\":{\"hello\":[\"a\"]}}");
}

#[test]
fn store_file_parses_with_serde() {
    let entries = vec![("k1".to_string(), vec!["t1".to_string(), "t2".to_string()])];
    let s = serialize_store_file(&entries);
    let v: serde_json::Value = serde_json::from_str(&s).unwrap();
    let inner = v
        .as_object()
        .unwrap()
        .get("clipboardHistory.text_with_related_tags")
        .unwrap()
        .as_object()
        .unwrap();
    let tags = inner.get("k1").unwrap().as_array().unwrap();
    assert_eq!(tags.len(), 2);
    assert_eq!(tags[0].as_str().unwrap(), "t1");
    assert_eq!(tags[1].as_str().unwrap(), "t2");
}

#[test]
fn parses_store_file_with_whitespace() {
    let s = "{ \"clipboardHistory.text_with_related_tags\" : { \"a\" : [ \"t\" ] , \"b\" : [] } } ";
    let es = parse_store_file(s).unwrap();
    assert_eq!(es.len(), 2);
    assert_eq!(es[0].0, "a");
    assert_eq!(es[0].1, vec!["t".to_string()]);
    assert_eq!(es[1].0, "b");
    assert!(es[1].1.is_empty());
}

#[test]
fn rejects_store_file_with_wrong_key() {
    assert!(parse_store_file("{\"other\":{}}").is_none());
}

#[test]
fn rejects_store_file_with_garbage() {
    assert!(parse_store_file("").is_none());
    assert!(parse_store_file("{").is_none());
    assert!(parse_store_file("not json at all").is_none());
    assert!(parse_store_file("{\"clipboardHistory.text_with_related_tags\":[]}").is_none());
}
