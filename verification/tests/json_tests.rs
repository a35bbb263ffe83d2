use rranch::json::JsonValue;

fn parse(text: &str) -> JsonValue {
    JsonValue::parse(text).expect("expected valid JSON")
}

#[test]
fn serializes_scalars() {
    assert_eq!(JsonValue::Null.to_text(), "null");
    assert_eq!(JsonValue::Bool(true).to_text(), "true");
    assert_eq!(JsonValue::Bool(false).to_text(), "false");
    assert_eq!(JsonValue::from_u64(27015).to_text(), "27015");
    assert_eq!(JsonValue::Str("hi".to_string()).to_text(), "\"hi\"");
}

#[test]
fn serializes_compact_structures() {
    let v = JsonValue::Obj(vec![
        ("command".to_string(), JsonValue::Str("BUILD".to_string())),
        ("payload".to_string(), JsonValue::Arr(vec![
            JsonValue::from_u64(1),
            JsonValue::Null,
        ])),
    ]);
    assert_eq!(v.to_text(), "{\"command\":\"BUILD\",\"payload\":[1,null]}");
}

#[test]
fn escapes_strings_like_the_wire_expects() {
    assert_eq!(JsonValue::Str("a\"b".to_string()).to_text(), "\"a\\\"b\"");
    assert_eq!(JsonValue::Str("a\\b".to_string()).to_text(), "\"a\\\\b\"");
    assert_eq!(JsonValue::Str("a\nb\t".to_string()).to_text(), "\"a\\nb\\t\"");
    assert_eq!(JsonValue::Str("\u{1}".to_string()).to_text(), "\"\\u0001\"");
    assert_eq!(JsonValue::Str("\u{e9}".to_string()).to_text(), "\"\u{e9}\"");
}

#[test]
fn parses_what_it_serializes() {
    let v = JsonValue::Obj(vec![
        ("name".to_string(), JsonValue::Str("thunar \u{1F600}".to_string())),
        ("deps".to_string(), JsonValue::Arr(vec![JsonValue::Str("gtk3".to_string())])),
        ("count".to_string(), JsonValue::from_u64(2)),
        ("flag".to_string(), JsonValue::Bool(false)),
        ("none".to_string(), JsonValue::Null),
    ]);
    let text = v.to_text();
    let back = parse(&text);
    assert_eq!(back.to_text(), text);
}

#[test]
fn accepts_whitespace_between_tokens() {
    let v = parse(" { \"a\" : [ 1 , 2 ] , \"b\" : \"x\" } ");
    assert_eq!(v.to_text(), "{\"a\":[1,2],\"b\":\"x\"}");
}

#[test]
fn decodes_standard_escapes() {
    let v = parse("\"a\\n\\t\\\"\\\\\\/\\u0041\"");
    match v {
        JsonValue::Str(s) => assert_eq!(s, "a\n\t\"\\/A"),
        _ => panic!("expected a string"),
    }
}

#[test]
fn decodes_surrogate_pairs() {
    let v = parse("\"\\ud83d\\ude00\"");
    match v {
        JsonValue::Str(s) => assert_eq!(s, "\u{1F600}"),
        _ => panic!("expected a string"),
    }
}

#[test]
fn lone_surrogates_are_rejected() {
    assert!(JsonValue::parse("\"\\ud83d\"").is_none());
    assert!(JsonValue::parse("\"\\ude00\"").is_none());
}

#[test]
fn keeps_number_tokens_verbatim() {
    match parse("-1.5e3") {
        JsonValue::Num(tok) => assert_eq!(tok, "-1.5e3"),
        _ => panic!("expected a number"),
    }
    assert_eq!(parse("-1.5e3").to_text(), "-1.5e3");
}

#[test]
fn as_u64_reads_plain_digit_tokens_only() {
    assert_eq!(parse("200").as_u64(), Some(200));
    assert_eq!(parse("0").as_u64(), Some(0));
    assert_eq!(parse("-2").as_u64(), None);
    assert_eq!(parse("2.5").as_u64(), None);
    assert_eq!(parse("2e2").as_u64(), None);
    assert_eq!(parse("99999999999999999999999999").as_u64(), None);
}

#[test]
fn rejects_malformed_documents() {
    assert!(JsonValue::parse("").is_none());
    assert!(JsonValue::parse("{").is_none());
    assert!(JsonValue::parse("[1,]").is_none());
    assert!(JsonValue::parse("{\"a\" 1}").is_none());
    assert!(JsonValue::parse("01").is_none());
    assert!(JsonValue::parse("nul").is_none());
    assert!(JsonValue::parse("\"unterminated").is_none());
    assert!(JsonValue::parse("1 2").is_none());
    assert!(JsonValue::parse("\"a\u{1}b\"").is_none());
}

#[test]
fn object_lookup_finds_the_first_field() {
    let v = parse("{\"a\":1,\"b\":2,\"a\":3}");
    assert_eq!(v.get("a").unwrap().as_u64(), Some(1));
    assert_eq!(v.get("b").unwrap().as_u64(), Some(2));
    assert!(v.get("c").is_none());
    let taken = v.take_field("b").unwrap();
    assert_eq!(taken.as_u64(), Some(2));
}

#[test]
fn deep_nesting_round_trips() {
    let text = "{\"a\":[[{\"b\":[{\"c\":null}]}]],\"d\":{\"e\":{\"f\":[0]}}}";
    assert_eq!(parse(text).to_text(), text);
}

#[test]
fn empty_containers_round_trip() {
    assert_eq!(parse("[]").to_text(), "[]");
    assert_eq!(parse("{}").to_text(), "{}");
    assert_eq!(parse("[ ]").to_text(), "[]");
    assert_eq!(parse("{ }").to_text(), "{}");
    assert_eq!(parse("\"\"").to_text(), "\"\"");
}
