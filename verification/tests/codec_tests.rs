use persisted_query::codec::{decode_envelope, encode_envelope, DecodeError, RequestEnvelope, VarValue};

fn decode_ok(text: &str) -> RequestEnvelope {
    decode_envelope(&text.as_bytes().to_vec()).expect("expected a decodable envelope")
}

#[test]
fn encode_query_only_exact_bytes() {
    let e = RequestEnvelope { query: Some("query { hello }".to_string()), variables: None };
    let bytes = encode_envelope(&e);
    assert_eq!(String::from_utf8(bytes).unwrap(), "{\"query\":\"query { hello }\"}");
}

#[test]
fn encode_empty_envelope() {
    let e = RequestEnvelope { query: None, variables: None };
    assert_eq!(String::from_utf8(encode_envelope(&e)).unwrap(), "{}");
}

#[test]
fn round_trip_query_only() {
    let e = RequestEnvelope { query: Some("query { hello }".to_string()), variables: None };
    let back = decode_envelope(&encode_envelope(&e)).unwrap();
    assert_eq!(back.query.as_deref(), Some("query { hello }"));
    assert!(back.variables.is_none());
}

#[test]
fn round_trip_with_variables() {
    let e = RequestEnvelope {
        query: Some("q".to_string()),
        variables: Some(vec![
            ("documentId".to_string(), VarValue::Text("abc123".to_string())),
            ("count".to_string(), VarValue::Raw("42".to_string())),
            ("nested".to_string(), VarValue::Raw("{\"a\":[1,2,{\"b\":\"x,y\"}]}".to_string())),
            ("flag".to_string(), VarValue::Raw("true".to_string())),
        ]),
    };
    let back = decode_envelope(&encode_envelope(&e)).unwrap();
    assert_eq!(back.query.as_deref(), Some("q"));
    let vars = back.variables.unwrap();
    assert_eq!(vars.len(), 4);
    assert_eq!(vars[0].0, "documentId");
    match &vars[0].1 {
        VarValue::Text(s) => assert_eq!(s, "abc123"),
        VarValue::Raw(_) => panic!("documentId should decode as a string"),
    }
    match &vars[2].1 {
        VarValue::Raw(t) => assert_eq!(t, "{\"a\":[1,2,{\"b\":\"x,y\"}]}"),
        VarValue::Text(_) => panic!("nested object should stay raw"),
    }
}

#[test]
fn round_trip_escaped_text() {
    let e = RequestEnvelope {
        query: Some("line one\nline \"two\"\t\\end\r".to_string()),
        variables: None,
    };
    let back = decode_envelope(&encode_envelope(&e)).unwrap();
    assert_eq!(back.query.as_deref(), Some("line one\nline \"two\"\t\\end\r"));
}

#[test]
fn round_trip_empty_variables_object() {
    let e = RequestEnvelope { query: None, variables: Some(vec![]) };
    let bytes = encode_envelope(&e);
    assert_eq!(String::from_utf8(bytes.clone()).unwrap(), "{\"variables\":{}}");
    let back = decode_envelope(&bytes).unwrap();
    assert!(back.query.is_none());
    assert_eq!(back.variables.unwrap().len(), 0);
}

#[test]
fn decode_tolerates_whitespace() {
    let e = decode_ok(" { \"query\" : \"query { hello }\" , \"variables\" : { \"documentId\" : \"abc123\" } } ");
    assert_eq!(e.query.as_deref(), Some("query { hello }"));
    let vars = e.variables.unwrap();
    assert_eq!(vars[0].0, "documentId");
}

#[test]
fn decode_skips_unknown_members() {
    let e = decode_ok("{\"operationName\":\"Foo\",\"query\":\"q\",\"extensions\":{\"a\":1}}");
    assert_eq!(e.query.as_deref(), Some("q"));
    assert!(e.variables.is_none());
}

#[test]
fn decode_null_members_mean_absent() {
    let e = decode_ok("{\"query\":null,\"variables\":null}");
    assert!(e.query.is_none());
    assert!(e.variables.is_none());
}

#[test]
fn decode_last_member_wins() {
    let e = decode_ok("{\"query\":\"first\",\"query\":\"second\"}");
    assert_eq!(e.query.as_deref(), Some("second"));
}

#[test]
fn decode_full_escape_set() {
    let e = decode_ok("{\"query\":\"\\u0041\\b\\f\\/ \\u00e9 \\u001F\"}");
    assert_eq!(e.query.as_deref(), Some("A\u{8}\u{c}/ é \u{1f}"));
}

#[test]
fn decode_surrogate_pair() {
    let e = decode_ok("{\"query\":\"\\ud83d\\ude00\"}");
    assert_eq!(e.query.as_deref(), Some("\u{1F600}"));
}

#[test]
fn decode_rejects_lone_surrogates() {
    for bad in [
        "{\"query\":\"\\ud800\"}",
        "{\"query\":\"\\ud83d x\"}",
        "{\"query\":\"\\ude00\"}",
        "{\"query\":\"\\ud83d\\u0041\"}",
    ] {
        let r = decode_envelope(&bad.as_bytes().to_vec());
        assert!(matches!(r, Err(DecodeError::InvalidStructure)), "accepted: {bad}");
    }
}

#[test]
fn round_trip_control_characters() {
    let e = RequestEnvelope {
        query: Some("a\u{0}b\u{8}c\u{c}d\u{1f}e".to_string()),
        variables: None,
    };
    let bytes = encode_envelope(&e);
    assert_eq!(
        String::from_utf8(bytes.clone()).unwrap(),
        "{\"query\":\"a\\u0000b\\bc\\fd\\u001fe\"}"
    );
    let back = decode_envelope(&bytes).unwrap();
    assert_eq!(back.query.as_deref(), Some("a\u{0}b\u{8}c\u{c}d\u{1f}e"));
}

#[test]
fn decode_rejects_invalid_utf8() {
    let r = decode_envelope(&vec![0x7b, 0xff, 0xfe, 0x7d]);
    assert!(matches!(r, Err(DecodeError::InvalidEncoding)));
}

#[test]
fn decode_rejects_malformed_structure() {
    for bad in [
        "",
        "   ",
        "{",
        "}",
        "[1,2]",
        "\"just a string\"",
        "{\"query\":}",
        "{\"query\":\"q\"",
        "{\"query\":\"q\"} trailing",
        "{\"query\":\"q\",}",
        "{\"query\":5}",
        "{\"variables\":5}",
        "{\"variables\":[1]}",
        "{\"query\":\"unterminated}",
        "{\"variables\":{\"x\":@@}}",
        "{\"variables\":{\"x\":=1}}",
        "{\"junk\":@}",
    ] {
        let r = decode_envelope(&bad.as_bytes().to_vec());
        assert!(matches!(r, Err(DecodeError::InvalidStructure)), "accepted: {bad}");
    }
}

#[test]
fn decode_rejects_unknown_escape_and_raw_controls() {
    assert!(matches!(
        decode_envelope(&"{\"query\":\"a\\x\"}".as_bytes().to_vec()),
        Err(DecodeError::InvalidStructure)
    ));
    assert!(matches!(
        decode_envelope(&"{\"query\":\"a\u{0001}b\"}".as_bytes().to_vec()),
        Err(DecodeError::InvalidStructure)
    ));
}

#[test]
fn decode_non_ascii_text_survives() {
    let e = decode_ok("{\"query\":\"héllo \u{2603}\"}");
    assert_eq!(e.query.as_deref(), Some("héllo \u{2603}"));
    let back = decode_envelope(&encode_envelope(&e)).unwrap();
    assert_eq!(back.query.as_deref(), Some("héllo \u{2603}"));
}
