use capnp_json::error::ErrorOf;
use capnp_json::parser::{parse_document, Parser};
use capnp_json::{CodecOptions, Error, JsonValue};

fn member<'a>(members: &'a [(String, JsonValue)], key: &str) -> Option<&'a JsonValue> {
    members.iter().find(|(k, _)| k == key).map(|(_, v)| v)
}

#[test]
fn test_parse_string() -> Result<(), Error> {
    let json = r#""Hello, World!""#;

    let mut parser = Parser::new(json);
    let value = parser.parse_value(&CodecOptions::default(), 0)?;

    assert!(matches!(value, JsonValue::String(s) if s == "Hello, World!"));
    Ok(())
}

#[test]
fn test_parse_string_with_special_chars() -> Result<(), Error> {
    let json = r#""Hełło,\nWorld!\"†ęś†: \u0007""#;

    let mut parser = Parser::new(json);
    let value = parser.parse_value(&CodecOptions::default(), 0)?;

    assert!(matches!(value, JsonValue::String(s) if s == "Hełło,\nWorld!\"†ęś†: \u{0007}"));

    let json = r#"{"value":"tab: \t, newline: \n, carriage return: \r, quote: \", backslash: \\"}"#;
    let mut parser = Parser::new(json);
    let value = parser.parse_value(&CodecOptions::default(), 0)?;
    let JsonValue::Object(map) = value else {
        panic!("Expected object at top level");
    };
    let Some(JsonValue::String(s)) = member(&map, "value") else {
        panic!("Expected string value for 'value' key");
    };
    assert_eq!(s, "tab: \t, newline: \n, carriage return: \r, quote: \", backslash: \\");
    Ok(())
}

#[test]
fn peeking_skips_whitespace_only_when_asked() {
    let mut parser = Parser::new("  \n\t x");
    assert_eq!(parser.peek(), Some(' '));
    assert_eq!(parser.peek_next(), Some('x'));
    assert_eq!(parser.peek(), Some('x'));

    let mut parser = Parser::new(" \r\n ");
    parser.discard_whitespace();
    assert_eq!(parser.peek(), None);
    assert_eq!(parser.peek_next(), None);
}

#[test]
fn parses_every_kind_of_value() {
    let options = CodecOptions::default();
    let value = parse_document(r#" { "a" : [1, -2.5e3, true, false, null], "b": {} } "#, &options).unwrap();
    let JsonValue::Object(members) = value else { panic!("expected an object") };
    assert_eq!(members.len(), 2);
    let Some(JsonValue::Array(items)) = member(&members, "a") else { panic!("expected an array") };
    assert!(matches!(&items[0], JsonValue::Number(t) if t == "1"));
    assert!(matches!(&items[1], JsonValue::Number(t) if t == "-2.5e3"));
    assert!(matches!(items[2], JsonValue::Boolean(true)));
    assert!(matches!(items[3], JsonValue::Boolean(false)));
    assert!(matches!(items[4], JsonValue::Null));
    assert!(matches!(member(&members, "b"), Some(JsonValue::Object(m)) if m.is_empty()));
}

#[test]
fn surrogate_pairs_decode_to_one_character() {
    let options = CodecOptions::default();
    let value = parse_document(r#""\ud83d\ude00 and \u00e9""#, &options).unwrap();
    assert!(matches!(value, JsonValue::String(s) if s == "\u{1F600} and \u{e9}"));
}

#[test]
fn unpaired_surrogates_are_rejected() {
    let options = CodecOptions::default();
    assert_eq!(
        parse_document(r#""\ude00""#, &options).unwrap_err(),
        ErrorOf::UnpairedTrailingSurrogate(0xDE00)
    );
    assert_eq!(
        parse_document(r#""\ud83d""#, &options).unwrap_err(),
        ErrorOf::UnpairedLeadingSurrogate(0xD83D)
    );
    assert_eq!(
        parse_document(r#""\ud83d\u0041""#, &options).unwrap_err(),
        ErrorOf::InvalidSurrogatePair(0xD83D, 0x0041)
    );
    assert_eq!(
        parse_document(r#""\uzzzz""#, &options).unwrap_err(),
        ErrorOf::InvalidUnicodeEscape("zzzz".to_string())
    );
}

#[test]
fn syntax_errors_are_reported() {
    let options = CodecOptions::default();
    assert_eq!(parse_document("", &options).unwrap_err(), ErrorOf::UnexpectedEndOfInput);
    assert_eq!(parse_document("[1,", &options).unwrap_err(), ErrorOf::UnexpectedEndOfInput);
    assert_eq!(parse_document("nul!", &options).unwrap_err(), ErrorOf::InvalidToken('!'));
    assert_eq!(parse_document("?", &options).unwrap_err(), ErrorOf::InvalidToken('?'));
    assert_eq!(parse_document("-", &options).unwrap_err(), ErrorOf::InvalidNumber("-".to_string()));
    assert_eq!(parse_document("1e", &options).unwrap_err(), ErrorOf::InvalidNumber("1e".to_string()));
    assert_eq!(parse_document(r#""\q""#, &options).unwrap_err(), ErrorOf::InvalidEscape('q'));
    assert_eq!(
        parse_document(r#"{"a":1,"a":2}"#, &options).unwrap_err(),
        ErrorOf::DuplicateKey("a".to_string())
    );
}

#[test]
fn trailing_whitespace_is_accepted() {
    let options = CodecOptions::default();
    assert!(parse_document("{} \n\t ", &options).is_ok());
}

#[test]
fn trailing_data_is_rejected() {
    let options = CodecOptions::default();
    assert_eq!(parse_document("{} x", &options).unwrap_err(), ErrorOf::TrailingCharacters);
    assert_eq!(parse_document("{}{}", &options).unwrap_err(), ErrorOf::TrailingCharacters);
}

fn nested_arrays(depth: usize) -> String {
    let mut s = String::new();
    for _ in 0..depth {
        s.push('[');
    }
    s.push('7');
    for _ in 0..depth {
        s.push(']');
    }
    s
}

#[test]
fn recursion_limit_admits_exactly_the_limit() {
    let options = CodecOptions { recursion_limit: 3 };
    assert!(parse_document(&nested_arrays(3), &options).is_ok());
    assert_eq!(
        parse_document(&nested_arrays(4), &options).unwrap_err(),
        ErrorOf::RecursionLimitParsing
    );
    // Scalars do not count against the limit.
    let options = CodecOptions { recursion_limit: 0 };
    assert!(parse_document("7", &options).is_ok());
    assert_eq!(parse_document("[]", &options).unwrap_err(), ErrorOf::RecursionLimitParsing);
}
