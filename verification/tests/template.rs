use logdrop::files::consume;
use logdrop::files::FormatParser;
use logdrop::files::ParserError;
use logdrop::files::ParserEvent;
use logdrop::files::TokenError;
use logdrop::json::Number;
use logdrop::Record;
use logdrop::RecordItem;

fn chars(s: &str) -> Vec<char> {
    s.chars().collect()
}

#[test]
fn parse_empty_path() {
    let mut parser = FormatParser::new(chars(""));
    assert_eq!(None, parser.next());
}

#[test]
fn parse_literal() {
    let mut parser = FormatParser::new(chars("file.log"));
    assert_eq!(Some(ParserEvent::Literal("file.log".to_string())), parser.next());
    assert_eq!(None, parser.next());
}

#[test]
fn parse_placeholder() {
    let mut parser = FormatParser::new(chars("{id}"));
    assert_eq!(Some(ParserEvent::Placeholder(vec!["id".to_string()])), parser.next());
    assert_eq!(None, parser.next());
}

#[test]
fn parse_placeholder_nested() {
    let mut parser = FormatParser::new(chars("{id/source}"));
    assert_eq!(
        Some(ParserEvent::Placeholder(vec!["id".to_string(), "source".to_string()])),
        parser.next()
    );
    assert_eq!(None, parser.next());
}

#[test]
fn parse_literal_placeholder() {
    let mut parser = FormatParser::new(chars("/directory/file.{log}"));
    assert_eq!(Some(ParserEvent::Literal("/directory/file.".to_string())), parser.next());
    assert_eq!(Some(ParserEvent::Placeholder(vec!["log".to_string()])), parser.next());
    assert_eq!(None, parser.next());
}

#[test]
fn parse_placeholder_literal() {
    let mut parser = FormatParser::new(chars("{directory}/file.log"));
    assert_eq!(Some(ParserEvent::Placeholder(vec!["directory".to_string()])), parser.next());
    assert_eq!(Some(ParserEvent::Literal("/file.log".to_string())), parser.next());
    assert_eq!(None, parser.next());
}

#[test]
fn parse_literal_placeholder_literal() {
    let mut parser = FormatParser::new(chars("/directory/{path}.log"));
    assert_eq!(Some(ParserEvent::Literal("/directory/".to_string())), parser.next());
    assert_eq!(Some(ParserEvent::Placeholder(vec!["path".to_string()])), parser.next());
    assert_eq!(Some(ParserEvent::Literal(".log".to_string())), parser.next());
    assert_eq!(None, parser.next());
}

#[test]
fn break_parser_on_eof_while_parsing_placeholder() {
    let mut parser = FormatParser::new(chars("/directory/{path"));
    assert_eq!(Some(ParserEvent::Literal("/directory/".to_string())), parser.next());
    assert_eq!(
        Some(ParserEvent::Error(ParserError::EOFWhileParsingPlaceholder)),
        parser.next()
    );
    assert_eq!(
        Some(ParserEvent::Error(ParserError::EOFWhileParsingPlaceholder)),
        parser.next()
    );
}

#[test]
fn literal_token() {
    let payload = Record::new();
    let token = ParserEvent::Literal("/directory".to_string());
    assert_eq!("/directory".to_string(), consume(&token, &payload).unwrap());
}

#[test]
fn placeholder_token_null() {
    let mut payload = Record::new();
    payload.insert("k1".to_string(), RecordItem::Null);
    let token = ParserEvent::Placeholder(vec!["k1".to_string()]);
    assert_eq!("null".to_string(), consume(&token, &payload).unwrap());
}

#[test]
fn placeholder_token_bool() {
    let mut payload = Record::new();
    payload.insert("k1".to_string(), RecordItem::Bool(true));
    payload.insert("k2".to_string(), RecordItem::Bool(false));

    let token = ParserEvent::Placeholder(vec!["k1".to_string()]);
    assert_eq!("true".to_string(), consume(&token, &payload).unwrap());

    let token = ParserEvent::Placeholder(vec!["k2".to_string()]);
    assert_eq!("false".to_string(), consume(&token, &payload).unwrap());
}

#[test]
fn placeholder_token_uint() {
    let mut payload = Record::new();
    payload.insert("k1".to_string(), RecordItem::Number(Number::from_u64(42)));
    let token = ParserEvent::Placeholder(vec!["k1".to_string()]);
    assert_eq!("42".to_string(), consume(&token, &payload).unwrap());
}

#[test]
fn placeholder_token_int() {
    let mut payload = Record::new();
    payload.insert(
        "k1".to_string(),
        RecordItem::Number(Number {
            negative: true,
            integer: 42,
            fraction: 0,
            fraction_len: 0,
            exponent_negative: false,
            exponent: 0,
        }),
    );
    let token = ParserEvent::Placeholder(vec!["k1".to_string()]);
    assert_eq!("-42".to_string(), consume(&token, &payload).unwrap());
}

#[test]
fn placeholder_token_float() {
    let mut payload = Record::new();
    payload.insert(
        "k1".to_string(),
        RecordItem::Number(Number {
            negative: false,
            integer: 3,
            fraction: 1415,
            fraction_len: 4,
            exponent_negative: false,
            exponent: 0,
        }),
    );
    let token = ParserEvent::Placeholder(vec!["k1".to_string()]);
    assert_eq!("3.1415".to_string(), consume(&token, &payload).unwrap());
}

#[test]
fn placeholder_token_string() {
    let mut payload = Record::new();
    payload.insert("k1".to_string(), RecordItem::String("v1".to_string()));
    let token = ParserEvent::Placeholder(vec!["k1".to_string()]);
    assert_eq!("v1".to_string(), consume(&token, &payload).unwrap());
}

#[test]
fn placeholder_token_fails_on_array_key() {
    let mut payload = Record::new();
    payload.insert("k1".to_string(), RecordItem::Array(Vec::new()));
    let token = ParserEvent::Placeholder(vec!["k1".to_string()]);
    assert_eq!(Err(TokenError::TypeMismatch), consume(&token, &payload));
}

#[test]
fn placeholder_token_fails_on_object_key() {
    let mut payload = Record::new();
    payload.insert("k1".to_string(), RecordItem::Object(Vec::new()));
    let token = ParserEvent::Placeholder(vec!["k1".to_string()]);
    assert_eq!(Err(TokenError::TypeMismatch), consume(&token, &payload));
}

#[test]
fn placeholder_token_fails_on_absent_key() {
    let payload = Record::new();
    let token = ParserEvent::Placeholder(vec!["k1".to_string()]);
    assert_eq!(
        Err(TokenError::KeyNotFound("k1".to_string())),
        consume(&token, &payload)
    );
}

#[test]
fn nested_placeholder_resolves_through_objects() {
    let mut inner = Vec::new();
    inner.push(("source".to_string(), RecordItem::String("v".to_string())));
    let mut payload = Record::new();
    payload.insert("id".to_string(), RecordItem::Object(inner));

    let mut parser = FormatParser::new(chars("{id/source}"));
    let token = parser.next().unwrap();
    assert_eq!("v".to_string(), consume(&token, &payload).unwrap());
}

#[test]
fn nested_placeholder_fails_on_missing_inner_key() {
    let mut payload = Record::new();
    payload.insert("id".to_string(), RecordItem::Object(Vec::new()));

    let mut parser = FormatParser::new(chars("{id/source}"));
    let token = parser.next().unwrap();
    assert_eq!(
        Err(TokenError::KeyNotFound("source".to_string())),
        consume(&token, &payload)
    );
}
