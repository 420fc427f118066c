use logdrop::json::Builder;
use logdrop::json::Error;
use logdrop::json::JsonEvent;
use logdrop::json::Number;
use logdrop::json::Parser;
use logdrop::json::ParserError;
use logdrop::json::Value;

fn chars(s: &str) -> Vec<char> {
    s.chars().collect()
}

fn to_f64(n: &Number) -> f64 {
    let mantissa = n.integer as f64 + (n.fraction as f64) / 10f64.powi(n.fraction_len as i32);
    let exp = if n.exponent_negative {
        -(n.exponent as i32)
    } else {
        n.exponent as i32
    };
    let value = mantissa * 10f64.powi(exp);
    if n.negative { -value } else { value }
}

#[test]
fn parse_null() {
    let mut parser = Parser::new(chars("null"));
    assert_eq!(Some(JsonEvent::NullValue), parser.next());
    assert_eq!(None, parser.next());
}

#[test]
fn build_null() {
    let mut builder = Builder::new(chars("null"));
    assert!(matches!(builder.next(), Some(Ok(Value::Null))));
    assert!(builder.next().is_none());
}

#[test]
fn parse_scalars_and_containers() {
    let mut parser = Parser::new(chars(r#"[null, true, false, 42.5, "string", [], {}]"#));
    assert_eq!(Some(JsonEvent::ArrayBegin), parser.next());
    assert_eq!(Some(JsonEvent::NullValue), parser.next());
    assert_eq!(Some(JsonEvent::BooleanValue(true)), parser.next());
    assert_eq!(Some(JsonEvent::BooleanValue(false)), parser.next());
    match parser.next() {
        Some(JsonEvent::NumberValue(n)) => assert_eq!(42.5, to_f64(&n)),
        other => panic!("expected a number event, got {:?}", other),
    }
    assert_eq!(Some(JsonEvent::StringValue("string".to_string())), parser.next());
    assert_eq!(Some(JsonEvent::ArrayBegin), parser.next());
    assert_eq!(Some(JsonEvent::ArrayEnd), parser.next());
    assert_eq!(Some(JsonEvent::ObjectBegin), parser.next());
    assert_eq!(Some(JsonEvent::ObjectEnd), parser.next());
    assert_eq!(Some(JsonEvent::ArrayEnd), parser.next());
    assert_eq!(None, parser.next());
}

#[test]
fn streamed_documents_come_back_in_order() {
    let mut builder = Builder::new(chars(r#"{}{}null true false 42 "s" 42.5 [true] {}"#));
    assert!(matches!(builder.next(), Some(Ok(Value::Object(o))) if o.is_empty()));
    assert!(matches!(builder.next(), Some(Ok(Value::Object(o))) if o.is_empty()));
    assert!(matches!(builder.next(), Some(Ok(Value::Null))));
    assert!(matches!(builder.next(), Some(Ok(Value::Bool(true)))));
    assert!(matches!(builder.next(), Some(Ok(Value::Bool(false)))));
    match builder.next() {
        Some(Ok(Value::Number(n))) => assert_eq!(42.0, to_f64(&n)),
        other => panic!("expected a number, got {:?}", other),
    }
    assert!(matches!(builder.next(), Some(Ok(Value::String(s))) if s == "s"));
    match builder.next() {
        Some(Ok(Value::Number(n))) => assert_eq!(42.5, to_f64(&n)),
        other => panic!("expected a number, got {:?}", other),
    }
    match builder.next() {
        Some(Ok(Value::List(items))) => {
            assert_eq!(1, items.len());
            assert!(matches!(items[0], Value::Bool(true)));
        },
        other => panic!("expected a list, got {:?}", other),
    }
    assert!(matches!(builder.next(), Some(Ok(Value::Object(o))) if o.is_empty()));
    assert!(builder.next().is_none());
}

#[test]
fn leading_zero_integer_is_a_syntax_error() {
    let mut parser = Parser::new(chars("01"));
    assert!(matches!(
        parser.next(),
        Some(JsonEvent::Error(ParserError::SyntaxError(_)))
    ));
    assert_eq!(
        Some(JsonEvent::Error(ParserError::BrokenParser)),
        parser.next()
    );
}

#[test]
fn negative_fraction_and_exponent_parse_exactly() {
    let mut parser = Parser::new(chars("-42.5"));
    match parser.next() {
        Some(JsonEvent::NumberValue(n)) => assert_eq!(-42.5, to_f64(&n)),
        other => panic!("expected a number, got {:?}", other),
    }

    let mut parser = Parser::new(chars("42e2"));
    match parser.next() {
        Some(JsonEvent::NumberValue(n)) => assert_eq!(4200.0, to_f64(&n)),
        other => panic!("expected a number, got {:?}", other),
    }
}

#[test]
fn unterminated_string_breaks_the_parser_for_good() {
    let mut parser = Parser::new(chars("[\""));
    assert_eq!(Some(JsonEvent::ArrayBegin), parser.next());
    assert_eq!(
        Some(JsonEvent::Error(ParserError::SyntaxError(Error::EOFWhileParsingString))),
        parser.next()
    );
    assert_eq!(
        Some(JsonEvent::Error(ParserError::BrokenParser)),
        parser.next()
    );
    assert_eq!(
        Some(JsonEvent::Error(ParserError::BrokenParser)),
        parser.next()
    );
}

#[test]
fn unterminated_object_key_names_the_key_diagnostic() {
    let mut parser = Parser::new(chars("{\"key"));
    assert_eq!(Some(JsonEvent::ObjectBegin), parser.next());
    assert_eq!(
        Some(JsonEvent::Error(ParserError::SyntaxError(Error::EOFWhileParsingObjectKey))),
        parser.next()
    );
}

#[test]
fn string_escapes_decode() {
    let mut parser = Parser::new(chars(r#""a\n\t\"\\Ab""#));
    assert_eq!(
        Some(JsonEvent::StringValue("a\n\t\"\\Ab".to_string())),
        parser.next()
    );
    assert_eq!(None, parser.next());
}

#[test]
fn lone_low_surrogate_is_rejected() {
    let mut parser = Parser::new(chars(r#""\udc00""#));
    assert_eq!(
        Some(JsonEvent::Error(ParserError::SyntaxError(
            Error::LoneLeadingSurrogateInHexEscape
        ))),
        parser.next()
    );
}

#[test]
fn invalid_escape_is_rejected() {
    let mut parser = Parser::new(chars(r#""escape\l""#));
    assert_eq!(
        Some(JsonEvent::Error(ParserError::SyntaxError(Error::InvalidEscape))),
        parser.next()
    );
}

#[test]
fn number_followed_by_junk_yields_the_number_then_an_error() {
    let mut parser = Parser::new(chars("42l"));
    match parser.next() {
        Some(JsonEvent::NumberValue(n)) => assert_eq!(42.0, to_f64(&n)),
        other => panic!("expected a number, got {:?}", other),
    }
    assert_eq!(
        Some(JsonEvent::Error(ParserError::SyntaxError(Error::ExpectedValue))),
        parser.next()
    );
    assert_eq!(
        Some(JsonEvent::Error(ParserError::BrokenParser)),
        parser.next()
    );
}

#[test]
fn array_missing_its_end_errors_inside() {
    let mut parser = Parser::new(chars("[null"));
    assert_eq!(Some(JsonEvent::ArrayBegin), parser.next());
    assert_eq!(Some(JsonEvent::NullValue), parser.next());
    assert_eq!(
        Some(JsonEvent::Error(ParserError::SyntaxError(Error::EOFWhileParsingArray))),
        parser.next()
    );
}

#[test]
fn object_needs_a_colon_after_its_key() {
    let mut parser = Parser::new(chars("{\"key\"."));
    assert_eq!(Some(JsonEvent::ObjectBegin), parser.next());
    assert_eq!(Some(JsonEvent::StringValue("key".to_string())), parser.next());
    assert_eq!(
        Some(JsonEvent::Error(ParserError::SyntaxError(Error::ExpectedColon))),
        parser.next()
    );
}

#[test]
fn nested_document_round_trips_structurally() {
    let raw = r#"{
        "a": 1.5,
        "b": [ true, "foo\nbar", { "c": {"d": null} } ]
    }"#;
    let mut builder = Builder::new(chars(raw));
    let doc = match builder.next() {
        Some(Ok(v)) => v,
        other => panic!("expected a document, got {:?}", other),
    };
    assert!(builder.next().is_none());

    let pairs = match doc {
        Value::Object(pairs) => pairs,
        other => panic!("expected an object, got {:?}", other),
    };
    assert_eq!(2, pairs.len());
    assert_eq!("a", pairs[0].0);
    match &pairs[0].1 {
        Value::Number(n) => assert_eq!(1.5, to_f64(n)),
        other => panic!("expected a number, got {:?}", other),
    }
    assert_eq!("b", pairs[1].0);
    let items = match &pairs[1].1 {
        Value::List(items) => items,
        other => panic!("expected a list, got {:?}", other),
    };
    assert_eq!(3, items.len());
    assert!(matches!(items[0], Value::Bool(true)));
    assert!(matches!(&items[1], Value::String(s) if s == "foo\nbar"));
    let inner = match &items[2] {
        Value::Object(inner) => inner,
        other => panic!("expected an object, got {:?}", other),
    };
    assert_eq!(1, inner.len());
    assert_eq!("c", inner[0].0);
    match &inner[0].1 {
        Value::Object(d) => {
            assert_eq!(1, d.len());
            assert_eq!("d", d[0].0);
            assert!(matches!(d[0].1, Value::Null));
        },
        other => panic!("expected an object, got {:?}", other),
    }
}

#[test]
fn value_find_looks_up_object_fields() {
    let mut builder = Builder::new(chars(r#"{"k1":"v1","k2":42}"#));
    let doc = match builder.next() {
        Some(Ok(v)) => v,
        other => panic!("expected a document, got {:?}", other),
    };
    assert!(matches!(doc.find("k1"), Some(Value::String(s)) if s == "v1"));
    assert!(doc.find("missing").is_none());
    assert!(Value::Null.find("k1").is_none());
}

#[test]
fn builder_reports_the_error_that_cut_a_document_short() {
    let mut builder = Builder::new(chars("[true,"));
    match builder.next() {
        Some(Err(ParserError::SyntaxError(Error::EOFWhileParsingArray))) => {},
        other => panic!("expected the array error, got {:?}", other),
    }
}

#[test]
fn streamed_documents_without_separators() {
    let mut parser = Parser::new(chars(r#"{}{}nulltruefalse42"string"42.5[true]{}"#));
    assert_eq!(Some(JsonEvent::ObjectBegin), parser.next());
    assert_eq!(Some(JsonEvent::ObjectEnd), parser.next());
    assert_eq!(Some(JsonEvent::ObjectBegin), parser.next());
    assert_eq!(Some(JsonEvent::ObjectEnd), parser.next());
    assert_eq!(Some(JsonEvent::NullValue), parser.next());
    assert_eq!(Some(JsonEvent::BooleanValue(true)), parser.next());
    assert_eq!(Some(JsonEvent::BooleanValue(false)), parser.next());
    match parser.next() {
        Some(JsonEvent::NumberValue(n)) => assert_eq!(42.0, to_f64(&n)),
        other => panic!("expected a number, got {:?}", other),
    }
    assert_eq!(Some(JsonEvent::StringValue("string".to_string())), parser.next());
    match parser.next() {
        Some(JsonEvent::NumberValue(n)) => assert_eq!(42.5, to_f64(&n)),
        other => panic!("expected a number, got {:?}", other),
    }
    assert_eq!(Some(JsonEvent::ArrayBegin), parser.next());
    assert_eq!(Some(JsonEvent::BooleanValue(true)), parser.next());
    assert_eq!(Some(JsonEvent::ArrayEnd), parser.next());
    assert_eq!(Some(JsonEvent::ObjectBegin), parser.next());
    assert_eq!(Some(JsonEvent::ObjectEnd), parser.next());
    assert_eq!(None, parser.next());
}

#[test]
fn zero_and_fractions_parse_exactly() {
    let mut parser = Parser::new(chars("0"));
    match parser.next() {
        Some(JsonEvent::NumberValue(n)) => assert_eq!(0.0, to_f64(&n)),
        other => panic!("expected a number, got {:?}", other),
    }

    let mut parser = Parser::new(chars("0.5"));
    match parser.next() {
        Some(JsonEvent::NumberValue(n)) => {
            assert_eq!(0.5, to_f64(&n));
            assert_eq!(1, n.fraction_len);
        },
        other => panic!("expected a number, got {:?}", other),
    }

    let mut parser = Parser::new(chars("1e-2"));
    match parser.next() {
        Some(JsonEvent::NumberValue(n)) => {
            assert!(n.exponent_negative);
            assert_eq!(0.01, to_f64(&n));
        },
        other => panic!("expected a number, got {:?}", other),
    }
}

#[test]
fn dot_without_digits_is_a_syntax_error() {
    let mut parser = Parser::new(chars("4."));
    assert!(matches!(
        parser.next(),
        Some(JsonEvent::Error(ParserError::SyntaxError(_)))
    ));
}

#[test]
fn hex_escape_decodes_to_its_character() {
    let mut parser = Parser::new(chars(r#""\u0041""#));
    assert_eq!(Some(JsonEvent::StringValue("A".to_string())), parser.next());
    assert_eq!(None, parser.next());
}
