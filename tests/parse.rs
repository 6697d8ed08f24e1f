use json_parser::error::{ErrorKind, ParseError};
use json_parser::parser::parse;
use json_parser::value::Value;

fn err_kind(text: &str) -> ErrorKind {
    match parse(text) {
        Err(e) => e.kind,
        Ok(v) => panic!("parsed {:?}", v),
    }
}

fn number_of(v: &Value) -> f64 {
    match v {
        Value::Number(t) => t.parse::<f64>().unwrap(),
        other => panic!("not a number: {:?}", other),
    }
}

fn string_of(v: &Value) -> &str {
    match v {
        Value::Str(t) => t.as_str(),
        other => panic!("not a string: {:?}", other),
    }
}

#[test]
fn trailing_content_is_rejected() {
    assert_eq!(
        parse("{} garbage").unwrap_err(),
        ParseError { kind: ErrorKind::TrailingInput, offset: 3 }
    );
}

#[test]
fn trailing_whitespace_is_accepted() {
    assert!(parse("[1] \n\t\r").is_ok());
}

#[test]
fn newline_escape_is_decoded() {
    let v = parse("\"a\\nb\"").unwrap();
    assert_eq!(string_of(&v), "a\nb");
    assert_eq!(string_of(&v).chars().count(), 3);
}

#[test]
fn every_escape_is_decoded() {
    let v = parse("\"\\\"\\\\\\/\\b\\f\\n\\r\\t\"").unwrap();
    assert_eq!(string_of(&v), "\"\\/\u{8}\u{c}\n\r\t");
}

#[test]
fn non_ascii_text_is_kept() {
    let v = parse("\"h\u{e9}llo \u{1f600}\"").unwrap();
    assert_eq!(string_of(&v), "h\u{e9}llo \u{1f600}");
}

#[test]
fn empty_string() {
    let v = parse("\"\"").unwrap();
    assert_eq!(string_of(&v), "");
}

#[test]
fn number_with_fraction_and_exponent() {
    let v = parse("-0.5e+10").unwrap();
    match &v {
        Value::Number(t) => assert_eq!(t, "-0.5e+10"),
        other => panic!("not a number: {:?}", other),
    }
    assert_eq!(number_of(&v), -0.5e10);
}

#[test]
fn leading_zero_is_tolerated() {
    let v = parse("012").unwrap();
    assert_eq!(number_of(&v), 12.0);
}

#[test]
fn huge_number_is_not_an_error() {
    let v = parse("1e400").unwrap();
    assert_eq!(number_of(&v), f64::INFINITY);
}

#[test]
fn duplicate_key_keeps_last_value() {
    let v = parse("{\"a\":1,\"a\":2}").unwrap();
    match &v {
        Value::Object(fields) => {
            assert_eq!(fields.len(), 1);
            assert_eq!(fields[0].0, "a");
            assert_eq!(number_of(&fields[0].1), 2.0);
        }
        other => panic!("not an object: {:?}", other),
    }
}

#[test]
fn empty_object() {
    match parse("{}").unwrap() {
        Value::Object(fields) => assert!(fields.is_empty()),
        other => panic!("not an object: {:?}", other),
    }
}

#[test]
fn empty_array() {
    match parse("[]").unwrap() {
        Value::Array(items) => assert!(items.is_empty()),
        other => panic!("not an array: {:?}", other),
    }
}

#[test]
fn surrounding_whitespace_does_not_matter() {
    let a = format!("{:?}", parse("{}").unwrap());
    let b = format!("{:?}", parse(" {} ").unwrap());
    assert_eq!(a, b);
}

#[test]
fn nested_document() {
    let v = parse(" { \"k\" : [ true , false , null , \"x\" , { } ] , \"n\" : -3 } ").unwrap();
    match &v {
        Value::Object(fields) => {
            assert_eq!(fields.len(), 2);
            assert_eq!(fields[0].0, "k");
            match &fields[0].1 {
                Value::Array(items) => {
                    assert_eq!(items.len(), 5);
                    assert!(matches!(items[0], Value::Bool(true)));
                    assert!(matches!(items[1], Value::Bool(false)));
                    assert!(matches!(items[2], Value::Null));
                    assert_eq!(string_of(&items[3]), "x");
                    assert!(matches!(&items[4], Value::Object(f) if f.is_empty()));
                }
                other => panic!("not an array: {:?}", other),
            }
            assert_eq!(fields[1].0, "n");
            assert_eq!(number_of(&fields[1].1), -3.0);
        }
        other => panic!("not an object: {:?}", other),
    }
}

#[test]
fn missing_value_fails() {
    assert_eq!(err_kind("{\"a\":}"), ErrorKind::NoMatch);
}

#[test]
fn missing_closing_bracket_fails() {
    assert_eq!(err_kind("[1,2"), ErrorKind::InvalidArray);
}

#[test]
fn incomplete_literal_fails() {
    assert_eq!(
        parse("tru").unwrap_err(),
        ParseError { kind: ErrorKind::InvalidLiteral, offset: 0 }
    );
}

#[test]
fn unicode_escape_is_unsupported() {
    assert_eq!(
        parse("\"\\u0041\"").unwrap_err(),
        ParseError { kind: ErrorKind::InvalidString, offset: 1 }
    );
}

#[test]
fn unterminated_string_fails() {
    assert_eq!(
        parse("\"abc").unwrap_err(),
        ParseError { kind: ErrorKind::InvalidString, offset: 4 }
    );
}

#[test]
fn number_without_digits_fails() {
    assert_eq!(err_kind("-"), ErrorKind::InvalidNumber);
    assert_eq!(err_kind("1."), ErrorKind::InvalidNumber);
    assert_eq!(err_kind("1e+"), ErrorKind::InvalidNumber);
}

#[test]
fn object_errors() {
    assert_eq!(err_kind("{1:2}"), ErrorKind::InvalidObject);
    assert_eq!(err_kind("{\"a\" 2}"), ErrorKind::InvalidObject);
    assert_eq!(
        parse("{\"a\":1 \"b\":2}").unwrap_err(),
        ParseError { kind: ErrorKind::InvalidObject, offset: 7 }
    );
    assert_eq!(err_kind("{\"a\":1,}"), ErrorKind::InvalidObject);
}

#[test]
fn array_trailing_comma_fails() {
    assert_eq!(err_kind("[1,]"), ErrorKind::NoMatch);
}

#[test]
fn empty_input_fails() {
    assert_eq!(
        parse("  ").unwrap_err(),
        ParseError { kind: ErrorKind::NoMatch, offset: 2 }
    );
}

#[test]
fn error_message_names_the_kind() {
    assert_eq!(parse("{} x").unwrap_err().message(), "trailing input");
    assert_eq!(parse("[1").unwrap_err().message(), "expected array");
}
