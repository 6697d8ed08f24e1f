use json_parser::parser::parse;
use json_parser::serialize::serialize;

#[test]
fn compact_text_of_a_document() {
    let v = parse(" { \"a\" : [ 1 , true , null , \"x\\ny\" ] , \"b\" : { } } ").unwrap();
    assert_eq!(serialize(&v), "{\"a\":[1,true,null,\"x\\ny\"],\"b\":{}}");
}

#[test]
fn quotes_and_backslashes_are_escaped() {
    let v = parse("\"say \\\"hi\\\" \\\\ \\/ \\t\"").unwrap();
    assert_eq!(serialize(&v), "\"say \\\"hi\\\" \\\\ / \\t\"");
}

#[test]
fn number_lexeme_is_written_back() {
    let v = parse("[-0.5e+10, 012, 3E2]").unwrap();
    assert_eq!(serialize(&v), "[-0.5e+10,012,3E2]");
}

#[test]
fn parse_of_written_text_is_the_same() {
    let inputs = [
        "{\"k\": [1, {\"z\": null}, \"\u{1}\"], \"a\": {\"a\":1, \"a\":2}}",
        "  [ \"\\b\\f\\r\\n\\t\\\"\\\\\" , -1.5e-3 , false ]  ",
        "{}",
        "\"\"",
    ];
    for text in inputs {
        let first = parse(text).unwrap();
        let written = serialize(&first);
        let second = parse(&written).unwrap();
        assert_eq!(format!("{:?}", first), format!("{:?}", second));
        assert_eq!(serialize(&second), written);
    }
}

#[test]
fn duplicate_keys_are_written_once() {
    let v = parse("{\"a\":1,\"b\":2,\"a\":3}").unwrap();
    assert_eq!(serialize(&v), "{\"a\":3,\"b\":2}");
}
