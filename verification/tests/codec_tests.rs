use waybarconf::codec::{parse_text, strip_comments, to_text, ParseError};
use waybarconf::json::JsonValue;

fn t(s: &str) -> Vec<char> {
    s.chars().collect()
}

fn s(v: &Vec<char>) -> String {
    v.iter().collect()
}

fn parse_ok(text: &str) -> JsonValue {
    parse_text(&t(text)).expect("expected the text to parse")
}

#[test]
fn parse_scalars() {
    assert!(matches!(parse_ok("null"), JsonValue::Null));
    assert!(matches!(parse_ok("true"), JsonValue::Bool(true)));
    assert!(matches!(parse_ok("false"), JsonValue::Bool(false)));
    match parse_ok("  42 ") {
        JsonValue::Num(n) => assert_eq!(s(&n), "42"),
        _ => panic!("expected a number"),
    }
    match parse_ok("-3.5e2") {
        JsonValue::Num(n) => assert_eq!(s(&n), "-3.5e2"),
        _ => panic!("expected a number"),
    }
}

#[test]
fn parse_string_escapes() {
    match parse_ok("\"a\\nb\\t\\\"q\\\\\\/\"") {
        JsonValue::Str(v) => assert_eq!(s(&v), "a\nb\t\"q\\/"),
        _ => panic!("expected a string"),
    }
}

#[test]
fn parse_array_and_object() {
    match parse_ok("[1, \"two\", [true]]") {
        JsonValue::Arr(items) => {
            assert_eq!(items.len(), 3);
            assert!(matches!(items[2], JsonValue::Arr(_)));
        },
        _ => panic!("expected an array"),
    }
    match parse_ok("{\"a\": 1, \"b\": {\"c\": []}}") {
        JsonValue::Obj(entries) => {
            assert_eq!(entries.len(), 2);
            assert_eq!(s(&entries[0].0), "a");
            assert_eq!(s(&entries[1].0), "b");
        },
        _ => panic!("expected an object"),
    }
}

#[test]
fn parse_rejects_malformed() {
    assert!(matches!(parse_text(&t("")), Err(ParseError::Malformed)));
    assert!(matches!(parse_text(&t("{")), Err(ParseError::Malformed)));
    assert!(matches!(parse_text(&t("[1,]")), Err(ParseError::Malformed)));
    assert!(matches!(parse_text(&t("nul")), Err(ParseError::Malformed)));
    assert!(matches!(parse_text(&t("1 2")), Err(ParseError::Malformed)));
    assert!(matches!(parse_text(&t("\"unterminated")), Err(ParseError::Malformed)));
}

#[test]
fn print_then_parse_round_trip() {
    let texts = [
        "{\"modules-left\":[\"clock\",\"cpu\"],\"clock\":{\"format\":\"{:%H:%M}\"}}",
        "[null,true,false,12,\"x\"]",
        "{\"a\":{\"b\":{\"c\":[1,2,3]}}}",
        "\"line\\nbreak\"",
    ];
    for text in texts {
        let v = parse_ok(text);
        let printed = to_text(&v);
        assert_eq!(s(&printed), *text);
        let v2 = parse_text(&printed).expect("printed text must parse");
        let printed2 = to_text(&v2);
        assert_eq!(s(&printed), s(&printed2));
    }
}

#[test]
fn strip_comments_removes_both_kinds() {
    let input = "{\n  // a line comment\n  \"a\": 1, /* block */ \"b\": 2\n}";
    let stripped = strip_comments(&t(input));
    let v = parse_text(&stripped).expect("stripped text must parse");
    match v {
        JsonValue::Obj(entries) => assert_eq!(entries.len(), 2),
        _ => panic!("expected an object"),
    }
}

#[test]
fn strip_comments_keeps_strings() {
    let input = "{\"url\": \"http://x/y\", \"note\": \"/* not a comment */\"}";
    let stripped = strip_comments(&t(input));
    assert_eq!(s(&stripped), input);
}

#[test]
fn strip_comments_is_identity_on_plain_json() {
    let input = "{\"modules-left\": [\"custom/launcher\"]}";
    let stripped = strip_comments(&t(input));
    assert_eq!(s(&stripped), input);
}
