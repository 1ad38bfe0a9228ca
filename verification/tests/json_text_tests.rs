//! Serializing and parsing JSON text.
use jsrmx::parse::ParseError;
use jsrmx::Json;

fn s(text: &str) -> String {
    text.to_string()
}

#[test]
fn compact_text_of_a_document() {
    let v = Json::Obj(vec![
        (s("name"), Json::Str(s("alpha"))),
        (
            s("letter"),
            Json::Obj(vec![
                (s("uppercase"), Json::Str(s("A"))),
                (s("lowercase"), Json::Str(s("a"))),
            ]),
        ),
        (s("position"), Json::Num(1)),
    ]);
    assert_eq!(
        v.to_text(),
        "{\"name\":\"alpha\",\"letter\":{\"uppercase\":\"A\",\"lowercase\":\"a\"},\"position\":1}"
    );
}

#[test]
fn compact_text_of_scalars() {
    assert_eq!(Json::Null.to_text(), "null");
    assert_eq!(Json::Bool(true).to_text(), "true");
    assert_eq!(Json::Bool(false).to_text(), "false");
    assert_eq!(Json::Num(0).to_text(), "0");
    assert_eq!(Json::Num(-42).to_text(), "-42");
    assert_eq!(Json::Num(i64::MAX).to_text(), "9223372036854775807");
    assert_eq!(Json::Num(i64::MIN).to_text(), "-9223372036854775808");
    assert_eq!(Json::Str(s("hi")).to_text(), "\"hi\"");
    assert_eq!(Json::Arr(vec![]).to_text(), "[]");
    assert_eq!(Json::Obj(vec![]).to_text(), "{}");
}

#[test]
fn string_escapes_in_text() {
    let v = Json::Str(s("a\"b\\c\nd\te\r"));
    assert_eq!(v.to_text(), "\"a\\\"b\\\\c\\nd\\te\\r\"");
}

#[test]
fn parses_a_document() {
    let parsed = Json::from_text("{\"a\": [1, -2, null], \"b\": {\"c\": \"x\"}}").unwrap();
    assert_eq!(
        parsed,
        Json::Obj(vec![
            (
                s("a"),
                Json::Arr(vec![Json::Num(1), Json::Num(-2), Json::Null])
            ),
            (s("b"), Json::Obj(vec![(s("c"), Json::Str(s("x")))])),
        ])
    );
}

#[test]
fn parses_with_whitespace_around() {
    let parsed = Json::from_text("  \n\t{ \"a\" : true }\r\n").unwrap();
    assert_eq!(parsed, Json::Obj(vec![(s("a"), Json::Bool(true))]));
}

#[test]
fn parse_round_trip_rebuilds_the_value() {
    let v = Json::Obj(vec![
        (s("name"), Json::Str(s("say \"hi\"\n"))),
        (s("items"), Json::Arr(vec![Json::Num(7), Json::Bool(false)])),
        (s("empty"), Json::Obj(vec![])),
    ]);
    let text = v.to_text();
    let back = Json::from_text(&text).unwrap();
    assert_eq!(back, v);
}

#[test]
fn empty_input_ends_unexpectedly() {
    assert_eq!(Json::from_text(""), Err(ParseError::UnexpectedEnd));
    assert_eq!(Json::from_text("   \n"), Err(ParseError::UnexpectedEnd));
}

#[test]
fn truncated_input_ends_unexpectedly() {
    assert_eq!(
        Json::from_text("{\"a\": [1, 2"),
        Err(ParseError::UnexpectedEnd)
    );
    assert_eq!(Json::from_text("\"abc"), Err(ParseError::UnexpectedEnd));
}

#[test]
fn malformed_input_is_bad() {
    assert_eq!(Json::from_text("nope"), Err(ParseError::Bad));
    assert_eq!(Json::from_text("{a: 1}"), Err(ParseError::Bad));
    assert_eq!(Json::from_text("01"), Err(ParseError::Bad));
    assert_eq!(Json::from_text("1.5"), Err(ParseError::Bad));
    assert_eq!(Json::from_text("{} {}"), Err(ParseError::Bad));
}

#[test]
fn numbers_at_the_machine_bounds() {
    assert_eq!(
        Json::from_text("9223372036854775807").unwrap(),
        Json::Num(i64::MAX)
    );
    assert_eq!(
        Json::from_text("-9223372036854775808").unwrap(),
        Json::Num(i64::MIN)
    );
    assert_eq!(Json::from_text("9223372036854775808"), Err(ParseError::Bad));
    assert_eq!(
        Json::from_text("-9223372036854775809"),
        Err(ParseError::Bad)
    );
}

#[test]
fn pretty_text_of_a_document() {
    let v = Json::Obj(vec![
        (s("a"), Json::Num(1)),
        (s("b"), Json::Arr(vec![Json::Num(2), Json::Num(3)])),
    ]);
    assert_eq!(
        v.to_text_pretty(),
        "{\n  \"a\": 1,\n  \"b\": [\n    2,\n    3\n  ]\n}"
    );
}

#[test]
fn pretty_text_parses_back() {
    let v = Json::Obj(vec![
        (s("name"), Json::Str(s("alpha"))),
        (s("list"), Json::Arr(vec![Json::Null, Json::Bool(true)])),
    ]);
    let expected = Json::Obj(vec![
        (s("name"), Json::Str(s("alpha"))),
        (s("list"), Json::Arr(vec![Json::Null, Json::Bool(true)])),
    ]);
    let back = Json::from_text(&v.to_text_pretty()).unwrap();
    assert_eq!(back, expected);
}

#[test]
fn deep_clone_copies_the_tree() {
    let v = Json::Obj(vec![(s("a"), Json::Arr(vec![Json::Num(1)]))]);
    let w = v.deep_clone();
    assert_eq!(v, w);
}
