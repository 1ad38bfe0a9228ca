//! The field codec: escaping values to strings and back.
use jsrmx::codec::{escape_value, unescape_value, JsonField};
use jsrmx::Json;

fn s(text: &str) -> String {
    text.to_string()
}

#[test]
fn escape_embeds_a_value_as_text() {
    let v = Json::Obj(vec![(s("a"), Json::Num(1))]);
    let escaped = JsonField::from(v).escape();
    assert_eq!(escaped, Json::Str(s("{\"a\":1}")));
}

#[test]
fn escape_leaves_a_string_alone() {
    let v = Json::Str(s("hello"));
    let escaped = JsonField::from(v).escape();
    assert_eq!(escaped, Json::Str(s("hello")));
}

#[test]
fn unescape_extracts_the_embedded_value() {
    let v = Json::Str(s("{\"a\":1}"));
    let unescaped = JsonField::from(v).unescape();
    assert_eq!(unescaped, Json::Obj(vec![(s("a"), Json::Num(1))]));
}

#[test]
fn unescape_normalizes_escaped_quotes() {
    let v = Json::Str(s("{\\\"a\\\":1}"));
    let unescaped = JsonField::from(v).unescape();
    assert_eq!(unescaped, Json::Obj(vec![(s("a"), Json::Num(1))]));
}

#[test]
fn unescape_of_unparseable_text_is_null() {
    let v = Json::Str(s("not json"));
    let unescaped = JsonField::from(v).unescape();
    assert_eq!(unescaped, Json::Null);
}

#[test]
fn unescape_passes_a_non_string_through() {
    let v = Json::Arr(vec![Json::Num(1)]);
    let unescaped = JsonField::from(v).unescape();
    assert_eq!(unescaped, Json::Arr(vec![Json::Num(1)]));
}

#[test]
fn unescape_undoes_escape() {
    let v = Json::Obj(vec![
        (s("kind"), Json::Str(s("nested"))),
        (s("list"), Json::Arr(vec![Json::Num(1), Json::Num(2)])),
    ]);
    let expected = Json::Obj(vec![
        (s("kind"), Json::Str(s("nested"))),
        (s("list"), Json::Arr(vec![Json::Num(1), Json::Num(2)])),
    ]);
    let there = escape_value(v);
    assert!(matches!(there, Json::Str(_)));
    let back = unescape_value(there);
    assert_eq!(back, expected);
}

#[test]
fn unescape_undoes_escape_with_whitespace_in_strings() {
    let v = Json::Arr(vec![Json::Str(s("line one\nline two\ttabbed\r"))]);
    let expected = Json::Arr(vec![Json::Str(s("line one\nline two\ttabbed\r"))]);
    let back = unescape_value(escape_value(v));
    assert_eq!(back, expected);
}

#[test]
fn quote_normalization_breaks_the_round_trip_on_quoted_strings() {
    // A string holding a quote is the documented edge: its text carries a
    // `\"` sequence, which unescaping folds into a bare quote, so the
    // embedded text no longer parses.
    let v = Json::Obj(vec![(s("a"), Json::Str(s("say \"hi\"")))]);
    let back = unescape_value(escape_value(v));
    assert_eq!(back, Json::Null);
}
