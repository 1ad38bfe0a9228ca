//! Bundling entries into rows and unbundling rows into entries.
use jsrmx::io::{Appendable, DirectoryOutput, EntrySource, InputStdin, StreamOutput, Writeable};
use jsrmx::ndjson::{NdjsonBundler, NdjsonUnbundler};
use jsrmx::Json;

fn s(text: &str) -> String {
    text.to_string()
}

fn letter(name: &str, upper: &str, lower: &str, position: i64) -> Json {
    Json::Obj(vec![
        (s("name"), Json::Str(s(name))),
        (
            s("letter"),
            Json::Obj(vec![
                (s("uppercase"), Json::Str(s(upper))),
                (s("lowercase"), Json::Str(s(lower))),
            ]),
        ),
        (s("position"), Json::Num(position)),
    ])
}

fn six_letters() -> Vec<(String, Json)> {
    vec![
        (s("alpha"), letter("alpha", "A", "a", 1)),
        (s("bravo"), letter("bravo", "B", "b", 2)),
        (s("charlie"), letter("charlie", "C", "c", 3)),
        (s("delta"), letter("delta", "D", "d", 4)),
        (s("echo"), letter("echo", "E", "e", 5)),
        (s("foxtrot"), letter("foxtrot", "F", "f", 6)),
    ]
}

#[test]
fn scenario_bundle_six_letters() {
    let source = EntrySource::new(six_letters());
    let sink = StreamOutput::new(false);
    let mut bundler = NdjsonBundler::new(source, sink);
    bundler.bundle(None).unwrap();

    let rows = bundler.output.rows();
    let expected: Vec<Json> = six_letters().into_iter().map(|(_, v)| v).collect();
    for wanted in &expected {
        assert!(
            rows.contains(wanted),
            "expected row not found in output: {:?}",
            wanted
        );
    }
    assert_eq!(
        rows.len(),
        expected.len(),
        "number of output rows doesn't match expected"
    );
}

#[test]
fn bundle_rows_are_single_lines() {
    let source = EntrySource::new(six_letters());
    let sink = StreamOutput::new(false);
    let mut bundler = NdjsonBundler::new(source, sink);
    bundler.bundle(None).unwrap();
    for row in bundler.output.rows() {
        let text = row.to_text();
        assert!(!text.contains('\n'));
        assert_eq!(Json::from_text(&text).unwrap(), *row);
    }
}

#[test]
fn bundle_escapes_the_named_field() {
    let source = EntrySource::new(vec![(s("alpha"), letter("alpha", "A", "a", 1))]);
    let sink = StreamOutput::new(false);
    let mut bundler = NdjsonBundler::new(source, sink);
    bundler.bundle(Some(vec![s("letter")])).unwrap();
    let rows = bundler.output.rows();
    assert_eq!(rows.len(), 1);
    assert_eq!(
        rows[0],
        Json::Obj(vec![
            (s("name"), Json::Str(s("alpha"))),
            (
                s("letter"),
                Json::Str(s("{\"uppercase\":\"A\",\"lowercase\":\"a\"}"))
            ),
            (s("position"), Json::Num(1)),
        ])
    );
}

fn three_rows() -> Vec<String> {
    vec![
        letter("alpha", "A", "a", 1).to_text() + "\n",
        letter("bravo", "B", "b", 2).to_text() + "\n",
        letter("charlie", "C", "c", 3).to_text() + "\n",
    ]
}

#[test]
fn scenario_unbundle_three_rows_with_name_path() {
    let reader = InputStdin::from_lines(three_rows());
    let sink = DirectoryOutput::new(s("out"), true);
    let mut unbundler = NdjsonUnbundler::new(reader, sink, None);
    unbundler.unbundle(Some(vec![s("name")]), None).unwrap();

    let written = unbundler.output.entries();
    assert_eq!(written.len(), 3);
    assert_eq!(written[0], (s("alpha"), letter("alpha", "A", "a", 1)));
    assert_eq!(written[1], (s("bravo"), letter("bravo", "B", "b", 2)));
    assert_eq!(written[2], (s("charlie"), letter("charlie", "C", "c", 3)));
}

#[test]
fn scenario_unbundle_three_rows_with_fallback_names() {
    let reader = InputStdin::from_lines(three_rows());
    let sink = DirectoryOutput::new(s("out"), true);
    let mut unbundler = NdjsonUnbundler::new(reader, sink, None);
    unbundler.unbundle(None, None).unwrap();

    let written = unbundler.output.entries();
    assert_eq!(written.len(), 3);
    assert_eq!(written[0].0, s("object-000000"));
    assert_eq!(written[1].0, s("object-000001"));
    assert_eq!(written[2].0, s("object-000002"));
    assert_eq!(written[0].1, letter("alpha", "A", "a", 1));
    assert_eq!(written[1].1, letter("bravo", "B", "b", 2));
    assert_eq!(written[2].1, letter("charlie", "C", "c", 3));
}

#[test]
fn unbundle_skips_bad_rows_but_keeps_counting() {
    let reader = InputStdin::from_lines(vec![
        s("{\"name\":\"alpha\"}\n"),
        s("not json at all\n"),
        s("{\"name\":\"charlie\"}\n"),
    ]);
    let sink = DirectoryOutput::new(s("out"), false);
    let mut unbundler = NdjsonUnbundler::new(reader, sink, None);
    unbundler.unbundle(None, None).unwrap();

    let written = unbundler.output.entries();
    assert_eq!(written.len(), 2);
    assert_eq!(written[0].0, s("object-000000"));
    assert_eq!(written[1].0, s("object-000002"));
}

#[test]
fn unbundle_stops_at_a_blank_line() {
    let reader = InputStdin::from_lines(vec![
        s("{\"name\":\"alpha\"}\n"),
        s("\n"),
        s("{\"name\":\"bravo\"}\n"),
    ]);
    let sink = DirectoryOutput::new(s("out"), false);
    let mut unbundler = NdjsonUnbundler::new(reader, sink, None);
    unbundler.unbundle(Some(vec![s("name")]), None).unwrap();

    let written = unbundler.output.entries();
    assert_eq!(written.len(), 1);
    assert_eq!(written[0].0, s("alpha"));
}

#[test]
fn unbundle_appends_the_type_suffix() {
    let reader = InputStdin::from_lines(vec![s(
        "{\"name\":\"alpha\",\"meta\":{\"kind\":\"letter\"}}\n",
    )]);
    let sink = DirectoryOutput::new(s("out"), false);
    let mut unbundler = NdjsonUnbundler::new(reader, sink, None);
    unbundler
        .unbundle(Some(vec![s("name")]), Some(s("meta.kind")))
        .unwrap();

    let written = unbundler.output.entries();
    assert_eq!(written.len(), 1);
    assert_eq!(written[0].0, s("alpha.letter"));
}

#[test]
fn unbundle_unescapes_the_named_field() {
    let reader = InputStdin::from_lines(vec![s(
        "{\"name\":\"alpha\",\"letter\":\"{\\\"uppercase\\\":\\\"A\\\",\\\"lowercase\\\":\\\"a\\\"}\"}\n",
    )]);
    let sink = DirectoryOutput::new(s("out"), false);
    let mut unbundler = NdjsonUnbundler::new(reader, sink, Some(vec![s("letter")]));
    unbundler.unbundle(Some(vec![s("name")]), None).unwrap();

    let written = unbundler.output.entries();
    assert_eq!(written.len(), 1);
    assert_eq!(
        written[0].1,
        Json::Obj(vec![
            (s("name"), Json::Str(s("alpha"))),
            (
                s("letter"),
                Json::Obj(vec![
                    (s("uppercase"), Json::Str(s("A"))),
                    (s("lowercase"), Json::Str(s("a"))),
                ])
            ),
        ])
    );
}

#[test]
fn bundle_then_unbundle_reproduces_the_objects() {
    let source = EntrySource::new(six_letters());
    let sink = StreamOutput::new(false);
    let mut bundler = NdjsonBundler::new(source, sink);
    bundler.bundle(None).unwrap();

    let lines: Vec<String> = bundler
        .output
        .rows()
        .iter()
        .map(|row| row.to_text() + "\n")
        .collect();
    let reader = InputStdin::from_lines(lines);
    let dir = DirectoryOutput::new(s("out"), false);
    let mut unbundler = NdjsonUnbundler::new(reader, dir, None);
    unbundler.unbundle(Some(vec![s("name")]), None).unwrap();

    let written = unbundler.output.entries();
    let expected = six_letters();
    assert_eq!(written.len(), expected.len());
    for (entry, wanted) in written.iter().zip(expected.iter()) {
        assert_eq!(entry.0, wanted.0);
        assert_eq!(entry.1, wanted.1);
    }
}

#[test]
fn directory_refuses_appended_rows_untouched() {
    let mut dir = DirectoryOutput::new(s("out"), false);
    dir.write_entries(vec![(s("alpha"), Json::Num(1))]).unwrap();
    let r = dir.append(Json::Null);
    assert!(r.is_err());
    // the refusal had no effect whatsoever
    assert_eq!(dir.entries(), &vec![(s("alpha"), Json::Num(1))]);
}

#[test]
fn bundle_to_a_directory_is_refused_before_any_work() {
    // Even with nothing to bundle, a directory sink is refused outright.
    let empty = EntrySource::new(vec![]);
    let mut bundler = NdjsonBundler::new(empty, DirectoryOutput::new(s("out"), false));
    assert!(bundler.bundle(None).is_err());
    assert!(bundler.output.entries().is_empty());

    let full = EntrySource::new(six_letters());
    let mut bundler = NdjsonBundler::new(full, DirectoryOutput::new(s("out"), false));
    assert!(bundler.bundle(None).is_err());
    assert!(bundler.output.entries().is_empty());
}
