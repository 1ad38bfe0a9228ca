//! Reading directory listings, sorting, and source/sink selection.
use jsrmx::io::{
    file_stem, json_files, read_entries, sort_entries, str_lex_leq, EntrySource,
    JsonAppendableOutput, JsonReaderInput, JsonSource, JsonSourceInput, JsonWritableOutput,
};
use jsrmx::pointer::{dots_to_slashes, pointer_segments, str_at};
use jsrmx::Json;

fn s(text: &str) -> String {
    text.to_string()
}

#[test]
fn read_entries_parses_and_names_files() {
    let files = vec![
        (s("bravo.json"), s("{\"position\":2}")),
        (s("alpha.json"), s("{\"position\":1}")),
    ];
    let entries = read_entries(files, false);
    assert_eq!(
        entries,
        vec![
            (s("bravo"), Json::Obj(vec![(s("position"), Json::Num(2))])),
            (s("alpha"), Json::Obj(vec![(s("position"), Json::Num(1))])),
        ]
    );
}

#[test]
fn read_entries_sorts_when_asked() {
    let files = vec![
        (s("bravo.json"), s("2")),
        (s("alpha.json"), s("1")),
        (s("charlie.json"), s("3")),
    ];
    let entries = read_entries(files, true);
    assert_eq!(
        entries,
        vec![
            (s("alpha"), Json::Num(1)),
            (s("bravo"), Json::Num(2)),
            (s("charlie"), Json::Num(3)),
        ]
    );
}

#[test]
fn read_entries_passes_over_files_that_do_not_parse() {
    let files = vec![
        (s("good.json"), s("{\"a\":1}")),
        (s("bad.json"), s("not json")),
        (s("empty.json"), s("")),
    ];
    let entries = read_entries(files, false);
    assert_eq!(
        entries,
        vec![(s("good"), Json::Obj(vec![(s("a"), Json::Num(1))]))]
    );
}

#[test]
fn file_stem_drops_the_last_extension() {
    assert_eq!(file_stem("alpha.json"), s("alpha"));
    assert_eq!(file_stem("alpha.tar.json"), s("alpha.tar"));
    assert_eq!(file_stem("noext"), s("noext"));
    assert_eq!(file_stem(""), s(""));
}

#[test]
fn lexicographic_order_on_names() {
    assert!(str_lex_leq("a", "ab"));
    assert!(str_lex_leq("ab", "b"));
    assert!(!str_lex_leq("b", "ab"));
    assert!(str_lex_leq("", "a"));
    assert!(str_lex_leq("same", "same"));
}

#[test]
fn sort_entries_orders_by_name() {
    let entries = vec![
        (s("delta"), Json::Num(4)),
        (s("alpha"), Json::Num(1)),
        (s("charlie"), Json::Num(3)),
        (s("bravo"), Json::Num(2)),
    ];
    let sorted = sort_entries(entries);
    let names: Vec<String> = sorted.iter().map(|(n, _)| n.clone()).collect();
    assert_eq!(names, vec![s("alpha"), s("bravo"), s("charlie"), s("delta")]);
}

#[test]
fn scenario_directory_round_trip() {
    // Write entries as a directory would hold them, then read them back.
    let entries = vec![
        (s("alpha"), Json::Obj(vec![(s("position"), Json::Num(1))])),
        (s("bravo"), Json::Arr(vec![Json::Str(s("b"))])),
    ];
    let files: Vec<(String, String)> = entries
        .iter()
        .map(|(name, v)| (name.clone() + ".json", v.to_text()))
        .collect();
    let back = read_entries(files, false);
    assert_eq!(back, entries);
}

#[test]
fn entry_source_hands_entries_back() {
    let source = EntrySource::new(vec![
        (s("b"), Json::Num(2)),
        (s("a"), Json::Num(1)),
    ]);
    let plain = source.get_entries(false);
    assert_eq!(plain, vec![(s("b"), Json::Num(2)), (s("a"), Json::Num(1))]);
    let sorted = source.get_entries(true);
    assert_eq!(sorted, vec![(s("a"), Json::Num(1)), (s("b"), Json::Num(2))]);
}

#[test]
fn source_selection_by_argument() {
    assert!(matches!(
        JsonSourceInput::select("-", false),
        Ok(JsonSourceInput::Stdin)
    ));
    match JsonSourceInput::select("data", true) {
        Ok(JsonSourceInput::Directory(p)) => assert_eq!(p, s("data")),
        other => panic!("unexpected selection: {:?}", other),
    }
    assert!(JsonSourceInput::select("file.json", false).is_err());
}

#[test]
fn reader_selection_by_argument() {
    assert!(matches!(
        JsonReaderInput::select("-", false),
        Ok(JsonReaderInput::Stdin)
    ));
    match JsonReaderInput::select("in.ndjson", false) {
        Ok(JsonReaderInput::File(p)) => assert_eq!(p, s("in.ndjson")),
        other => panic!("unexpected selection: {:?}", other),
    }
    assert!(JsonReaderInput::select("somedir", true).is_err());
}

#[test]
fn appendable_output_selection_by_argument() {
    assert!(matches!(
        JsonAppendableOutput::select("-", false, false),
        Ok(JsonAppendableOutput::Stream)
    ));
    match JsonAppendableOutput::select("out.ndjson", false, true) {
        Ok(JsonAppendableOutput::File(p)) => assert_eq!(p, s("out.ndjson")),
        other => panic!("unexpected selection: {:?}", other),
    }
    assert!(JsonAppendableOutput::select("somedir", true, false).is_err());
    assert!(JsonAppendableOutput::select("noext", false, false).is_err());
}

#[test]
fn writable_output_selection_by_argument() {
    assert!(matches!(
        JsonWritableOutput::select("-", false, false),
        Ok(JsonWritableOutput::Stream)
    ));
    match JsonWritableOutput::select("outdir", false, false) {
        Ok(JsonWritableOutput::Directory(p)) => assert_eq!(p, s("outdir")),
        other => panic!("unexpected selection: {:?}", other),
    }
    match JsonWritableOutput::select("out.json", false, true) {
        Ok(JsonWritableOutput::File(p)) => assert_eq!(p, s("out.json")),
        other => panic!("unexpected selection: {:?}", other),
    }
}

#[test]
fn dotted_paths_become_pointers() {
    assert_eq!(dots_to_slashes("meta.id"), s("/meta/id"));
    assert_eq!(dots_to_slashes("name"), s("/name"));
    assert_eq!(dots_to_slashes(""), s("/"));
    assert_eq!(
        pointer_segments("/meta/id"),
        vec![s("meta"), s("id")]
    );
    assert_eq!(pointer_segments("/name"), vec![s("name")]);
}

#[test]
fn string_lookup_follows_the_path() {
    let v = Json::Obj(vec![(
        s("meta"),
        Json::Obj(vec![(s("id"), Json::Str(s("alpha")))]),
    )]);
    let segs = vec![s("meta"), s("id")];
    assert_eq!(str_at(&v, &segs, 0), Some(s("alpha")));
    let missing = vec![s("meta"), s("nope")];
    assert_eq!(str_at(&v, &missing, 0), None);
    let not_a_string = vec![s("meta")];
    assert_eq!(str_at(&v, &not_a_string, 0), None);
}

#[test]
fn json_files_keeps_only_the_json_extension() {
    let files = vec![
        (s("alpha.json"), s("1")),
        (s("notes.txt"), s("x")),
        (s("bravo.json"), s("2")),
        (s("json"), s("y")),
    ];
    let kept = json_files(files);
    assert_eq!(kept, vec![(s("alpha.json"), s("1")), (s("bravo.json"), s("2"))]);
}

#[test]
fn object_test_tells_objects_apart() {
    assert!(Json::Obj(vec![]).is_object());
    assert!(!Json::Arr(vec![]).is_object());
    assert!(!Json::Null.is_object());
}

#[test]
fn scenario_directory_round_trip_pretty() {
    // The same round trip when the directory holds pretty-printed files.
    let entries = vec![
        (s("alpha"), Json::Obj(vec![(s("position"), Json::Num(1))])),
        (s("bravo"), Json::Arr(vec![Json::Str(s("b")), Json::Null])),
    ];
    let files: Vec<(String, String)> = entries
        .iter()
        .map(|(name, v)| (name.clone() + ".json", v.render(true)))
        .collect();
    let back = read_entries(files, false);
    assert_eq!(back, entries);
}
