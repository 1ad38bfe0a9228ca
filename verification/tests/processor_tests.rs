//! Merging and splitting under name filters.
use jsrmx::processor::{merge, split};
use jsrmx::Json;

fn s(text: &str) -> String {
    text.to_string()
}

#[test]
fn test_merge_filtered() {
    let entries = vec![
        (s("a"), Json::Str(s("1"))),
        (s("b"), Json::Str(s("2"))),
        (s("c"), Json::Str(s("3"))),
    ];
    let filter = Some(s("b"));
    let result = merge(entries, filter);
    assert_eq!(result, Json::Obj(vec![(s("b"), Json::Str(s("2")))]));
}

#[test]
fn test_merge_unfiltered() {
    let entries = vec![
        (s("a"), Json::Str(s("1"))),
        (s("b"), Json::Str(s("2"))),
        (s("c"), Json::Str(s("3"))),
    ];
    let filter = None;
    let result = merge(entries, filter);
    assert_eq!(
        result,
        Json::Obj(vec![
            (s("a"), Json::Str(s("1"))),
            (s("b"), Json::Str(s("2"))),
            (s("c"), Json::Str(s("3"))),
        ])
    );
}

#[test]
fn test_split_filtered() {
    let entries = Json::Obj(vec![
        (s("a"), Json::Str(s("1"))),
        (s("b"), Json::Str(s("2"))),
        (s("c"), Json::Str(s("3"))),
    ]);
    let filter = Some(s("b"));
    let result = split(entries, filter);
    assert_eq!(result, vec![(s("b"), Json::Str(s("2")))]);
}

#[test]
fn test_split_unfiltered() {
    let entries = Json::Obj(vec![
        (s("a"), Json::Str(s("1"))),
        (s("b"), Json::Str(s("2"))),
        (s("c"), Json::Str(s("3"))),
    ]);
    let filter = None;
    let mut result = split(entries, filter);
    // Split's output order is not part of its contract, so sort to compare.
    result.sort_unstable_by_key(|(key, _)| key.clone());
    assert_eq!(
        result,
        vec![
            (s("a"), Json::Str(s("1"))),
            (s("b"), Json::Str(s("2"))),
            (s("c"), Json::Str(s("3"))),
        ]
    );
}

#[test]
fn merge_replaces_duplicate_names_in_place() {
    let entries = vec![
        (s("a"), Json::Num(1)),
        (s("b"), Json::Num(2)),
        (s("a"), Json::Num(3)),
    ];
    let result = merge(entries, None);
    assert_eq!(
        result,
        Json::Obj(vec![(s("a"), Json::Num(3)), (s("b"), Json::Num(2))])
    );
}

#[test]
fn merge_bad_pattern_fails_open() {
    let entries = vec![(s("a"), Json::Num(1)), (s("b"), Json::Num(2))];
    let result = merge(entries, Some(s("[")));
    assert_eq!(
        result,
        Json::Obj(vec![(s("a"), Json::Num(1)), (s("b"), Json::Num(2))])
    );
}

#[test]
fn merge_alternation_filter() {
    let entries = vec![
        (s("alpha"), Json::Num(1)),
        (s("bravo"), Json::Num(2)),
        (s("charlie"), Json::Num(3)),
    ];
    let result = merge(entries, Some(s("alpha|charlie")));
    assert_eq!(
        result,
        Json::Obj(vec![(s("alpha"), Json::Num(1)), (s("charlie"), Json::Num(3))])
    );
}

#[test]
fn split_then_merge_rebuilds_the_object() {
    let object = Json::Obj(vec![
        (s("alpha"), Json::Obj(vec![(s("position"), Json::Num(1))])),
        (s("bravo"), Json::Obj(vec![(s("position"), Json::Num(2))])),
    ]);
    let expected = Json::Obj(vec![
        (s("alpha"), Json::Obj(vec![(s("position"), Json::Num(1))])),
        (s("bravo"), Json::Obj(vec![(s("position"), Json::Num(2))])),
    ]);
    let rebuilt = merge(split(object, None), None);
    assert_eq!(rebuilt, expected);
}

#[test]
fn scenario_merge_two_files_with_filter() {
    let entries = vec![
        (s("alpha"), Json::Obj(vec![(s("position"), Json::Num(1))])),
        (s("bravo"), Json::Obj(vec![(s("position"), Json::Num(2))])),
    ];
    let merged = merge(entries, Some(s("alpha")));
    assert_eq!(
        merged,
        Json::Obj(vec![(
            s("alpha"),
            Json::Obj(vec![(s("position"), Json::Num(1))])
        )])
    );
}
