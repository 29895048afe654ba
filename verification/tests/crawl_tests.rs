use json_unix_time::json_crawl::{crawl, crawl_json, JsonPath, JsonPathPart};
use json_unix_time::json_value::{parse_json, JsonValue};

fn rendered(out: &[(JsonPath, i64)]) -> Vec<(String, i64)> {
    out.iter().map(|(path, value)| (path.to_display_string(), *value)).collect()
}

fn crawl_all(text: &str) -> Vec<(String, i64)> {
    let value = parse_json(text).unwrap();
    let mut out = vec![];
    crawl_json(&value, JsonPath::new(), &|_| true, &mut out);
    rendered(&out)
}

fn field(name: &str) -> JsonPathPart {
    JsonPathPart::Field(name.to_owned())
}

#[test]
fn json_crawl_test() {
    let data = r#"
        {
            "name": "John Doe",
            "age": 43,
            "phones": [
                123,
                456
                ],
                "nested": {
                    "num": -13.4,
                    "more_num": 12,
                    "list": [
                        1,
                        "a"
                        ]
                    },
                    "obj_list": [
                        {"a": 1, "b": 2},
                        {"a": 10, "b": "1"}
                        ]
                    }"#;
    let value = parse_json(data).unwrap();
    let mut out = vec![];
    let predicate = |num| num > 8;
    crawl_json(&value, JsonPath::new(), &predicate, &mut out);
    assert_eq!(
        rendered(&out),
        vec![
            ("age".to_owned(), 43),
            ("phones[0]".to_owned(), 123),
            ("phones[1]".to_owned(), 456),
            ("nested.more_num".to_owned(), 12),
            ("obj_list[1].a".to_owned(), 10),
        ]
    );
}

#[test]
fn crawl_finds_timestamps_in_document_order() {
    let value = parse_json(r#"{"a": 1678912200, "b": [1, 1678967840], "c": {"d": null}}"#).unwrap();
    let mut out = vec![];
    let predicate = |ts: i64| 1577836800 <= ts && ts <= 1735689600;
    crawl_json(&value, JsonPath::new(), &predicate, &mut out);
    assert_eq!(out.len(), 2);
    assert_eq!(out[0], (JsonPath(vec![field("a")]), 1678912200));
    assert_eq!(out[1], (JsonPath(vec![field("b"), JsonPathPart::Index(1)]), 1678967840));
    assert_eq!(rendered(&out), vec![("a".to_owned(), 1678912200), ("b[1]".to_owned(), 1678967840)]);
}

#[test]
fn crawl_of_a_tree_built_by_hand() {
    let value = JsonValue::Object(vec![
        ("a".to_owned(), JsonValue::Number(Some(1678912200))),
        (
            "b".to_owned(),
            JsonValue::Array(vec![JsonValue::Number(Some(1)), JsonValue::Number(Some(1678967840))]),
        ),
        ("c".to_owned(), JsonValue::Object(vec![("d".to_owned(), JsonValue::Null)])),
    ]);
    let mut out = vec![];
    let predicate = |ts: i64| 1577836800 <= ts && ts <= 1735689600;
    crawl_json(&value, JsonPath::new(), &predicate, &mut out);
    assert_eq!(rendered(&out), vec![("a".to_owned(), 1678912200), ("b[1]".to_owned(), 1678967840)]);
}

#[test]
fn crawl_keeps_what_the_list_held_and_starts_from_the_given_path() {
    let value = parse_json("[5, [6], {\"k\": 7}]").unwrap();
    let kept = (JsonPath(vec![field("kept")]), -1);
    let mut out = vec![kept];
    crawl_json(&value, JsonPath(vec![field("root"), JsonPathPart::Index(2)]), &|_| true, &mut out);
    assert_eq!(
        rendered(&out),
        vec![
            ("kept".to_owned(), -1),
            ("root[2][0]".to_owned(), 5),
            ("root[2][1][0]".to_owned(), 6),
            ("root[2][2].k".to_owned(), 7),
        ]
    );
}

#[test]
fn crawl_matches_the_root_itself() {
    assert_eq!(crawl_all("42"), vec![("".to_owned(), 42)]);
    assert_eq!(crawl_all("-42"), vec![("".to_owned(), -42)]);
}

#[test]
fn crawl_asks_the_predicate_about_integers_only() {
    let value = parse_json(r#"[1, "2", 3.5, true, null, {"x": 4}, [], {}]"#).unwrap();
    let asked = std::cell::RefCell::new(vec![]);
    let mut out = vec![];
    let predicate = |n: i64| {
        asked.borrow_mut().push(n);
        n % 2 == 0
    };
    crawl_json(&value, JsonPath::new(), &predicate, &mut out);
    assert_eq!(*asked.borrow(), vec![1, 4]);
    assert_eq!(rendered(&out), vec![("[5].x".to_owned(), 4)]);
}

#[test]
fn crawl_with_a_predicate_that_takes_nothing_finds_nothing() {
    let value = parse_json(r#"{"a": 1, "b": [2, 3]}"#).unwrap();
    let mut out = vec![];
    crawl_json(&value, JsonPath::new(), &|_| false, &mut out);
    assert!(out.is_empty());
}

#[test]
fn a_number_that_is_no_integer_is_never_matched() {
    assert_eq!(crawl_all("-13.4"), vec![]);
    assert_eq!(crawl_all("1.0"), vec![]);
    assert_eq!(crawl_all("1e3"), vec![]);
    assert_eq!(crawl_all("[0.5, 2, -0.0]"), vec![("[1]".to_owned(), 2)]);
    let mut out = vec![];
    crawl_json(&JsonValue::Number(None), JsonPath::new(), &|_| true, &mut out);
    assert!(out.is_empty());
}

#[test]
fn a_number_too_large_for_the_integers_is_never_matched() {
    assert_eq!(crawl_all("9223372036854775807"), vec![("".to_owned(), i64::MAX)]);
    assert_eq!(crawl_all("-9223372036854775808"), vec![("".to_owned(), i64::MIN)]);
    assert_eq!(crawl_all("9223372036854775808"), vec![]);
    assert_eq!(crawl_all("18446744073709551615"), vec![]);
    assert_eq!(crawl_all("18446744073709551616"), vec![]);
    assert_eq!(crawl_all("-9223372036854775809"), vec![]);
}

#[test]
fn nothing_but_numbers_is_matched() {
    assert_eq!(crawl_all("null"), vec![]);
    assert_eq!(crawl_all("true"), vec![]);
    assert_eq!(crawl_all("\"1678912200\""), vec![]);
    assert_eq!(crawl_all("[]"), vec![]);
    assert_eq!(crawl_all("{}"), vec![]);
    assert_eq!(crawl_all("[[], {}, [[]], {\"a\": {}}]"), vec![]);
}

#[test]
fn members_are_visited_in_the_order_of_the_document() {
    assert_eq!(
        crawl_all(r#"{"b": 1, "a": 2, "c": {"z": 3, "y": 4}}"#),
        vec![("b".to_owned(), 1), ("a".to_owned(), 2), ("c.z".to_owned(), 3), ("c.y".to_owned(), 4)]
    );
}

#[test]
fn a_name_given_twice_counts_once() {
    let value = parse_json(r#"{"a": 1, "b": 2, "a": 3}"#).unwrap();
    match &value {
        JsonValue::Object(members) => {
            let names: Vec<&str> = members.iter().map(|(name, _)| name.as_str()).collect();
            assert_eq!(names, vec!["a", "b"]);
        }
        _ => panic!("an object was expected"),
    }
    assert_eq!(crawl_all(r#"{"a": 1, "b": 2, "a": 3}"#), vec![("a".to_owned(), 3), ("b".to_owned(), 2)]);
}

#[test]
fn every_match_has_a_path_of_its_own() {
    let text = r#"{"a": [1, 1, {"a": 1, "b": [1]}], "b": {"a": [1, 1]}, "0": 1, "": 1}"#;
    let found = crawl_all(text);
    assert_eq!(found.len(), 8);
    for (i, (path, value)) in found.iter().enumerate() {
        assert_eq!(*value, 1);
        for (other, _) in found[i + 1..].iter() {
            assert_ne!(path, other);
        }
    }
}

#[test]
fn the_matches_are_the_accepted_integers_with_their_paths() {
    let value = JsonValue::Array(vec![
        JsonValue::Number(Some(10)),
        JsonValue::String("10".to_owned()),
        JsonValue::Object(vec![
            ("x".to_owned(), JsonValue::Number(Some(-10))),
            ("y".to_owned(), JsonValue::Number(None)),
            ("z".to_owned(), JsonValue::Array(vec![JsonValue::Bool(true), JsonValue::Number(Some(30))])),
        ]),
        JsonValue::Null,
        JsonValue::Number(Some(20)),
    ]);
    let mut out = vec![];
    crawl_json(&value, JsonPath::new(), &|n| n >= 10, &mut out);
    assert_eq!(
        out,
        vec![
            (JsonPath(vec![JsonPathPart::Index(0)]), 10),
            (JsonPath(vec![JsonPathPart::Index(2), field("z"), JsonPathPart::Index(1)]), 30),
            (JsonPath(vec![JsonPathPart::Index(4)]), 20),
        ]
    );
}

#[test]
fn a_deep_document_is_walked_without_deep_calls() {
    let depth = 10_000;
    let mut tree = JsonValue::Number(Some(7));
    for level in 0..depth {
        tree = if level % 2 == 0 {
            JsonValue::Array(vec![JsonValue::Null, tree])
        } else {
            JsonValue::Object(vec![("k".to_owned(), tree)])
        };
    }
    let mut out = vec![];
    crawl_json(&tree, JsonPath::new(), &|_| true, &mut out);
    assert_eq!(out.len(), 1);
    assert_eq!(out[0].1, 7);
    assert_eq!(out[0].0 .0.len(), depth);
    assert_eq!(out[0].0 .0[0], field("k"));
    assert_eq!(out[0].0 .0[depth - 1], JsonPathPart::Index(1));
    std::mem::forget(tree);
}

#[test]
fn a_text_nested_too_deeply_is_refused() {
    let shallow = format!("{}1{}", "[".repeat(100), "]".repeat(100));
    let found = crawl(&parse_json(&shallow).unwrap(), &|_| true);
    assert_eq!(found.len(), 1);
    assert_eq!(found[0].0 .0.len(), 100);
    let deep = format!("{}1{}", "[".repeat(200), "]".repeat(200));
    let error = parse_json(&deep).unwrap_err();
    assert!(error.message.starts_with("recursion limit exceeded"));
}

#[test]
fn a_text_that_is_no_document_is_refused_with_a_message() {
    for text in ["", "{", "[1,]", "{\"a\" 1}", "nul", "1 2", "{'a': 1}", "1e999"] {
        match parse_json(text) {
            Ok(_) => panic!("{:?} was read as a document", text),
            Err(error) => assert!(!error.message.is_empty()),
        }
    }
    let error = parse_json("[1,]").unwrap_err();
    assert_eq!(error.message, "trailing comma at line 1 column 4");
}

#[test]
fn crawling_a_document_starts_at_the_root_with_an_empty_list() {
    let value = parse_json(r#"{"a": 1678912200, "b": [1, 1678967840], "c": {"d": null}}"#).unwrap();
    let predicate = |ts: i64| 1577836800 <= ts && ts <= 1735689600;
    let out = crawl(&value, &predicate);
    assert_eq!(rendered(&out), vec![("a".to_owned(), 1678912200), ("b[1]".to_owned(), 1678967840)]);
    let mut other = vec![];
    crawl_json(&value, JsonPath::new(), &predicate, &mut other);
    assert_eq!(out, other);
    assert!(crawl(&JsonValue::Null, &|_| true).is_empty());
}

#[test]
fn a_document_is_read_into_a_tree_of_the_same_shape() {
    assert_eq!(parse_json("null"), Ok(JsonValue::Null));
    assert_eq!(parse_json(" false "), Ok(JsonValue::Bool(false)));
    assert_eq!(parse_json("17"), Ok(JsonValue::Number(Some(17))));
    assert_eq!(parse_json("17.5"), Ok(JsonValue::Number(None)));
    assert_eq!(parse_json("\"a\\nb\""), Ok(JsonValue::String("a\nb".to_owned())));
    assert_eq!(
        parse_json("[1, [], {}]"),
        Ok(JsonValue::Array(vec![
            JsonValue::Number(Some(1)),
            JsonValue::Array(vec![]),
            JsonValue::Object(vec![]),
        ]))
    );
    assert_eq!(
        parse_json(r#"{"b": {"c": 2}, "a": null}"#),
        Ok(JsonValue::Object(vec![
            ("b".to_owned(), JsonValue::Object(vec![("c".to_owned(), JsonValue::Number(Some(2)))])),
            ("a".to_owned(), JsonValue::Null),
        ]))
    );
    let tree = parse_json(r#"{"s": "text", "n": null, "t": true, "i": -5, "f": 2.5, "l": [1, "x"]}"#).unwrap();
    let text = format!("{:?}", tree);
    assert_eq!(
        text,
        "Object([(\"s\", String(\"text\")), (\"n\", Null), (\"t\", Bool(true)), (\"i\", Number(Some(-5))), \
         (\"f\", Number(None)), (\"l\", Array([Number(Some(1)), String(\"x\")]))])"
    );
}
