use json_unix_time::arrange::{comes_before, reverse_matches, sort_matches, SortBy};
use json_unix_time::json_crawl::{JsonPath, JsonPathPart};

fn field(name: &str) -> JsonPathPart {
    JsonPathPart::Field(name.to_owned())
}

fn entry(parts: Vec<JsonPathPart>, ts: i64) -> (JsonPath, i64) {
    (JsonPath(parts), ts)
}

fn copy_of(list: &[(JsonPath, i64)]) -> Vec<(JsonPath, i64)> {
    list.iter().map(|(path, ts)| (JsonPath(path.0.clone()), *ts)).collect()
}

fn sample() -> Vec<(JsonPath, i64)> {
    vec![
        entry(vec![field("b")], 30),
        entry(vec![field("a"), JsonPathPart::Index(1)], 10),
        entry(vec![field("a"), JsonPathPart::Index(0)], 20),
        entry(vec![field("c")], 10),
        entry(vec![], 10),
        entry(vec![JsonPathPart::Index(3)], 5),
    ]
}

fn shown(list: &[(JsonPath, i64)]) -> Vec<(String, i64)> {
    list.iter().map(|(path, ts)| (path.to_display_string(), *ts)).collect()
}

#[test]
fn sorting_by_path_follows_the_order_of_paths() {
    let sorted = sort_matches(sample(), SortBy::Path);
    assert_eq!(
        shown(&sorted),
        vec![
            ("".to_owned(), 10),
            ("a[0]".to_owned(), 20),
            ("a[1]".to_owned(), 10),
            ("b".to_owned(), 30),
            ("c".to_owned(), 10),
            ("[3]".to_owned(), 5),
        ]
    );
}

#[test]
fn sorting_by_time_breaks_ties_by_path() {
    let sorted = sort_matches(sample(), SortBy::Time);
    assert_eq!(
        shown(&sorted),
        vec![
            ("[3]".to_owned(), 5),
            ("".to_owned(), 10),
            ("a[1]".to_owned(), 10),
            ("c".to_owned(), 10),
            ("a[0]".to_owned(), 20),
            ("b".to_owned(), 30),
        ]
    );
}

#[test]
fn sorting_by_path_keeps_matches_of_one_path_in_their_order() {
    let list = vec![
        entry(vec![field("a")], 3),
        entry(vec![field("b")], 9),
        entry(vec![field("a")], 1),
        entry(vec![field("b")], 8),
        entry(vec![field("a")], 2),
    ];
    let sorted = sort_matches(list, SortBy::Path);
    assert_eq!(
        shown(&sorted),
        vec![
            ("a".to_owned(), 3),
            ("a".to_owned(), 1),
            ("a".to_owned(), 2),
            ("b".to_owned(), 9),
            ("b".to_owned(), 8),
        ]
    );
}

#[test]
fn sorting_short_lists_changes_nothing() {
    assert!(sort_matches(vec![], SortBy::Time).is_empty());
    assert!(sort_matches(vec![], SortBy::Path).is_empty());
    let one = sort_matches(vec![entry(vec![field("a")], 1)], SortBy::Time);
    assert_eq!(shown(&one), vec![("a".to_owned(), 1)]);
}

#[test]
fn sorting_does_what_a_stable_sort_by_key_does() {
    let mut seed: u64 = 12345;
    let mut next = move || {
        seed = seed.wrapping_mul(6364136223846793005).wrapping_add(1442695040888963407);
        (seed >> 33) as usize
    };
    let names = ["", "a", "b", "ab", "z"];
    for round in 0..200 {
        let len = next() % 40;
        let mut list = vec![];
        for _ in 0..len {
            let mut parts = vec![];
            for _ in 0..next() % 4 {
                if next() % 2 == 0 {
                    parts.push(field(names[next() % names.len()]));
                } else {
                    parts.push(JsonPathPart::Index(next() % 3));
                }
            }
            list.push((JsonPath(parts), (next() % 5) as i64 - 2));
        }
        let by = if round % 2 == 0 { SortBy::Time } else { SortBy::Path };
        let mut expected = copy_of(&list);
        match by {
            SortBy::Time => expected.sort_by_key(|(path, ts)| (*ts, path.0.clone())),
            SortBy::Path => expected.sort_by_key(|(path, _)| path.0.clone()),
        }
        let sorted = sort_matches(list, by);
        assert_eq!(sorted, expected);
        for pair in sorted.windows(2) {
            assert!(!comes_before(&pair[1], &pair[0], by));
        }
        expected.reverse();
        assert_eq!(reverse_matches(sorted), expected);
    }
}

#[test]
fn reversing_turns_the_list_round() {
    assert!(reverse_matches(vec![]).is_empty());
    let reversed = reverse_matches(sample());
    assert_eq!(
        shown(&reversed),
        vec![
            ("[3]".to_owned(), 5),
            ("".to_owned(), 10),
            ("c".to_owned(), 10),
            ("a[0]".to_owned(), 20),
            ("a[1]".to_owned(), 10),
            ("b".to_owned(), 30),
        ]
    );
}

#[test]
fn matches_compare_by_time_then_path_or_by_path_alone() {
    let early = entry(vec![field("z")], 1);
    let late = entry(vec![field("a")], 2);
    assert!(comes_before(&early, &late, SortBy::Time));
    assert!(!comes_before(&late, &early, SortBy::Time));
    assert!(comes_before(&late, &early, SortBy::Path));
    assert!(!comes_before(&early, &late, SortBy::Path));
    let twin = entry(vec![field("z")], 2);
    assert!(comes_before(&late, &twin, SortBy::Time));
    assert!(!comes_before(&twin, &late, SortBy::Time));
    assert!(!comes_before(&early, &twin, SortBy::Path));
    assert!(!comes_before(&twin, &early, SortBy::Path));
    assert!(!comes_before(&early, &early, SortBy::Time));
    assert!(!comes_before(&early, &early, SortBy::Path));
}
