use json_unix_time::json_crawl::{JsonPath, JsonPathPart};
use json_unix_time::order::{rank_texts, Rank};
use json_unix_time::path_order::{rank_parts, rank_paths};
use std::cmp::Ordering;

fn field(name: &str) -> JsonPathPart {
    JsonPathPart::Field(name.to_owned())
}

fn sample_paths() -> Vec<JsonPath> {
    vec![
        JsonPath(vec![]),
        JsonPath(vec![field("")]),
        JsonPath(vec![field("a")]),
        JsonPath(vec![field("a"), JsonPathPart::Index(1)]),
        JsonPath(vec![field("a"), JsonPathPart::Index(10)]),
        JsonPath(vec![field("a"), JsonPathPart::Index(2)]),
        JsonPath(vec![field("a"), field("b")]),
        JsonPath(vec![field("a"), field("b"), field("c")]),
        JsonPath(vec![field("ab")]),
        JsonPath(vec![field("b")]),
        JsonPath(vec![field("\u{e9}")]),
        JsonPath(vec![JsonPathPart::Index(0)]),
        JsonPath(vec![JsonPathPart::Index(1)]),
        JsonPath(vec![JsonPathPart::Index(1), field("a")]),
    ]
}

#[test]
fn text_is_subset_off() {
    let x = JsonPath(vec![
        JsonPathPart::Field("a".to_owned()),
        JsonPathPart::Field("b".to_owned()),
        JsonPathPart::Field("c".to_owned()),
    ]);
    let y = JsonPath(vec![
        JsonPathPart::Field("a".to_owned()),
        JsonPathPart::Field("b".to_owned()),
    ]);
    let z = JsonPath(vec![
        JsonPathPart::Field("a".to_owned()),
        JsonPathPart::Field("b".to_owned()),
        JsonPathPart::Index(13),
    ]);
    let w = JsonPath::new();

    assert!(y.is_prefix_of(&x));
    assert!(y.is_prefix_of(&z));
    assert!(!x.is_prefix_of(&y));
    assert!(!x.is_prefix_of(&z));
    assert!(!z.is_prefix_of(&x));
    assert!(!z.is_prefix_of(&y));
    assert!(w.is_prefix_of(&w));
    for path in [&x, &y, &z] {
        assert!(path.is_prefix_of(path));
        assert!(w.is_prefix_of(path));
        assert!(!path.is_prefix_of(&w));
    }
}

#[test]
fn new_path_is_empty() {
    assert_eq!(JsonPath::new(), JsonPath(vec![]));
    assert_eq!(JsonPath::new().0.len(), 0);
}

#[test]
fn append_adds_one_part_and_leaves_the_parent() {
    let parent = JsonPath(vec![field("a")]);
    let first = parent.append(JsonPathPart::Index(0));
    let second = parent.append(field("b"));
    assert_eq!(parent, JsonPath(vec![field("a")]));
    assert_eq!(first, JsonPath(vec![field("a"), JsonPathPart::Index(0)]));
    assert_eq!(second, JsonPath(vec![field("a"), field("b")]));
    assert!(parent.is_prefix_of(&first));
    assert!(!first.is_prefix_of(&parent));
    assert!(!first.is_prefix_of(&second));
}

#[test]
fn prefix_is_reflexive() {
    for path in sample_paths().iter() {
        assert!(path.is_prefix_of(path));
    }
}

#[test]
fn empty_path_is_a_prefix_of_every_path() {
    let empty = JsonPath::new();
    assert!(empty.is_prefix_of(&empty));
    for path in sample_paths().iter() {
        assert!(empty.is_prefix_of(path));
    }
}

#[test]
fn paths_that_are_prefixes_of_each_other_are_equal() {
    let paths = sample_paths();
    for p in paths.iter() {
        for q in paths.iter() {
            if p.is_prefix_of(q) && q.is_prefix_of(p) {
                assert_eq!(p, q);
            }
            if p != q {
                assert!(!(p.is_prefix_of(q) && q.is_prefix_of(p)));
            }
        }
    }
}

#[test]
fn prefix_tells_a_name_from_an_index_and_needs_every_part() {
    let name = JsonPath(vec![field("0")]);
    let index = JsonPath(vec![JsonPathPart::Index(0)]);
    assert!(!name.is_prefix_of(&index));
    assert!(!index.is_prefix_of(&name));
    let longer = JsonPath(vec![field("a"), field("b"), field("c")]);
    let other = JsonPath(vec![field("a"), field("x")]);
    assert!(!other.is_prefix_of(&longer));
}

#[test]
fn renders_member_access_notation() {
    let path = JsonPath(vec![field("a"), field("b"), JsonPathPart::Index(3), field("c")]);
    assert_eq!(path.to_display_string(), "a.b[3].c");
}

#[test]
fn renders_an_index_in_brackets_at_the_first_place_too() {
    let path = JsonPath::new().append(JsonPathPart::Index(0));
    assert_eq!(path, JsonPath(vec![JsonPathPart::Index(0)]));
    assert_eq!(path.to_display_string(), "[0]");
}

#[test]
fn renders_the_empty_path_as_nothing() {
    assert_eq!(JsonPath::new().to_display_string(), "");
}

#[test]
fn renders_every_digit_of_an_index() {
    let indices: [usize; 8] = [0, 7, 9, 10, 99, 100, 1234567890, usize::MAX];
    for index in indices {
        let path = JsonPath(vec![JsonPathPart::Index(index)]);
        assert_eq!(path.to_display_string(), format!("[{}]", index));
    }
    let path = JsonPath(vec![JsonPathPart::Index(3), JsonPathPart::Index(40), field("x"), field("")]);
    assert_eq!(path.to_display_string(), "[3][40].x.");
}

#[test]
fn renders_a_name_as_it_is() {
    let path = JsonPath(vec![field("a.b"), field("[1]"), field("\u{e9}t\u{e9}")]);
    assert_eq!(path.to_display_string(), "a.b.[1].\u{e9}t\u{e9}");
}

fn as_ordering(rank: Rank) -> Ordering {
    match rank {
        Rank::Before => Ordering::Less,
        Rank::Same => Ordering::Equal,
        Rank::After => Ordering::Greater,
    }
}

#[test]
fn texts_rank_as_strings_compare() {
    let texts = ["", "a", "ab", "abc", "b", "B", "\u{e9}", "\u{ffff}", "\u{10000}", "a\u{e9}", "z"];
    for a in texts {
        for b in texts {
            assert_eq!(as_ordering(rank_texts(a, b)), a.cmp(b));
        }
    }
    assert_eq!(rank_texts("a", "b"), Rank::Before);
    assert_eq!(rank_texts("b", "a"), Rank::After);
    assert_eq!(rank_texts("a", "a"), Rank::Same);
    assert_eq!(rank_texts("a", "ab"), Rank::Before);
}

#[test]
fn comparison_by_hand_agrees_with_total_comparison() {
    let parts = [
        field(""),
        field("a"),
        field("ab"),
        field("b"),
        field("\u{e9}"),
        field("\u{10000}"),
        field("\u{ffff}"),
        JsonPathPart::Index(0),
        JsonPathPart::Index(2),
        JsonPathPart::Index(10),
    ];
    for a in parts.iter() {
        for b in parts.iter() {
            assert_eq!(a.partial_cmp(b), Some(a.cmp(b)));
            assert_eq!(as_ordering(rank_parts(a, b)), a.cmp(b));
            assert_eq!(a == b, a.cmp(b) == Ordering::Equal);
        }
    }
    let paths = sample_paths();
    for a in paths.iter() {
        for b in paths.iter() {
            assert_eq!(a.partial_cmp(b), Some(a.cmp(b)));
            assert_eq!(as_ordering(rank_paths(a, b)), a.cmp(b));
            assert_eq!(a == b, a.cmp(b) == Ordering::Equal);
            assert_eq!(a < b, a.cmp(b) == Ordering::Less);
        }
    }
}

#[test]
fn a_name_comes_before_an_index_and_a_prefix_before_what_extends_it() {
    assert!(field("zzz") < JsonPathPart::Index(0));
    assert!(JsonPathPart::Index(2) < JsonPathPart::Index(10));
    assert!(field("a") < field("b"));
    assert!(JsonPath(vec![field("a")]) < JsonPath(vec![field("a"), JsonPathPart::Index(0)]));
    assert!(JsonPath(vec![]) < JsonPath(vec![field("")]));
}

#[test]
fn path_order_is_a_strict_total_order() {
    let paths = sample_paths();
    for p in paths.iter() {
        assert_eq!(rank_paths(p, p), Rank::Same);
        for q in paths.iter() {
            let forth = rank_paths(p, q);
            let back = rank_paths(q, p);
            match forth {
                Rank::Before => assert_eq!(back, Rank::After),
                Rank::Same => {
                    assert_eq!(back, Rank::Same);
                    assert_eq!(p, q);
                }
                Rank::After => assert_eq!(back, Rank::Before),
            }
            for r in paths.iter() {
                if forth == Rank::Before && rank_paths(q, r) == Rank::Before {
                    assert_eq!(rank_paths(p, r), Rank::Before);
                }
            }
        }
    }
}
