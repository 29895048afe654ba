//! What holds of the matches of every document.

use crate::json_crawl::{child, child_count, child_matches, child_step, crawl_matches, Step};
use crate::json_value::JsonValue;
use vstd::prelude::*;

verus! {

/// The node that the steps `rel` lead to from `value` is a number that holds
/// the integer `n`.
pub open spec fn leaf_at(value: JsonValue, rel: Seq<Step>, n: i64) -> bool
    decreases rel.len(),
{
    if rel.len() == 0 {
        value == JsonValue::Number(Some(n))
    } else {
        exists|i: int|
            0 <= i < child_count(value) && #[trigger] child_step(value, i) == rel[0] && leaf_at(
                child(value, i),
                rel.drop_first(),
                n,
            )
    }
}

/// `entry` pairs an integer that `accepts` takes, held by a number at or below
/// `value`, with the path to that number when `value` sits at `path`.
pub open spec fn is_accepted_leaf(
    value: JsonValue,
    path: Seq<Step>,
    accepts: spec_fn(i64) -> bool,
    entry: (Seq<Step>, i64),
) -> bool {
    exists|rel: Seq<Step>|
        entry.0 == path + rel && #[trigger] leaf_at(value, rel, entry.1) && accepts(entry.1)
}

/// No two members of one object, at or below `value`, have the same name.
pub open spec fn names_distinct(value: JsonValue) -> bool
    decreases value,
{
    &&& forall|i: int, j: int|
        0 <= i < j < child_count(value) ==> child_step(value, i) != child_step(value, j)
    &&& forall|i: int| 0 <= i < child_count(value) ==> names_distinct(#[trigger] child(value, i))
}

/// An entry among the matches of a run of children is among the matches of
/// one child of the run.
proof fn lemma_child_matches_member(
    value: JsonValue,
    from: nat,
    to: nat,
    path: Seq<Step>,
    accepts: spec_fn(i64) -> bool,
    entry: (Seq<Step>, i64),
) -> (i: int)
    requires
        child_matches(value, from, to, path, accepts).contains(entry),
    ensures
        from <= i < to <= child_count(value),
        crawl_matches(child(value, i), path.push(child_step(value, i)), accepts).contains(entry),
    decreases to,
{
    let earlier = child_matches(value, from, (to - 1) as nat, path, accepts);
    let last = crawl_matches(child(value, to - 1), path.push(child_step(value, to - 1)), accepts);
    let k = choose|k: int|
        0 <= k < child_matches(value, from, to, path, accepts).len() && child_matches(
            value,
            from,
            to,
            path,
            accepts,
        )[k] == entry;
    if k < earlier.len() {
        assert(earlier[k] == entry);
        lemma_child_matches_member(value, from, (to - 1) as nat, path, accepts, entry)
    } else {
        assert(last[k - earlier.len()] == entry);
        to - 1
    }
}

/// The matches of a run of children hold the matches of each child of the run.
proof fn lemma_child_matches_holds(
    value: JsonValue,
    from: nat,
    to: nat,
    path: Seq<Step>,
    accepts: spec_fn(i64) -> bool,
    i: int,
    entry: (Seq<Step>, i64),
)
    requires
        from <= i < to <= child_count(value),
        crawl_matches(child(value, i), path.push(child_step(value, i)), accepts).contains(entry),
    ensures
        child_matches(value, from, to, path, accepts).contains(entry),
    decreases to,
{
    let earlier = child_matches(value, from, (to - 1) as nat, path, accepts);
    let last = crawl_matches(child(value, to - 1), path.push(child_step(value, to - 1)), accepts);
    if i == to - 1 {
        let k = choose|k: int| 0 <= k < last.len() && last[k] == entry;
        assert((earlier + last)[earlier.len() + k] == entry);
    } else {
        lemma_child_matches_holds(value, from, (to - 1) as nat, path, accepts, i, entry);
        let k = choose|k: int| 0 <= k < earlier.len() && earlier[k] == entry;
        assert((earlier + last)[k] == entry);
    }
}

/// Every match is an accepted leaf.
proof fn lemma_match_is_leaf(
    value: JsonValue,
    path: Seq<Step>,
    accepts: spec_fn(i64) -> bool,
    entry: (Seq<Step>, i64),
)
    requires
        crawl_matches(value, path, accepts).contains(entry),
    ensures
        is_accepted_leaf(value, path, accepts, entry),
    decreases value,
{
    if let JsonValue::Number(Some(_)) = value {
        let rel = Seq::<Step>::empty();
        assert(path + rel =~= path);
        assert(leaf_at(value, rel, entry.1));
    } else {
        let i = lemma_child_matches_member(value, 0, child_count(value), path, accepts, entry);
        let step = child_step(value, i);
        lemma_match_is_leaf(child(value, i), path.push(step), accepts, entry);
        let below = choose|rel: Seq<Step>|
            entry.0 == path.push(step) + rel && #[trigger] leaf_at(child(value, i), rel, entry.1)
                && accepts(entry.1);
        let rel = seq![step] + below;
        assert(path + rel =~= path.push(step) + below);
        assert(rel.drop_first() =~= below);
        assert(leaf_at(value, rel, entry.1));
    }
}

/// Every accepted leaf is a match.
proof fn lemma_leaf_is_match(
    value: JsonValue,
    path: Seq<Step>,
    accepts: spec_fn(i64) -> bool,
    rel: Seq<Step>,
    n: i64,
)
    requires
        leaf_at(value, rel, n),
        accepts(n),
    ensures
        crawl_matches(value, path, accepts).contains((path + rel, n)),
    decreases rel.len(),
{
    if rel.len() == 0 {
        assert(path + rel =~= path);
        assert(crawl_matches(value, path, accepts)[0] == (path, n));
    } else {
        let i = choose|i: int|
            0 <= i < child_count(value) && #[trigger] child_step(value, i) == rel[0] && leaf_at(
                child(value, i),
                rel.drop_first(),
                n,
            );
        lemma_leaf_is_match(child(value, i), path.push(rel[0]), accepts, rel.drop_first(), n);
        assert(path.push(rel[0]) + rel.drop_first() =~= path + rel);
        lemma_child_matches_holds(
            value,
            0,
            child_count(value),
            path,
            accepts,
            i,
            (path + rel, n),
        );
    }
}

/// The matches of a document are exactly its accepted leaves: each number
/// that holds an integer which `accepts` takes is among them, under the path
/// that leads to it, and nothing else is.
pub proof fn law_matches_are_the_accepted_leaves(
    value: JsonValue,
    path: Seq<Step>,
    accepts: spec_fn(i64) -> bool,
)
    ensures
        forall|entry: (Seq<Step>, i64)|
            crawl_matches(value, path, accepts).contains(entry) <==> is_accepted_leaf(
                value,
                path,
                accepts,
                entry,
            ),
{
    assert forall|entry: (Seq<Step>, i64)|
        crawl_matches(value, path, accepts).contains(entry) <==> is_accepted_leaf(
            value,
            path,
            accepts,
            entry,
        ) by {
        if crawl_matches(value, path, accepts).contains(entry) {
            lemma_match_is_leaf(value, path, accepts, entry);
        }
        if is_accepted_leaf(value, path, accepts, entry) {
            let rel = choose|rel: Seq<Step>|
                entry.0 == path + rel && #[trigger] leaf_at(value, rel, entry.1) && accepts(
                    entry.1,
                );
            lemma_leaf_is_match(value, path, accepts, rel, entry.1);
        }
    }
}

/// A number that holds no integer is never matched, whatever `accepts` takes.
pub proof fn law_other_numbers_never_match(path: Seq<Step>, accepts: spec_fn(i64) -> bool)
    ensures
        crawl_matches(JsonValue::Number(None), path, accepts) == Seq::<(Seq<Step>, i64)>::empty(),
{
}

/// The path of a match of a child goes through the step to that child.
proof fn lemma_match_goes_through(
    value: JsonValue,
    i: int,
    path: Seq<Step>,
    accepts: spec_fn(i64) -> bool,
    entry: (Seq<Step>, i64),
)
    requires
        crawl_matches(child(value, i), path.push(child_step(value, i)), accepts).contains(entry),
    ensures
        entry.0.len() > path.len(),
        entry.0[path.len() as int] == child_step(value, i),
{
    let step = child_step(value, i);
    lemma_match_is_leaf(child(value, i), path.push(step), accepts, entry);
    let below = choose|rel: Seq<Step>|
        entry.0 == path.push(step) + rel && #[trigger] leaf_at(child(value, i), rel, entry.1)
            && accepts(entry.1);
    assert((path.push(step) + below)[path.len() as int] == step);
}

/// No two matches of a run of children have the same path.
proof fn lemma_child_paths_distinct(
    value: JsonValue,
    from: nat,
    to: nat,
    path: Seq<Step>,
    accepts: spec_fn(i64) -> bool,
)
    requires
        names_distinct(value),
    ensures
        forall|a: int, b: int|
            0 <= a < b < child_matches(value, from, to, path, accepts).len() ==> child_matches(
                value,
                from,
                to,
                path,
                accepts,
            )[a].0 != child_matches(value, from, to, path, accepts)[b].0,
    decreases value, to,
{
    if from < to <= child_count(value) {
        let earlier = child_matches(value, from, (to - 1) as nat, path, accepts);
        let last_child = child(value, to - 1);
        let last = crawl_matches(last_child, path.push(child_step(value, to - 1)), accepts);
        lemma_child_paths_distinct(value, from, (to - 1) as nat, path, accepts);
        lemma_paths_distinct(last_child, path.push(child_step(value, to - 1)), accepts);
        assert forall|a: int, b: int| 0 <= a < b < (earlier + last).len() implies (earlier
            + last)[a].0 != (earlier + last)[b].0 by {
            if a < earlier.len() && b >= earlier.len() {
                let first = earlier[a];
                let second = last[b - earlier.len()];
                assert(earlier.contains(first));
                assert(last.contains(second));
                let i = lemma_child_matches_member(
                    value,
                    from,
                    (to - 1) as nat,
                    path,
                    accepts,
                    first,
                );
                lemma_match_goes_through(value, i, path, accepts, first);
                lemma_match_goes_through(value, to - 1, path, accepts, second);
            }
        }
    }
}

/// No two matches of a document have the same path.
proof fn lemma_paths_distinct(value: JsonValue, path: Seq<Step>, accepts: spec_fn(i64) -> bool)
    requires
        names_distinct(value),
    ensures
        forall|a: int, b: int|
            0 <= a < b < crawl_matches(value, path, accepts).len() ==> crawl_matches(
                value,
                path,
                accepts,
            )[a].0 != crawl_matches(value, path, accepts)[b].0,
    decreases value, child_count(value) + 1,
{
    match value {
        JsonValue::Number(Some(_)) => {
            assert(crawl_matches(value, path, accepts).len() <= 1);
        },
        _ => {
            lemma_child_paths_distinct(value, 0, child_count(value), path, accepts);
            assert(crawl_matches(value, path, accepts) == child_matches(
                value,
                0,
                child_count(value),
                path,
                accepts,
            ));
        },
    }
}

/// Where no object has two members of one name, each match has a path of its
/// own: no leaf is matched twice.
pub proof fn law_match_paths_are_distinct(
    value: JsonValue,
    path: Seq<Step>,
    accepts: spec_fn(i64) -> bool,
)
    requires
        names_distinct(value),
    ensures
        forall|a: int, b: int|
            0 <= a < b < crawl_matches(value, path, accepts).len() ==> crawl_matches(
                value,
                path,
                accepts,
            )[a].0 != crawl_matches(value, path, accepts)[b].0,
{
    lemma_paths_distinct(value, path, accepts);
}

} // verus!
