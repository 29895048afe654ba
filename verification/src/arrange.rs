//! Sorting a list of matches by time or by path.

use crate::json_crawl::{found, JsonPath, Step};
use crate::order::{lemma_lex_irreflexive, lemma_lex_total, lemma_lex_transitive, Rank};
use crate::path_order::{lemma_step_order, path_before, rank_paths, step_before};
use crate::sorting::{
    alike_to, is_stable_sort, lemma_merge_begins, lemma_merge_ends, lemma_merge_takes_left,
    lemma_merge_takes_right, merging, ordered, ranks,
};
use vstd::prelude::*;

verus! {

/// What a list of matches is sorted by.
#[derive(Clone, Copy, Debug, PartialEq, Eq, Structural)]
pub enum SortBy {
    /// By the integer, and by the path where the integers are equal.
    Time,
    /// By the path alone.
    Path,
}

/// The order of matches that `by` asks for.
pub open spec fn entry_order(by: SortBy) -> spec_fn((Seq<Step>, i64), (Seq<Step>, i64)) -> bool {
    |a: (Seq<Step>, i64), b: (Seq<Step>, i64)|
        match by {
            SortBy::Time => a.1 < b.1 || (a.1 == b.1 && path_before(a.0, b.0)),
            SortBy::Path => path_before(a.0, b.0),
        }
}

/// Either order of matches ranks them.
pub proof fn lemma_entry_order_ranks(by: SortBy)
    ensures
        ranks(entry_order(by)),
{
    let before = entry_order(by);
    let steps = step_before();
    lemma_step_order();
    assert forall|x: (Seq<Step>, i64)| !#[trigger] before(x, x) by {
        lemma_lex_irreflexive(x.0, steps);
    }
    assert forall|x: (Seq<Step>, i64), y: (Seq<Step>, i64), z: (Seq<Step>, i64)| #[trigger]
        before(x, y) && #[trigger] before(y, z) implies before(x, z) by {
        if path_before(x.0, y.0) && path_before(y.0, z.0) {
            lemma_lex_transitive(x.0, y.0, z.0, steps);
        }
    }
    assert forall|x: (Seq<Step>, i64), y: (Seq<Step>, i64), z: (Seq<Step>, i64)| #[trigger]
        before(x, z) implies #[trigger] before(x, y) || before(y, z) by {
        if x.0 != y.0 {
            lemma_lex_total(x.0, y.0, steps);
        }
        if y.0 != z.0 {
            lemma_lex_total(y.0, z.0, steps);
        }
        if path_before(y.0, x.0) && path_before(x.0, z.0) {
            lemma_lex_transitive(y.0, x.0, z.0, steps);
        }
        if path_before(x.0, z.0) && path_before(z.0, y.0) {
            lemma_lex_transitive(x.0, z.0, y.0, steps);
        }
    }
}

/// Sorting by time puts any two different matches in one order: where the
/// integers are equal, the paths decide.
pub proof fn law_time_order_is_total(a: (JsonPath, i64), b: (JsonPath, i64))
    ensures
        (a.0@ == b.0@ && a.1 == b.1) || entry_order(SortBy::Time)((a.0@, a.1), (b.0@, b.1))
            || entry_order(SortBy::Time)((b.0@, b.1), (a.0@, a.1)),
        !(entry_order(SortBy::Time)((a.0@, a.1), (b.0@, b.1)) && entry_order(SortBy::Time)(
            (b.0@, b.1),
            (a.0@, a.1),
        )),
{
    lemma_step_order();
    lemma_lex_irreflexive(a.0@, step_before());
    if a.0@ != b.0@ {
        lemma_lex_total(a.0@, b.0@, step_before());
    }
    if path_before(a.0@, b.0@) && path_before(b.0@, a.0@) {
        lemma_lex_transitive(a.0@, b.0@, a.0@, step_before());
    }
}

/// Sorting by path puts any two matches of different paths in one order.
pub proof fn law_path_order_tells_paths_apart(a: (JsonPath, i64), b: (JsonPath, i64))
    ensures
        a.0@ == b.0@ || entry_order(SortBy::Path)((a.0@, a.1), (b.0@, b.1)) || entry_order(
            SortBy::Path,
        )((b.0@, b.1), (a.0@, a.1)),
        !(entry_order(SortBy::Path)((a.0@, a.1), (b.0@, b.1)) && entry_order(SortBy::Path)(
            (b.0@, b.1),
            (a.0@, a.1),
        )),
{
    lemma_step_order();
    lemma_lex_irreflexive(a.0@, step_before());
    if a.0@ != b.0@ {
        lemma_lex_total(a.0@, b.0@, step_before());
    }
    if path_before(a.0@, b.0@) && path_before(b.0@, a.0@) {
        lemma_lex_transitive(a.0@, b.0@, a.0@, step_before());
    }
}

/// Whether the match `a` comes before the match `b` in the order that `by`
/// asks for.
pub fn comes_before(a: &(JsonPath, i64), b: &(JsonPath, i64), by: SortBy) -> (first: bool)
    ensures
        first == entry_order(by)((a.0@, a.1), (b.0@, b.1)),
{
    proof {
        lemma_lex_irreflexive(a.0@, step_before());
    }
    match by {
        SortBy::Time => {
            if a.1 < b.1 {
                true
            } else if a.1 == b.1 {
                match rank_paths(&a.0, &b.0) {
                    Rank::Before => true,
                    _ => false,
                }
            } else {
                false
            }
        },
        SortBy::Path => {
            match rank_paths(&a.0, &b.0) {
                Rank::Before => true,
                _ => false,
            }
        },
    }
}

/// Merges two sorted lists of matches into one.
fn merge(left: Vec<(JsonPath, i64)>, right: Vec<(JsonPath, i64)>, by: SortBy) -> (merged: Vec<
    (JsonPath, i64),
>)
    requires
        ordered(found(left@), entry_order(by)),
        ordered(found(right@), entry_order(by)),
    ensures
        is_stable_sort(found(left@) + found(right@), found(merged@), entry_order(by)),
{
    let ghost order = entry_order(by);
    let ghost l0 = found(left@);
    let ghost r0 = found(right@);
    let mut left = left;
    let mut right = right;
    let mut backwards: Vec<(JsonPath, i64)> = Vec::new();
    proof {
        lemma_entry_order_ranks(by);
        lemma_merge_begins(l0, r0, order);
        assert(found(backwards@).reverse() =~= Seq::empty());
        assert(l0.take(l0.len() as int) =~= l0);
        assert(r0.take(r0.len() as int) =~= r0);
    }
    while left.len() > 0 || right.len() > 0
        invariant
            ranks(order),
            order == entry_order(by),
            left.len() <= l0.len(),
            right.len() <= r0.len(),
            found(left@) == l0.take(left.len() as int),
            found(right@) == r0.take(right.len() as int),
            merging(
                l0,
                r0,
                left.len() as int,
                right.len() as int,
                found(backwards@).reverse(),
                order,
            ),
        decreases left.len() + right.len(),
    {
        let ghost i = left.len() as int;
        let ghost j = right.len() as int;
        let ghost tail = found(backwards@).reverse();
        let from_left = if left.len() == 0 {
            false
        } else if right.len() == 0 {
            true
        } else {
            assert(found(left@)[i - 1] == l0[i - 1]);
            assert(found(right@)[j - 1] == r0[j - 1]);
            comes_before(&right[right.len() - 1], &left[left.len() - 1], by)
        };
        if from_left {
            proof {
                lemma_merge_takes_left(l0, r0, i, j, tail, order);
                assert(found(left@)[i - 1] == l0[i - 1]);
            }
            let entry = left.pop().unwrap();
            backwards.push(entry);
            proof {
                assert(found(left@) =~= l0.take(i - 1));
                assert(found(backwards@).reverse() =~= seq![l0[i - 1]] + tail);
            }
        } else {
            proof {
                lemma_merge_takes_right(l0, r0, i, j, tail, order);
                assert(found(right@)[j - 1] == r0[j - 1]);
            }
            let entry = right.pop().unwrap();
            backwards.push(entry);
            proof {
                assert(found(right@) =~= r0.take(j - 1));
                assert(found(backwards@).reverse() =~= seq![r0[j - 1]] + tail);
            }
        }
    }
    proof {
        lemma_merge_ends(l0, r0, found(backwards@).reverse(), order);
    }
    reverse_matches(backwards)
}

/// The matches of `list`, sorted in the order that `by` asks for. Matches
/// that the order does not tell apart stay in the order that they had.
pub fn sort_matches(list: Vec<(JsonPath, i64)>, by: SortBy) -> (sorted: Vec<(JsonPath, i64)>)
    ensures
        is_stable_sort(found(list@), found(sorted@), entry_order(by)),
    decreases list.len(),
{
    if list.len() <= 1 {
        return list;
    }
    let ghost whole = found(list@);
    let mut left = list;
    let half = left.len() / 2;
    let right = left.split_off(half);
    let ghost first = found(left@);
    let ghost second = found(right@);
    let left = sort_matches(left, by);
    let right = sort_matches(right, by);
    let merged = merge(left, right, by);
    proof {
        assert(whole =~= first + second);
        assert forall|e: (Seq<Step>, i64)|
            found(merged@).filter(#[trigger] alike_to(entry_order(by), e)) == whole.filter(
                alike_to(entry_order(by), e),
            ) by {
            let same = alike_to(entry_order(by), e);
            assert((found(left@) + found(right@)).filter(same) == found(left@).filter(same)
                + found(right@).filter(same));
            assert((first + second).filter(same) == first.filter(same) + second.filter(same));
        }
    }
    merged
}

/// The matches of `list` in the opposite order.
pub fn reverse_matches(list: Vec<(JsonPath, i64)>) -> (reversed: Vec<(JsonPath, i64)>)
    ensures
        found(reversed@) == found(list@).reverse(),
{
    let ghost whole = found(list@);
    let mut list = list;
    let mut reversed: Vec<(JsonPath, i64)> = Vec::new();
    while list.len() > 0
        invariant
            list.len() <= whole.len(),
            found(list@) == whole.take(list.len() as int),
            found(reversed@) == whole.skip(list.len() as int).reverse(),
        decreases list.len(),
    {
        let ghost n = list.len() as int;
        let ghost done = found(reversed@);
        let entry = list.pop().unwrap();
        let ghost shown = (entry.0@, entry.1);
        reversed.push(entry);
        proof {
            assert(shown == whole.take(n)[n - 1]);
            assert(found(list@) =~= whole.take(n - 1));
            assert(found(reversed@) =~= done.push(shown));
            assert(done.push(shown) =~= whole.skip(n - 1).reverse());
        }
    }
    proof {
        assert(whole.skip(0) =~= whole);
    }
    reversed
}

} // verus!
