//! What it is for a list to be sorted, and why merging sorts.

use vstd::prelude::*;

verus! {

/// `before` ranks its values: nothing comes before itself, the relation is
/// transitive, and whatever comes before a value or after it does so for
/// every value of the same rank.
pub open spec fn ranks<E>(before: spec_fn(E, E) -> bool) -> bool {
    &&& forall|x: E| !#[trigger] before(x, x)
    &&& forall|x: E, y: E, z: E| #[trigger]
        before(x, y) && #[trigger] before(y, z) ==> before(x, z)
    &&& forall|x: E, y: E, z: E| #[trigger]
        before(x, z) ==> #[trigger] before(x, y) || before(y, z)
}

/// `a` and `b` have the same rank: neither comes before the other.
pub open spec fn alike<E>(before: spec_fn(E, E) -> bool, a: E, b: E) -> bool {
    !before(a, b) && !before(b, a)
}

/// The values of the same rank as `e`.
pub open spec fn alike_to<E>(before: spec_fn(E, E) -> bool, e: E) -> spec_fn(E) -> bool {
    |x: E| alike(before, x, e)
}

/// No element of `list` comes before an element that stands earlier in it.
pub open spec fn ordered<E>(list: Seq<E>, before: spec_fn(E, E) -> bool) -> bool {
    forall|i: int, j: int|
        0 <= i < j < list.len() ==> !before(#[trigger] list[j], #[trigger] list[i])
}

/// `sorted` holds for each rank the elements that `list` holds of it, in the
/// order in which `list` holds them.
pub open spec fn keeps_ties<E>(
    list: Seq<E>,
    sorted: Seq<E>,
    before: spec_fn(E, E) -> bool,
) -> bool {
    forall|e: E|
        sorted.filter(#[trigger] alike_to(before, e)) == list.filter(alike_to(before, e))
}

/// `sorted` is `list` sorted: it holds the elements of `list`, those that
/// come before first and those of one rank in the order that they had.
pub open spec fn is_stable_sort<E>(
    list: Seq<E>,
    sorted: Seq<E>,
    before: spec_fn(E, E) -> bool,
) -> bool {
    ordered(sorted, before) && keeps_ties(list, sorted, before)
}

/// A merge on its way. Two sorted lists are merged from their ends: the
/// first `i` elements of `left` and the first `j` of `right` are still to be
/// placed, and `tail` holds the others, sorted.
pub(crate) closed spec fn merging<E>(
    left: Seq<E>,
    right: Seq<E>,
    i: int,
    j: int,
    tail: Seq<E>,
    before: spec_fn(E, E) -> bool,
) -> bool {
    &&& 0 <= i <= left.len()
    &&& 0 <= j <= right.len()
    &&& ordered(left, before)
    &&& ordered(right, before)
    &&& ordered(tail, before)
    &&& forall|a: int, k: int|
        0 <= a < i && 0 <= k < tail.len() ==> !before(#[trigger] tail[k], #[trigger] left[a])
    &&& forall|b: int, k: int|
        0 <= b < j && 0 <= k < tail.len() ==> !before(#[trigger] tail[k], #[trigger] right[b])
    &&& forall|k: int| i <= k < left.len() && j > 0 ==> before(right[j - 1], #[trigger] left[k])
    &&& forall|e: E|
        tail.filter(#[trigger] alike_to(before, e)) == left.skip(i).filter(alike_to(before, e))
            + right.skip(j).filter(alike_to(before, e))
}

/// A merge begins with nothing placed.
pub(crate) proof fn lemma_merge_begins<E>(
    left: Seq<E>,
    right: Seq<E>,
    before: spec_fn(E, E) -> bool,
)
    requires
        ordered(left, before),
        ordered(right, before),
    ensures
        merging(left, right, left.len() as int, right.len() as int, Seq::empty(), before),
{
    let tail = Seq::<E>::empty();
    assert forall|e: E|
        tail.filter(#[trigger] alike_to(before, e)) == left.skip(left.len() as int).filter(
            alike_to(before, e),
        ) + right.skip(right.len() as int).filter(alike_to(before, e)) by {
        let same = alike_to(before, e);
        assert(left.skip(left.len() as int) =~= tail);
        assert(right.skip(right.len() as int) =~= tail);
        tail.lemma_filter_len(same);
        assert(tail.filter(same) =~= tail.filter(same) + tail.filter(same));
    }
}

/// A merge goes on with the last element of `left` that is still to be
/// placed, where it comes after the last such element of `right`.
pub(crate) proof fn lemma_merge_takes_left<E>(
    left: Seq<E>,
    right: Seq<E>,
    i: int,
    j: int,
    tail: Seq<E>,
    before: spec_fn(E, E) -> bool,
)
    requires
        ranks(before),
        merging(left, right, i, j, tail, before),
        i > 0,
        j > 0 ==> before(right[j - 1], left[i - 1]),
    ensures
        merging(left, right, i - 1, j, seq![left[i - 1]] + tail, before),
{
    let x = left[i - 1];
    let longer = seq![x] + tail;
    assert forall|a: int, b: int| 0 <= a < b < longer.len() implies !before(
        #[trigger] longer[b],
        #[trigger] longer[a],
    ) by {
        if a == 0 {
            assert(longer[b] == tail[b - 1]);
        } else {
            assert(longer[a] == tail[a - 1] && longer[b] == tail[b - 1]);
        }
    }
    assert forall|a: int, k: int| 0 <= a < i - 1 && 0 <= k < longer.len() implies !before(
        #[trigger] longer[k],
        #[trigger] left[a],
    ) by {
        if k > 0 {
            assert(longer[k] == tail[k - 1]);
        }
    }
    assert forall|b: int, k: int| 0 <= b < j && 0 <= k < longer.len() implies !before(
        #[trigger] longer[k],
        #[trigger] right[b],
    ) by {
        if k > 0 {
            assert(longer[k] == tail[k - 1]);
        } else if before(x, right[b]) {
            assert(before(right[j - 1], x));
            assert(before(right[j - 1], right[b]));
            if b == j - 1 {
                assert(!before(right[b], right[b]));
            }
        }
    }
    assert forall|e: E|
        longer.filter(#[trigger] alike_to(before, e)) == left.skip(i - 1).filter(
            alike_to(before, e),
        ) + right.skip(j).filter(alike_to(before, e)) by {
        let same = alike_to(before, e);
        tail.lemma_filter_prepend(x, same);
        left.skip(i).lemma_filter_prepend(x, same);
        assert(left.skip(i - 1) =~= seq![x] + left.skip(i));
        let head = if same(x) {
            seq![x]
        } else {
            Seq::empty()
        };
        assert(head + (left.skip(i).filter(same) + right.skip(j).filter(same)) =~= (head
            + left.skip(i).filter(same)) + right.skip(j).filter(same));
    }
}

/// A merge goes on with the last element of `right` that is still to be
/// placed, where the last such element of `left` does not come after it.
pub(crate) proof fn lemma_merge_takes_right<E>(
    left: Seq<E>,
    right: Seq<E>,
    i: int,
    j: int,
    tail: Seq<E>,
    before: spec_fn(E, E) -> bool,
)
    requires
        ranks(before),
        merging(left, right, i, j, tail, before),
        j > 0,
        i > 0 ==> !before(right[j - 1], left[i - 1]),
    ensures
        merging(left, right, i, j - 1, seq![right[j - 1]] + tail, before),
{
    let y = right[j - 1];
    let longer = seq![y] + tail;
    assert forall|a: int, b: int| 0 <= a < b < longer.len() implies !before(
        #[trigger] longer[b],
        #[trigger] longer[a],
    ) by {
        if a == 0 {
            assert(longer[b] == tail[b - 1]);
        } else {
            assert(longer[a] == tail[a - 1] && longer[b] == tail[b - 1]);
        }
    }
    assert forall|a: int, k: int| 0 <= a < i && 0 <= k < longer.len() implies !before(
        #[trigger] longer[k],
        #[trigger] left[a],
    ) by {
        if k > 0 {
            assert(longer[k] == tail[k - 1]);
        } else if before(y, left[a]) {
            assert(before(y, left[i - 1]) || before(left[i - 1], left[a]));
        }
    }
    assert forall|b: int, k: int| 0 <= b < j - 1 && 0 <= k < longer.len() implies !before(
        #[trigger] longer[k],
        #[trigger] right[b],
    ) by {
        if k > 0 {
            assert(longer[k] == tail[k - 1]);
        }
    }
    assert forall|k: int| i <= k < left.len() && j - 1 > 0 implies before(
        right[j - 2],
        #[trigger] left[k],
    ) by {
        assert(before(y, left[k]));
        assert(before(y, right[j - 2]) || before(right[j - 2], left[k]));
    }
    assert forall|e: E|
        longer.filter(#[trigger] alike_to(before, e)) == left.skip(i).filter(alike_to(before, e))
            + right.skip(j - 1).filter(alike_to(before, e)) by {
        let same = alike_to(before, e);
        tail.lemma_filter_prepend(y, same);
        right.skip(j).lemma_filter_prepend(y, same);
        assert(right.skip(j - 1) =~= seq![y] + right.skip(j));
        let placed = left.skip(i);
        if same(y) {
            assert forall|k: int| 0 <= k < placed.len() implies !same(#[trigger] placed[k]) by {
                assert(placed[k] == left[i + k]);
                assert(before(y, left[i + k]));
                if same(placed[k]) {
                    assert(before(y, e) || before(e, placed[k]));
                }
            }
            assert(placed.all(|x: E| !same(x)));
            placed.lemma_all_neg_filter_empty(same);
            assert(placed.filter(same) =~= Seq::empty());
            assert(seq![y] + (placed.filter(same) + right.skip(j).filter(same)) =~= placed.filter(
                same,
            ) + (seq![y] + right.skip(j).filter(same)));
        } else {
            assert(Seq::<E>::empty() + (placed.filter(same) + right.skip(j).filter(same))
                =~= placed.filter(same) + (Seq::<E>::empty() + right.skip(j).filter(same)));
        }
    }
}

/// A merge that has placed every element has sorted them, the elements of
/// one rank standing as in `left` followed by `right`.
pub(crate) proof fn lemma_merge_ends<E>(
    left: Seq<E>,
    right: Seq<E>,
    tail: Seq<E>,
    before: spec_fn(E, E) -> bool,
)
    requires
        merging(left, right, 0, 0, tail, before),
    ensures
        is_stable_sort(left + right, tail, before),
{
    assert forall|e: E|
        tail.filter(#[trigger] alike_to(before, e)) == (left + right).filter(
            alike_to(before, e),
        ) by {
        assert(left.skip(0) =~= left);
        assert(right.skip(0) =~= right);
    }
}

/// The elements of a list that have the rank of its last element end with
/// that element.
proof fn lemma_ties_of_last<E>(list: Seq<E>, before: spec_fn(E, E) -> bool)
    requires
        ranks(before),
        list.len() > 0,
    ensures
        list.filter(alike_to(before, list.last())) == list.drop_last().filter(
            alike_to(before, list.last()),
        ).push(list.last()),
{
    let same = alike_to(before, list.last());
    assert(same(list.last()));
    list.drop_last().lemma_filter_push(list.last(), same);
    assert(list.drop_last().push(list.last()) =~= list);
}

/// Two sorted lists that hold the same elements of every rank, in the same
/// order, are one list.
proof fn lemma_sorted_with_same_ties<E>(s1: Seq<E>, s2: Seq<E>, before: spec_fn(E, E) -> bool)
    requires
        ranks(before),
        ordered(s1, before),
        ordered(s2, before),
        forall|e: E| s1.filter(#[trigger] alike_to(before, e)) == s2.filter(alike_to(before, e)),
    ensures
        s1 == s2,
    decreases s1.len(),
{
    if s1.len() == 0 && s2.len() == 0 {
        assert(s1 =~= s2);
    } else if s1.len() == 0 {
        lemma_ties_of_last(s2, before);
        s1.lemma_filter_len(alike_to(before, s2.last()));
    } else if s2.len() == 0 {
        lemma_ties_of_last(s1, before);
        s2.lemma_filter_len(alike_to(before, s1.last()));
    } else {
        let x = s1.last();
        let y = s2.last();
        lemma_ties_of_last(s1, before);
        lemma_ties_of_last(s2, before);
        assert(!before(y, x)) by {
            let same = alike_to(before, x);
            assert(s1.filter(same).last() == x);
            assert(s2.filter(same).contains(x));
            s2.lemma_filter_contains_rev(same, x);
            let m = choose|m: int| 0 <= m < s2.len() && s2[m] == x;
            if m < s2.len() - 1 {
                assert(!before(s2[s2.len() - 1], s2[m]));
            }
        }
        assert(!before(x, y)) by {
            let same = alike_to(before, y);
            assert(s2.filter(same).last() == y);
            assert(s1.filter(same).contains(y));
            s1.lemma_filter_contains_rev(same, y);
            let m = choose|m: int| 0 <= m < s1.len() && s1[m] == y;
            if m < s1.len() - 1 {
                assert(!before(s1[s1.len() - 1], s1[m]));
            }
        }
        assert(x == y) by {
            let same = alike_to(before, x);
            assert(same(y));
            s2.drop_last().lemma_filter_push(y, same);
            assert(s2.drop_last().push(y) =~= s2);
            assert(s1.filter(same).last() == x);
            assert(s2.filter(same).last() == y);
        }
        let r1 = s1.drop_last();
        let r2 = s2.drop_last();
        assert(r1.push(x) =~= s1);
        assert(r2.push(y) =~= s2);
        assert forall|e: E| r1.filter(#[trigger] alike_to(before, e)) == r2.filter(
            alike_to(before, e),
        ) by {
            let same = alike_to(before, e);
            r1.lemma_filter_push(x, same);
            r2.lemma_filter_push(y, same);
            if same(x) {
                assert(r1.filter(same).push(x).drop_last() =~= r1.filter(same));
                assert(r2.filter(same).push(y).drop_last() =~= r2.filter(same));
            }
        }
        lemma_sorted_with_same_ties(r1, r2, before);
    }
}

/// A list has one sorted arrangement only: two lists that are both `list`
/// sorted are the same list.
pub proof fn law_stable_sort_is_unique<E>(
    list: Seq<E>,
    first: Seq<E>,
    second: Seq<E>,
    before: spec_fn(E, E) -> bool,
)
    requires
        ranks(before),
        is_stable_sort(list, first, before),
        is_stable_sort(list, second, before),
    ensures
        first == second,
{
    lemma_sorted_with_same_ties(first, second, before);
}

} // verus!
