//! The order of a dictionary, over sequences in general and over texts.

use vstd::prelude::*;
use vstd::std_specs::iter::IteratorSpec;

verus! {

/// How one value stands to another in an order.
#[derive(Clone, Copy, Debug, PartialEq, Eq, Structural)]
pub enum Rank {
    Before,
    Same,
    After,
}

/// `before` orders its values strictly and totally: nothing comes before
/// itself, the relation is transitive, and of two different values one comes
/// before the other.
pub open spec fn strict_total<T>(before: spec_fn(T, T) -> bool) -> bool {
    &&& forall|x: T| !#[trigger] before(x, x)
    &&& forall|x: T, y: T, z: T| #[trigger]
        before(x, y) && #[trigger] before(y, z) ==> before(x, z)
    &&& forall|x: T, y: T| x != y ==> #[trigger] before(x, y) || before(y, x)
}

/// The order of a dictionary over sequences: `a` comes before `b` when, at
/// the first position where they differ, `a` has ended or holds the element
/// that comes before.
pub open spec fn lex_before<T>(a: Seq<T>, b: Seq<T>, before: spec_fn(T, T) -> bool) -> bool
    decreases a.len(),
{
    if b.len() == 0 {
        false
    } else if a.len() == 0 {
        true
    } else if a[0] == b[0] {
        lex_before(a.drop_first(), b.drop_first(), before)
    } else {
        before(a[0], b[0])
    }
}

/// Where `a` stands to `b` in the order of a dictionary.
pub open spec fn lex_rank<T>(a: Seq<T>, b: Seq<T>, before: spec_fn(T, T) -> bool) -> Rank {
    if a == b {
        Rank::Same
    } else if lex_before(a, b, before) {
        Rank::Before
    } else {
        Rank::After
    }
}

/// No sequence comes before itself.
pub proof fn lemma_lex_irreflexive<T>(a: Seq<T>, before: spec_fn(T, T) -> bool)
    ensures
        !lex_before(a, a, before),
    decreases a.len(),
{
    if a.len() > 0 {
        lemma_lex_irreflexive(a.drop_first(), before);
    }
}

/// The order of a dictionary is transitive when the order of the elements is
/// strict and total.
pub proof fn lemma_lex_transitive<T>(
    a: Seq<T>,
    b: Seq<T>,
    c: Seq<T>,
    before: spec_fn(T, T) -> bool,
)
    requires
        strict_total(before),
        lex_before(a, b, before),
        lex_before(b, c, before),
    ensures
        lex_before(a, c, before),
    decreases a.len(),
{
    if a.len() > 0 {
        if a[0] == b[0] && b[0] == c[0] {
            lemma_lex_transitive(a.drop_first(), b.drop_first(), c.drop_first(), before);
        } else if a[0] == b[0] {
            assert(before(b[0], c[0]));
        } else if b[0] == c[0] {
            assert(before(a[0], b[0]));
        } else {
            assert(before(a[0], b[0]) && before(b[0], c[0]));
            assert(before(a[0], c[0]));
            assert(!before(a[0], a[0]));
        }
    }
}

/// Of two different sequences one comes before the other when the order of
/// the elements is strict and total.
pub proof fn lemma_lex_total<T>(a: Seq<T>, b: Seq<T>, before: spec_fn(T, T) -> bool)
    requires
        strict_total(before),
        a != b,
    ensures
        lex_before(a, b, before) || lex_before(b, a, before),
    decreases a.len(),
{
    if a.len() > 0 && b.len() > 0 {
        if a[0] == b[0] {
            if a.drop_first() == b.drop_first() {
                assert(a =~= seq![a[0]] + a.drop_first());
                assert(b =~= seq![b[0]] + b.drop_first());
            }
            lemma_lex_total(a.drop_first(), b.drop_first(), before);
        } else {
            assert(before(a[0], b[0]) || before(b[0], a[0]));
        }
    } else {
        assert(a.len() != b.len()) by {
            if a.len() == b.len() {
                assert(a =~= b);
            }
        }
    }
}

/// Two sequences that agree on their first `k` elements stand to each other
/// as what follows those elements does.
pub proof fn lemma_lex_skip_common<T>(a: Seq<T>, b: Seq<T>, k: int, before: spec_fn(T, T) -> bool)
    requires
        0 <= k <= a.len(),
        k <= b.len(),
        a.take(k) == b.take(k),
    ensures
        lex_before(a, b, before) == lex_before(a.skip(k), b.skip(k), before),
        lex_before(b, a, before) == lex_before(b.skip(k), a.skip(k), before),
        (a == b) == (a.skip(k) == b.skip(k)),
    decreases k,
{
    if k == 0 {
        assert(a.skip(0) =~= a);
        assert(b.skip(0) =~= b);
    } else {
        assert(a[0] == a.take(k)[0]);
        assert(b[0] == b.take(k)[0]);
        assert(a.drop_first().take(k - 1) =~= a.take(k).drop_first());
        assert(b.drop_first().take(k - 1) =~= b.take(k).drop_first());
        lemma_lex_skip_common(a.drop_first(), b.drop_first(), k - 1, before);
        assert(a.drop_first().skip(k - 1) =~= a.skip(k));
        assert(b.drop_first().skip(k - 1) =~= b.skip(k));
        assert(a =~= seq![a[0]] + a.drop_first());
        assert(b =~= seq![b[0]] + b.drop_first());
        if a.skip(k) == b.skip(k) {
            assert(a =~= a.take(k) + a.skip(k));
            assert(b =~= b.take(k) + b.skip(k));
        }
    }
}

/// The order of characters: by code point.
pub open spec fn char_before() -> spec_fn(char, char) -> bool {
    |x: char, y: char| (x as int) < (y as int)
}

/// The order of texts: that of a dictionary over the code points. It is the
/// order in which `str` and `String` compare.
pub open spec fn text_before(a: Seq<char>, b: Seq<char>) -> bool {
    lex_before(a, b, char_before())
}

/// Where the text `a` stands to the text `b`.
pub open spec fn text_rank(a: Seq<char>, b: Seq<char>) -> Rank {
    lex_rank(a, b, char_before())
}

/// The order of characters is strict and total.
pub proof fn lemma_char_order()
    ensures
        strict_total(char_before()),
{
    let before = char_before();
    assert forall|x: char| !#[trigger] before(x, x) by {}
    assert forall|x: char, y: char, z: char| #[trigger]
        before(x, y) && #[trigger] before(y, z) implies before(x, z) by {}
    assert forall|x: char, y: char| x != y implies #[trigger] before(x, y) || before(y, x) by {}
}

/// Where the text `a` stands to the text `b`, found by reading both from
/// their first character on.
pub fn rank_texts(a: &str, b: &str) -> (rank: Rank)
    ensures
        rank == text_rank(a@, b@),
{
    let mut left = a.chars();
    let mut right = b.chars();
    let ghost mut k: int = 0;
    proof {
        assert(a@.skip(0) =~= a@);
        assert(b@.skip(0) =~= b@);
        assert(a@.take(0) =~= b@.take(0));
    }
    loop
        invariant
            0 <= k <= a@.len(),
            k <= b@.len(),
            left.remaining() == a@.skip(k),
            right.remaining() == b@.skip(k),
            a@.take(k) == b@.take(k),
        decreases a@.len() - k,
    {
        proof {
            lemma_lex_skip_common(a@, b@, k, char_before());
        }
        let x = left.next();
        let y = right.next();
        match x {
            None => {
                match y {
                    None => {
                        assert(a@.skip(k) =~= b@.skip(k));
                        return Rank::Same;
                    },
                    Some(_) => {
                        return Rank::Before;
                    },
                }
            },
            Some(c) => {
                match y {
                    None => {
                        return Rank::After;
                    },
                    Some(d) => {
                        assert(a@.skip(k)[0] == c && b@.skip(k)[0] == d);
                        if c < d {
                            assert(char_before()(c, d));
                            return Rank::Before;
                        } else if d < c {
                            assert(!char_before()(c, d));
                            return Rank::After;
                        }
                        proof {
                            assert(a@.take(k + 1) =~= a@.take(k).push(a@[k]));
                            assert(b@.take(k + 1) =~= b@.take(k).push(b@[k]));
                            assert(a@.skip(k).drop_first() =~= a@.skip(k + 1));
                            assert(b@.skip(k).drop_first() =~= b@.skip(k + 1));
                            k = k + 1;
                        }
                    },
                }
            },
        }
    }
}

} // verus!
