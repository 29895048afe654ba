//! The order of paths.

use crate::json_crawl::{JsonPath, JsonPathPart, Step};
use crate::order::{
    char_before, lemma_char_order, lemma_lex_irreflexive, lemma_lex_skip_common, lemma_lex_total,
    lemma_lex_transitive, lex_before, lex_rank, rank_texts, strict_total, text_before, Rank,
};
use vstd::prelude::*;

verus! {

/// The order of steps: a name comes before every index, names stand in the
/// order of texts, indices in the order of numbers.
pub open spec fn step_before() -> spec_fn(Step, Step) -> bool {
    |s: Step, t: Step|
        match s {
            Step::Field(a) => match t {
                Step::Field(b) => text_before(a, b),
                Step::Index(_) => true,
            },
            Step::Index(i) => match t {
                Step::Field(_) => false,
                Step::Index(j) => i < j,
            },
        }
}

/// Where the step `s` stands to the step `t`.
pub open spec fn step_rank(s: Step, t: Step) -> Rank {
    if s == t {
        Rank::Same
    } else if step_before()(s, t) {
        Rank::Before
    } else {
        Rank::After
    }
}

/// The order of paths: that of a dictionary over the steps.
pub open spec fn path_before(p: Seq<Step>, q: Seq<Step>) -> bool {
    lex_before(p, q, step_before())
}

/// Where the path `p` stands to the path `q`.
pub open spec fn path_rank(p: Seq<Step>, q: Seq<Step>) -> Rank {
    lex_rank(p, q, step_before())
}

/// The order of steps is strict and total.
pub proof fn lemma_step_order()
    ensures
        strict_total(step_before()),
{
    let before = step_before();
    lemma_char_order();
    assert forall|x: Step| !#[trigger] before(x, x) by {
        if let Step::Field(a) = x {
            lemma_lex_irreflexive(a, char_before());
        }
    }
    assert forall|x: Step, y: Step, z: Step| #[trigger]
        before(x, y) && #[trigger] before(y, z) implies before(x, z) by {
        if let Step::Field(a) = x {
            if let Step::Field(b) = y {
                if let Step::Field(c) = z {
                    lemma_lex_transitive(a, b, c, char_before());
                }
            }
        }
    }
    assert forall|x: Step, y: Step| x != y implies #[trigger] before(x, y) || before(y, x) by {
        if let Step::Field(a) = x {
            if let Step::Field(b) = y {
                lemma_lex_total(a, b, char_before());
            }
        }
    }
}

/// Where the part `a` stands to the part `b`.
pub fn rank_parts(a: &JsonPathPart, b: &JsonPathPart) -> (rank: Rank)
    ensures
        rank == step_rank(a@, b@),
{
    match a {
        JsonPathPart::Field(x) => match b {
            JsonPathPart::Field(y) => rank_texts(x.as_str(), y.as_str()),
            JsonPathPart::Index(_) => Rank::Before,
        },
        JsonPathPart::Index(i) => match b {
            JsonPathPart::Field(_) => Rank::After,
            JsonPathPart::Index(j) => if *i < *j {
                Rank::Before
            } else if *i == *j {
                Rank::Same
            } else {
                Rank::After
            },
        },
    }
}

/// Where the path `a` stands to the path `b`, found by going through both
/// from their first step on.
pub fn rank_paths(a: &JsonPath, b: &JsonPath) -> (rank: Rank)
    ensures
        rank == path_rank(a@, b@),
{
    let mut k: usize = 0;
    proof {
        assert(a@.take(0) =~= b@.take(0));
    }
    while k < a.0.len() && k < b.0.len()
        invariant
            k <= a.0.len(),
            k <= b.0.len(),
            a@.take(k as int) == b@.take(k as int),
        decreases a.0.len() - k,
    {
        let here = rank_parts(&a.0[k], &b.0[k]);
        match here {
            Rank::Same => {},
            _ => {
                proof {
                    lemma_lex_skip_common(a@, b@, k as int, step_before());
                    assert(a@.skip(k as int)[0] == a@[k as int]);
                    assert(b@.skip(k as int)[0] == b@[k as int]);
                }
                return here;
            },
        }
        proof {
            assert(a@.take(k + 1) =~= a@.take(k as int).push(a@[k as int]));
            assert(b@.take(k + 1) =~= b@.take(k as int).push(b@[k as int]));
        }
        k += 1;
    }
    proof {
        lemma_lex_skip_common(a@, b@, k as int, step_before());
        if a@.len() == b@.len() {
            assert(a@.skip(k as int) =~= b@.skip(k as int));
        }
    }
    if a.0.len() < b.0.len() {
        Rank::Before
    } else if a.0.len() == b.0.len() {
        Rank::Same
    } else {
        Rank::After
    }
}

} // verus!
