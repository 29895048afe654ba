//! What holds of every path: of prefixes and of the order of paths.

use crate::json_crawl::{JsonPath, JsonPathPart, Step};
use crate::order::{lemma_lex_irreflexive, lemma_lex_total, lemma_lex_transitive, Rank};
use crate::path_order::{lemma_step_order, path_before, path_rank, step_before};
use vstd::prelude::*;

verus! {

/// Every path is a prefix of itself.
pub proof fn law_prefix_reflexive(p: JsonPath)
    ensures
        p@.is_prefix_of(p@),
{
    assert(p@.subrange(0, p@.len() as int) =~= p@);
}

/// The empty path is a prefix of every path, of itself too.
pub proof fn law_empty_path_is_prefix(p: JsonPath)
    ensures
        Seq::<Step>::empty().is_prefix_of(p@),
        Seq::<Step>::empty().is_prefix_of(Seq::<Step>::empty()),
{
}

/// Two paths that are prefixes of each other are the same path.
pub proof fn law_prefix_antisymmetric(p: JsonPath, q: JsonPath)
    requires
        p@.is_prefix_of(q@),
        q@.is_prefix_of(p@),
    ensures
        p@ == q@,
{
    assert(q@.subrange(0, p@.len() as int) =~= q@);
}

/// A path with one more step extends the path it was made from: that path is
/// a prefix of it, and not the other way round.
pub proof fn law_append_extends(p: JsonPath, part: JsonPathPart)
    ensures
        p@.is_prefix_of(p@.push(part@)),
        !p@.push(part@).is_prefix_of(p@),
{
    assert(p@.push(part@).subrange(0, p@.len() as int) =~= p@);
}

/// No path comes before itself.
pub proof fn law_path_order_irreflexive(p: JsonPath)
    ensures
        !path_before(p@, p@),
        path_rank(p@, p@) == Rank::Same,
{
    lemma_lex_irreflexive(p@, step_before());
}

/// Of two paths, not both come before the other.
pub proof fn law_path_order_asymmetric(p: JsonPath, q: JsonPath)
    requires
        path_before(p@, q@),
    ensures
        !path_before(q@, p@),
{
    lemma_step_order();
    if path_before(q@, p@) {
        lemma_lex_transitive(p@, q@, p@, step_before());
        lemma_lex_irreflexive(p@, step_before());
    }
}

/// The order of paths is transitive.
pub proof fn law_path_order_transitive(p: JsonPath, q: JsonPath, r: JsonPath)
    requires
        path_before(p@, q@),
        path_before(q@, r@),
    ensures
        path_before(p@, r@),
{
    lemma_step_order();
    lemma_lex_transitive(p@, q@, r@, step_before());
}

/// The order of paths is total: of two different paths one comes before the
/// other, so that a list of different paths has one sorted arrangement only.
pub proof fn law_path_order_total(p: JsonPath, q: JsonPath)
    ensures
        p@ == q@ || path_before(p@, q@) || path_before(q@, p@),
        path_rank(p@, q@) == Rank::Same <==> p@ == q@,
        path_rank(p@, q@) == Rank::Before <==> path_before(p@, q@),
        path_rank(p@, q@) == Rank::After <==> path_before(q@, p@),
{
    lemma_step_order();
    lemma_lex_irreflexive(p@, step_before());
    if p@ != q@ {
        lemma_lex_total(p@, q@, step_before());
        if path_before(p@, q@) && path_before(q@, p@) {
            lemma_lex_transitive(p@, q@, p@, step_before());
        }
    }
}

} // verus!
