//! Paths into a JSON document, and the walk that collects the integers of a
//! document with their paths.

use crate::decimal::{append_decimal, decimal};
use crate::json_value::JsonValue;
use vstd::prelude::*;
use vstd::string::StringExecFns;

verus! {

/// One step of a path as a mathematical value: the name of an object member
/// or the position of an array element.
pub enum Step {
    Field(Seq<char>),
    Index(nat),
}

/// One step of a path: an object key or an array index.
#[derive(Debug, Eq, Ord)]
pub enum JsonPathPart {
    Field(String),
    Index(usize),
}

impl View for JsonPathPart {
    type V = Step;

    open spec fn view(&self) -> Step {
        match *self {
            JsonPathPart::Field(name) => Step::Field(name@),
            JsonPathPart::Index(index) => Step::Index(index as nat),
        }
    }
}

impl Clone for JsonPathPart {
    fn clone(&self) -> (copy: Self)
        ensures
            copy@ == self@,
    {
        match self {
            JsonPathPart::Field(name) => JsonPathPart::Field(name.clone()),
            JsonPathPart::Index(index) => JsonPathPart::Index(*index),
        }
    }
}

/// The location of a node inside a document: the steps from the root to it.
#[derive(Debug, Eq, Ord)]
pub struct JsonPath(pub Vec<JsonPathPart>);

impl View for JsonPath {
    type V = Seq<Step>;

    open spec fn view(&self) -> Seq<Step> {
        self.0@.map_values(|part: JsonPathPart| part@)
    }
}

/// The text of one step. An index stands in square brackets; a name stands
/// bare as the first step of a path and after a dot elsewhere.
pub open spec fn step_text(step: Step, first: bool) -> Seq<char> {
    match step {
        Step::Index(index) => seq!['['] + decimal(index) + seq![']'],
        Step::Field(name) => if first {
            name
        } else {
            seq!['.'] + name
        },
    }
}

/// The text of a path: the texts of its steps, one after the other.
pub open spec fn path_text(path: Seq<Step>) -> Seq<char>
    decreases path.len(),
{
    if path.len() == 0 {
        Seq::empty()
    } else {
        path_text(path.drop_last()) + step_text(path.last(), path.len() == 1)
    }
}

impl JsonPath {
    /// The empty path, which locates the root.
    pub fn new() -> (path: Self)
        ensures
            path@ == Seq::<Step>::empty(),
    {
        JsonPath(Vec::new())
    }

    /// A new path made of this path's steps followed by `part`; this path is
    /// left as it was.
    pub fn append(&self, part: JsonPathPart) -> (longer: Self)
        ensures
            longer@ == self@.push(part@),
    {
        let mut parts: Vec<JsonPathPart> = Vec::new();
        let mut i: usize = 0;
        while i < self.0.len()
            invariant
                i <= self.0.len(),
                parts@.len() == i,
                forall|k: int| 0 <= k < i ==> parts@[k]@ == self.0@[k]@,
            decreases self.0.len() - i,
        {
            parts.push(self.0[i].clone());
            i += 1;
        }
        parts.push(part);
        let longer = JsonPath(parts);
        assert(longer@ =~= self@.push(part@));
        longer
    }

    /// The path as text, in the notation of member access: `a.b[3].c`.
    pub fn to_display_string(&self) -> (text: String)
        ensures
            text@ == path_text(self@),
    {
        let mut text = String::new();
        let mut i: usize = 0;
        while i < self.0.len()
            invariant
                i <= self.0.len(),
                text@ == path_text(self@.subrange(0, i as int)),
            decreases self.0.len() - i,
        {
            let ghost before = text@;
            match &self.0[i] {
                JsonPathPart::Index(index) => {
                    proof {
                        reveal_strlit("[");
                        reveal_strlit("]");
                    }
                    text.append("[");
                    append_decimal(&mut text, *index as u64);
                    text.append("]");
                    assert(text@ =~= before + (seq!['['] + decimal(*index as nat) + seq![']']));
                },
                JsonPathPart::Field(name) => {
                    if i > 0 {
                        proof {
                            reveal_strlit(".");
                        }
                        text.append(".");
                    }
                    text.append(name.as_str());
                    assert(text@ =~= before + step_text(self@[i as int], i == 0));
                },
            }
            proof {
                let longer = self@.subrange(0, i + 1);
                assert(longer.drop_last() =~= self@.subrange(0, i as int));
                assert(longer.last() == self@[i as int]);
            }
            i += 1;
        }
        assert(self@.subrange(0, i as int) =~= self@);
        text
    }

    /// Whether the steps of `other` begin with all the steps of this path.
    pub fn is_prefix_of(&self, other: &Self) -> (prefix: bool)
        ensures
            prefix == self@.is_prefix_of(other@),
    {
        if self.0.len() > other.0.len() {
            return false;
        }
        let mut i: usize = 0;
        while i < self.0.len()
            invariant
                i <= self.0.len() <= other.0.len(),
                forall|k: int| 0 <= k < i ==> self@[k] == other@[k],
            decreases self.0.len() - i,
        {
            if !(self.0[i] == other.0[i]) {
                assert(self@[i as int] != other@[i as int]);
                assert(other@.subrange(0, self@.len() as int)[i as int] == other@[i as int]);
                return false;
            }
            i += 1;
        }
        assert(self@ =~= other@.subrange(0, self@.len() as int));
        true
    }
}

/// The number of children of a node: the elements of an array, the members of
/// an object, none for any other node.
pub open spec fn child_count(value: JsonValue) -> nat {
    match value {
        JsonValue::Array(items) => items.len() as nat,
        JsonValue::Object(members) => members.len() as nat,
        _ => 0,
    }
}

/// The child of a node at position `i`, counted in document order.
pub open spec fn child(value: JsonValue, i: int) -> JsonValue {
    match value {
        JsonValue::Array(items) => items[i],
        JsonValue::Object(members) => members[i].1,
        _ => value,
    }
}

/// The step that leads from a node to its child at position `i`: the position
/// itself in an array, the member's name in an object.
pub open spec fn child_step(value: JsonValue, i: int) -> Step {
    match value {
        JsonValue::Object(members) => Step::Field(members[i].0@),
        _ => Step::Index(i as nat),
    }
}

/// The matches at and below `value`, in document order, when `value` sits at
/// `path`: every number holding an integer that `accepts` takes, paired with
/// the path that leads to it.
pub open spec fn crawl_matches(
    value: JsonValue,
    path: Seq<Step>,
    accepts: spec_fn(i64) -> bool,
) -> Seq<(Seq<Step>, i64)>
    decreases value, child_count(value) + 1,
{
    match value {
        JsonValue::Number(Some(n)) => if accepts(n) {
            seq![(path, n)]
        } else {
            Seq::empty()
        },
        _ => child_matches(value, 0, child_count(value), path, accepts),
    }
}

/// The matches at and below the children of `value` at positions `from` up to
/// `to`, one child after the other, when `value` sits at `path`.
pub open spec fn child_matches(
    value: JsonValue,
    from: nat,
    to: nat,
    path: Seq<Step>,
    accepts: spec_fn(i64) -> bool,
) -> Seq<(Seq<Step>, i64)>
    decreases value, to,
{
    if from < to <= child_count(value) {
        child_matches(value, from, (to - 1) as nat, path, accepts) + crawl_matches(
            child(value, to - 1),
            path.push(child_step(value, to - 1)),
            accepts,
        )
    } else {
        Seq::empty()
    }
}

/// What a list of matches holds, as mathematical values.
pub open spec fn found(out: Seq<(JsonPath, i64)>) -> Seq<(Seq<Step>, i64)> {
    out.map_values(|m: (JsonPath, i64)| (m.0@, m.1))
}

/// `predicate` may be asked about every integer.
pub open spec fn takes_all<F: Fn(i64) -> bool>(predicate: F) -> bool {
    forall|n: i64| call_requires(predicate, (n,))
}

/// `predicate` computes `accepts`: whatever it answers about an integer is
/// what `accepts` says of that integer.
pub open spec fn computes<F: Fn(i64) -> bool>(predicate: F, accepts: spec_fn(i64) -> bool) -> bool {
    forall|n: i64, answer: bool| call_ensures(predicate, (n,), answer) ==> answer == accepts(n)
}

/// The number of nodes at and below `value`.
spec fn node_count(value: JsonValue) -> nat
    decreases value, child_count(value) + 1,
{
    1 + child_nodes(value, 0, child_count(value))
}

/// The number of nodes at and below the children of `value` at positions
/// `from` up to `to`.
spec fn child_nodes(value: JsonValue, from: nat, to: nat) -> nat
    decreases value, to,
{
    if from < to <= child_count(value) {
        child_nodes(value, from, (to - 1) as nat) + node_count(child(value, to - 1))
    } else {
        0
    }
}

/// The matches that the nodes still waiting on the stack will give, the top
/// of the stack first.
spec fn pending(stack: Seq<(&JsonValue, JsonPath)>, accepts: spec_fn(i64) -> bool) -> Seq<
    (Seq<Step>, i64),
>
    decreases stack.len(),
{
    if stack.len() == 0 {
        Seq::empty()
    } else {
        crawl_matches(*stack.last().0, stack.last().1@, accepts) + pending(
            stack.drop_last(),
            accepts,
        )
    }
}

/// The number of nodes at and below the nodes waiting on the stack.
spec fn weight(stack: Seq<(&JsonValue, JsonPath)>) -> nat
    decreases stack.len(),
{
    if stack.len() == 0 {
        0
    } else {
        node_count(*stack.last().0) + weight(stack.drop_last())
    }
}

/// The matches of a run of children are those of its first child followed by
/// those of the rest of the run.
proof fn lemma_child_matches_front(
    value: JsonValue,
    from: nat,
    to: nat,
    path: Seq<Step>,
    accepts: spec_fn(i64) -> bool,
)
    requires
        from < to <= child_count(value),
    ensures
        child_matches(value, from, to, path, accepts) == crawl_matches(
            child(value, from as int),
            path.push(child_step(value, from as int)),
            accepts,
        ) + child_matches(value, from + 1, to, path, accepts),
    decreases to,
{
    let first = crawl_matches(
        child(value, from as int),
        path.push(child_step(value, from as int)),
        accepts,
    );
    if to == from + 1 {
        let none = Seq::<(Seq<Step>, i64)>::empty();
        assert(child_matches(value, from, from, path, accepts) == none);
        assert(child_matches(value, from + 1, to, path, accepts) == none);
        assert(child_matches(value, from, to, path, accepts) =~= first);
    } else {
        lemma_child_matches_front(value, from, (to - 1) as nat, path, accepts);
        let last = crawl_matches(
            child(value, to - 1),
            path.push(child_step(value, to - 1)),
            accepts,
        );
        let middle = child_matches(value, from + 1, (to - 1) as nat, path, accepts);
        assert(child_matches(value, from + 1, to, path, accepts) == middle + last);
        assert((first + middle) + last =~= first + (middle + last));
    }
}

/// The nodes of a run of children are those of its first child and those of
/// the rest of the run.
proof fn lemma_child_nodes_front(value: JsonValue, from: nat, to: nat)
    requires
        from < to <= child_count(value),
    ensures
        child_nodes(value, from, to) == node_count(child(value, from as int)) + child_nodes(
            value,
            from + 1,
            to,
        ),
    decreases to,
{
    if to == from + 1 {
        assert(child_nodes(value, from, from) == 0);
        assert(child_nodes(value, from + 1, to) == 0);
    } else {
        lemma_child_nodes_front(value, from, (to - 1) as nat);
        assert(child_nodes(value, from + 1, to) == child_nodes(value, from + 1, (to - 1) as nat)
            + node_count(child(value, to - 1)));
    }
}

/// The number of children of `node`.
fn count_children(node: &JsonValue) -> (count: usize)
    ensures
        count == child_count(*node),
{
    match node {
        JsonValue::Array(items) => items.len(),
        JsonValue::Object(members) => members.len(),
        _ => 0,
    }
}

/// The child of `node` at position `k`, and the part of a path that leads to
/// it from `node`.
fn child_of(node: &JsonValue, k: usize) -> (below: (&JsonValue, JsonPathPart))
    requires
        k < child_count(*node),
    ensures
        *below.0 == child(*node, k as int),
        below.1@ == child_step(*node, k as int),
{
    match node {
        JsonValue::Array(items) => (&items[k], JsonPathPart::Index(k)),
        JsonValue::Object(members) => (&members[k].1, JsonPathPart::Field(members[k].0.clone())),
        _ => (node, JsonPathPart::Index(k)),
    }
}

/// Walks `value`, which sits at `path`, in document order and appends to `out`
/// every number that holds an integer which `predicate` takes, with its path.
///
/// The walk keeps its own stack, so that a deep document costs memory and no
/// call depth.
pub fn crawl_json<F>(
    value: &JsonValue,
    path: JsonPath,
    predicate: &F,
    out: &mut Vec<(JsonPath, i64)>,
) where F: Fn(i64) -> bool
    requires
        takes_all(*predicate),
        exists|accepts: spec_fn(i64) -> bool| computes(*predicate, accepts),
    ensures
        forall|accepts: spec_fn(i64) -> bool| #[trigger]
            computes(*predicate, accepts) ==> found(final(out)@) == found(old(out)@)
                + crawl_matches(*value, path@, accepts),
{
    let ghost start = found(out@);
    let ghost root = path@;
    let mut stack: Vec<(&JsonValue, JsonPath)> = Vec::new();
    stack.push((value, path));
    proof {
        assert forall|accepts: spec_fn(i64) -> bool|
            found(out@) + #[trigger] pending(stack@, accepts) == start + crawl_matches(
                *value,
                root,
                accepts,
            ) by {
            assert(stack@.drop_last() =~= Seq::empty());
            assert(pending(stack@.drop_last(), accepts) =~= Seq::empty());
            assert(pending(stack@, accepts) =~= crawl_matches(*value, root, accepts));
        }
    }
    while stack.len() > 0
        invariant
            takes_all(*predicate),
            forall|accepts: spec_fn(i64) -> bool| #[trigger]
                computes(*predicate, accepts) ==> found(out@) + pending(stack@, accepts) == start
                    + crawl_matches(*value, root, accepts),
        decreases weight(stack@),
    {
        let ghost before = stack@;
        let ghost had = found(out@);
        let (node, at) = stack.pop().unwrap();
        let ghost rest = stack@;
        proof {
            assert(before.drop_last() =~= rest);
            assert(weight(before) == node_count(*node) + weight(rest));
            assert forall|accepts: spec_fn(i64) -> bool| #[trigger]
                pending(before, accepts) == crawl_matches(*node, at@, accepts) + pending(
                    rest,
                    accepts,
                ) by {}
        }
        if let JsonValue::Number(Some(n)) = node {
            let taken = predicate(*n);
            if taken {
                out.push((at, *n));
            }
            proof {
                assert forall|accepts: spec_fn(i64) -> bool| #[trigger]
                    computes(*predicate, accepts) implies found(out@) + pending(stack@, accepts)
                    == start + crawl_matches(*value, root, accepts) by {
                    let found_here = crawl_matches(*node, at@, accepts);
                    assert(accepts(*n) == taken);
                    assert(had + pending(before, accepts) == start + crawl_matches(
                        *value,
                        root,
                        accepts,
                    ));
                    if taken {
                        assert(found(out@) =~= had + seq![(at@, *n)]);
                        assert(found_here == seq![(at@, *n)]);
                    } else {
                        assert(found_here =~= Seq::empty());
                    }
                    assert(found(out@) + pending(rest, accepts) =~= had + (found_here + pending(
                        rest,
                        accepts,
                    )));
                }
            }
        } else {
            let count = count_children(node);
            let mut k: usize = count;
            proof {
                assert forall|accepts: spec_fn(i64) -> bool| #[trigger]
                    pending(stack@, accepts) == child_matches(
                        *node,
                        k as nat,
                        count as nat,
                        at@,
                        accepts,
                    ) + pending(rest, accepts) by {
                    assert(Seq::<(Seq<Step>, i64)>::empty() + pending(rest, accepts) =~= pending(
                        rest,
                        accepts,
                    ));
                }
            }
            while k > 0
                invariant
                    k <= count == child_count(*node),
                    forall|accepts: spec_fn(i64) -> bool| #[trigger]
                        pending(stack@, accepts) == child_matches(
                            *node,
                            k as nat,
                            count as nat,
                            at@,
                            accepts,
                        ) + pending(rest, accepts),
                    weight(stack@) == child_nodes(*node, k as nat, count as nat) + weight(rest),
                decreases k,
            {
                let ghost below = stack@;
                k -= 1;
                let (child_node, part) = child_of(node, k);
                let child_path = at.append(part);
                stack.push((child_node, child_path));
                proof {
                    lemma_child_nodes_front(*node, k as nat, count as nat);
                    assert(stack@.drop_last() =~= below);
                    assert forall|accepts: spec_fn(i64) -> bool| #[trigger]
                        pending(stack@, accepts) == child_matches(
                            *node,
                            k as nat,
                            count as nat,
                            at@,
                            accepts,
                        ) + pending(rest, accepts) by {
                        lemma_child_matches_front(*node, k as nat, count as nat, at@, accepts);
                        let first = crawl_matches(*child_node, child_path@, accepts);
                        let later = child_matches(
                            *node,
                            (k + 1) as nat,
                            count as nat,
                            at@,
                            accepts,
                        );
                        assert(pending(below, accepts) == later + pending(rest, accepts));
                        assert(first + (later + pending(rest, accepts)) =~= (first + later)
                            + pending(rest, accepts));
                    }
                }
            }
            proof {
                assert forall|accepts: spec_fn(i64) -> bool| #[trigger]
                    computes(*predicate, accepts) implies found(out@) + pending(stack@, accepts)
                    == start + crawl_matches(*value, root, accepts) by {
                    assert(had + pending(before, accepts) == start + crawl_matches(
                        *value,
                        root,
                        accepts,
                    ));
                    assert(pending(stack@, accepts) == crawl_matches(*node, at@, accepts)
                        + pending(rest, accepts));
                }
            }
        }
    }
    proof {
        assert forall|accepts: spec_fn(i64) -> bool| #[trigger]
            computes(*predicate, accepts) implies found(out@) == start + crawl_matches(
            *value,
            root,
            accepts,
        ) by {
            assert(pending(stack@, accepts) =~= Seq::empty());
            assert(found(out@) + Seq::empty() =~= found(out@));
        }
    }
}

/// The matches of the document `value`, in document order: every number that
/// holds an integer which `predicate` takes, with the path that leads to it
/// from the root.
pub fn crawl<F>(value: &JsonValue, predicate: &F) -> (out: Vec<(JsonPath, i64)>) where
    F: Fn(i64) -> bool,

    requires
        takes_all(*predicate),
        exists|accepts: spec_fn(i64) -> bool| computes(*predicate, accepts),
    ensures
        forall|accepts: spec_fn(i64) -> bool| #[trigger]
            computes(*predicate, accepts) ==> found(out@) == crawl_matches(
                *value,
                Seq::empty(),
                accepts,
            ),
{
    let mut out: Vec<(JsonPath, i64)> = Vec::new();
    crawl_json(value, JsonPath::new(), predicate, &mut out);
    out
}

} // verus!
