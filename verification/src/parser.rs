//! The checks a parse ends with: the input within its byte limit before
//! parsing, and afterwards every node of the result taken from a stack of
//! pending nodes, spending one unit of work each, within the depth and node
//! limits, with spans that nest on character boundaries, a well-shaped kind
//! and, for an extension node, a registered extension name.
use crate::ast::{shape_ok, Document, Node, NodeKind};
use crate::budget::{Budget, Limits};
use crate::encoding::{lemma_push_in_order, level_visits, pending_as_visits, span_ok, stacked, stacked_forest};
use crate::error::ParseError;
use crate::text::str_eq;
use crate::validation::Visit;
use std::ops::Range;
use vstd::prelude::*;
use vstd::string::StringSliceAdditionalSpecFns;
use vstd::utf8::encode_utf8;

verus! {

broadcast use vstd::seq::group_seq_axioms;

/// Whether `name` is one of the registered extension names.
pub open spec fn registered(names: Seq<String>, name: Seq<char>) -> bool {
    exists|i: int| 0 <= i < names.len() && (#[trigger] names[i])@ == name
}

/// A node of an extension kind whose name is not registered.
pub open spec fn unknown_extension(kind: NodeKind, names: Seq<String>) -> bool {
    kind matches NodeKind::Extension { name, .. } && !registered(names, name@)
}

/// The outcome of checking the visits in order, after `count` visits and
/// with `work` spent: each visit spends one unit of work, then its depth, the
/// node count, its span, its shape and its extension name are checked, and
/// the first failure is the error. On success, the work spent in all.
pub open spec fn parse_checks(vs: Seq<Visit>, count: int, work: nat, limits: Limits, src: Seq<u8>, names: Seq<String>) -> Result<nat, ParseError>
    decreases vs.len(),
{
    if vs.len() == 0 {
        Ok(work)
    } else {
        let v = vs[0];
        if work + 1 > limits.work {
            Err(ParseError::Limit { limit: "work" })
        } else if v.1 > limits.depth {
            Err(ParseError::Limit { limit: "depth" })
        } else if count + 1 > limits.nodes {
            Err(ParseError::Limit { limit: "tokens" })
        } else if !span_ok(v, src) || !shape_ok(v.0.kind, v.0.children@.len() > 0) || unknown_extension(v.0.kind, names) {
            Err(ParseError::InternalError)
        } else {
            parse_checks(vs.drop_first(), count + 1, (work + 1) as nat, limits, src, names)
        }
    }
}

/// Refuses an input longer than the `input_bytes` limit.
pub fn check_input(source: &str, limits: &Limits) -> (r: Result<(), ParseError>)
    ensures
        source.spec_bytes().len() > limits.input_bytes <==> r == Err::<(), ParseError>(
            ParseError::Limit { limit: "input_bytes" },
        ),
        r is Err ==> r == Err::<(), ParseError>(ParseError::Limit { limit: "input_bytes" }),
{
    if source.as_bytes().len() > limits.input_bytes {
        return Err(ParseError::limit("input_bytes"));
    }
    Ok(())
}

/// Whether `name` is among `names`.
fn is_registered(names: &[String], name: &String) -> (r: bool)
    ensures
        r == registered(names@, name@),
{
    let mut i: usize = 0;
    while i < names.len()
        invariant
            0 <= i <= names@.len(),
            forall|j: int| 0 <= j < i ==> (#[trigger] names@[j])@ != name@,
        decreases names@.len() - i,
    {
        if str_eq(names[i].as_str(), name.as_str()) {
            return true;
        }
        i += 1;
    }
    false
}

/// The document made of `source` and the nodes a parse produced, once every
/// node has passed the checks of [`parse_checks`], top-level nodes at depth 1
/// inside the whole source; the first failure is the error.
pub fn checked_document(source: &str, children: Vec<Node>, budget: &mut Budget, extensions: &[String]) -> (r: Result<
    Document,
    ParseError,
>)
    requires
        old(budget).spec_limits().depth < usize::MAX,
    ensures
        final(budget).spec_limits() == old(budget).spec_limits(),
        final(budget).spec_tokens() == old(budget).spec_tokens(),
        match parse_checks(
            stacked_forest(children@, 1, 0, source.spec_bytes().len() as int),
            0,
            old(budget).spec_work(),
            old(budget).spec_limits(),
            source.spec_bytes(),
            extensions@,
        ) {
            Ok(work) => r matches Ok(d) && d.source@ == source@ && d.children@ == children@
                && final(budget).spec_work() == work,
            Err(e) => r == Err::<Document, ParseError>(e),
        },
{
    let bytes = source.as_bytes();
    let ghost src = source.spec_bytes();
    let ghost roots = children@;
    let limits = budget.limits();
    let ghost limits0 = budget.spec_limits();
    let ghost tokens0 = budget.spec_tokens();
    let ghost goal = parse_checks(stacked_forest(roots, 1, 0, src.len() as int), 0, budget.spec_work(), limits, src, extensions@);
    let mut pending: Vec<(&Node, usize, Range<usize>)> = Vec::new();
    let n = children.len();
    let mut k: usize = 0;
    while k < n
        invariant
            n == roots.len(),
            roots == children@,
            0 <= k <= n,
            src == bytes@,
            pending_as_visits(pending@) == level_visits(roots.subrange(0, k as int), 1, 0, src.len() as int),
            forall|j: int| 0 <= j < pending@.len() ==> #[trigger] pending@[j].1 == 1,
        decreases n - k,
    {
        let ghost prev = pending@;
        pending.push((&children[k], 1, 0..bytes.len()));
        proof {
            assert(pending@ == prev.push((&children@[k as int], 1usize, 0..bytes.len())));
            let x = (roots[k as int], 1int, 0int, src.len() as int);
            assert(pending_as_visits(pending@) =~= pending_as_visits(prev).push(x));
            assert(level_visits(roots.subrange(0, k + 1), 1, 0, src.len() as int) =~= level_visits(
                roots.subrange(0, k as int),
                1,
                0,
                src.len() as int,
            ).push(x));
        }
        k += 1;
    }
    proof {
        assert(roots.subrange(0, n as int) =~= roots);
        lemma_push_in_order(seq![], roots, 1, 0, src.len() as int);
        assert(Seq::<Visit>::empty() + level_visits(roots, 1, 0, src.len() as int) =~= pending_as_visits(
            pending@,
        ));
        assert(stacked(Seq::<Visit>::empty()) =~= Seq::<Visit>::empty());
        assert(stacked_forest(roots, 1, 0, src.len() as int) + Seq::<Visit>::empty() =~= stacked_forest(
            roots,
            1,
            0,
            src.len() as int,
        ));
    }
    let mut count: usize = 0;
    while pending.len() > 0
        invariant
            src == source.spec_bytes(),
            src == bytes@,
            roots == children@,
            limits == limits0,
            limits0 == old(budget).spec_limits(),
            tokens0 == old(budget).spec_tokens(),
            budget.spec_limits() == limits0,
            budget.spec_tokens() == tokens0,
            limits.depth < usize::MAX,
            count <= limits.nodes,
            goal == parse_checks(stacked_forest(roots, 1, 0, src.len() as int), 0, old(budget).spec_work(), limits, src, extensions@),
            goal == parse_checks(stacked(pending_as_visits(pending@)), count as int, budget.spec_work(), limits, src, extensions@),
            forall|j: int| 0 <= j < pending@.len() ==> #[trigger] pending@[j].1 <= limits.depth + 1,
        decreases stacked(pending_as_visits(pending@)).len(),
    {
        let ghost before = pending_as_visits(pending@);
        let ghost before_raw = pending@;
        let (node, depth, parent) = pending.pop().unwrap();
        let ghost top = (*node, depth as int, parent.start as int, parent.end as int);
        let ghost sub = stacked_forest(node.children@, depth + 1, node.span.start as int, node.span.end as int);
        proof {
            assert(before_raw.last() == (node, depth, parent));
            assert(before.last() == top);
            assert(before.drop_last() =~= pending_as_visits(pending@));
            assert(stacked(before) == seq![top] + sub + stacked(pending_as_visits(pending@)));
            assert(stacked(before)[0] == top);
            assert(stacked(before).drop_first() =~= sub + stacked(pending_as_visits(pending@)));
        }
        match budget.spend(1) {
            Ok(()) => {},
            Err(e) => {
                return Err(e);
            },
        }
        match budget.depth(depth) {
            Ok(()) => {},
            Err(e) => {
                return Err(e);
            },
        }
        if count >= limits.nodes {
            return Err(ParseError::limit("tokens"));
        }
        count += 1;
        let span = node.span;
        if span.start > span.end || span.start < parent.start || span.end > parent.end
            || !source.is_char_boundary(span.start) || !source.is_char_boundary(span.end) {
            proof {
                assert(!span_ok(top, src));
            }
            return Err(ParseError::InternalError);
        }
        if !node.kind.valid_shape(!node.children.is_empty()) {
            return Err(ParseError::InternalError);
        }
        match &node.kind {
            NodeKind::Extension { name, .. } => {
                if !is_registered(extensions, name) {
                    return Err(ParseError::InternalError);
                }
            },
            _ => {},
        }
        let ghost rest = pending@;
        let mut c: usize = 0;
        let m = node.children.len();
        while c < m
            invariant
                0 <= c <= m,
                m == node.children@.len(),
                depth <= limits.depth,
                limits.depth < usize::MAX,
                pending_as_visits(pending@) == pending_as_visits(rest) + level_visits(
                    node.children@.subrange(0, c as int),
                    depth as int + 1,
                    span.start as int,
                    span.end as int,
                ),
                forall|j: int| 0 <= j < rest.len() ==> #[trigger] pending@[j] == rest[j],
                pending@.len() == rest.len() + c,
                forall|j: int| 0 <= j < rest.len() ==> #[trigger] rest[j].1 <= limits.depth + 1,
                forall|j: int| 0 <= j < pending@.len() ==> #[trigger] pending@[j].1 <= limits.depth + 1,
            decreases m - c,
        {
            let ghost prev = pending@;
            pending.push((&node.children[c], depth + 1, span.start..span.end));
            proof {
                assert(pending@ == prev.push((&node.children@[c as int], (depth + 1) as usize, span.start..span.end)));
                let x = (node.children@[c as int], depth as int + 1, span.start as int, span.end as int);
                assert(pending_as_visits(pending@) =~= pending_as_visits(prev).push(x));
                assert(level_visits(node.children@.subrange(0, c + 1), depth as int + 1, span.start as int, span.end as int)
                    =~= level_visits(node.children@.subrange(0, c as int), depth as int + 1, span.start as int, span.end as int).push(x));
            }
            c += 1;
        }
        proof {
            assert(node.children@.subrange(0, m as int) =~= node.children@);
            lemma_push_in_order(pending_as_visits(rest), node.children@, depth as int + 1, span.start as int, span.end as int);
            assert(stacked(pending_as_visits(pending@)) == stacked(before).drop_first());
        }
    }
    proof {
        assert(pending_as_visits(pending@) =~= Seq::<Visit>::empty());
    }
    Ok(Document { source: source.to_string(), children })
}

} // verus!
