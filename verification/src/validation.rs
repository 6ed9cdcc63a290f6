//! Checking a document tree before any handler runs: spans nest inside their
//! parents on character boundaries, nodes are well shaped, and the tree stays
//! within resource limits.
use crate::ast::{shape_ok, Document, Node};
use std::ops::Range;
use vstd::prelude::*;
use vstd::string::StringSliceAdditionalSpecFns;
use vstd::utf8::{encode_utf8, is_char_boundary};

verus! {

broadcast use vstd::seq::group_seq_axioms;

/// Most source bytes a document may have.
pub const MAX_SOURCE_BYTES: usize = 65536;

/// Most nodes a document may have.
pub const MAX_NODES: usize = 16384;

/// Deepest nesting a node may have; top-level nodes have depth 1.
pub const MAX_DEPTH: usize = 64;

/// A visit of a node in document preorder: the node, its depth (top-level
/// nodes have depth 1) and the span of its parent (the whole source for
/// top-level nodes).
pub type Visit = (Node, int, int, int);

/// The preorder visits of `ns` and their descendants.
pub open spec fn forest(ns: Seq<Node>, depth: int, ps: int, pe: int) -> Seq<Visit>
    decreases ns,
{
    if ns.len() == 0 {
        seq![]
    } else {
        let n = ns[0];
        seq![(n, depth, ps, pe)] + forest(
            n.children@,
            depth + 1,
            n.span.start as int,
            n.span.end as int,
        ) + forest(ns.subrange(1, ns.len() as int), depth, ps, pe)
    }
}

/// The visit of a node followed by the visits of its descendants.
pub open spec fn subtree(v: Visit) -> Seq<Visit> {
    seq![v] + forest(v.0.children@, v.1 + 1, v.0.span.start as int, v.0.span.end as int)
}

/// The visits still to make for a stack of pending nodes, top (last) first.
pub open spec fn stack_visits(ps: Seq<Visit>) -> Seq<Visit>
    decreases ps.len(),
{
    if ps.len() == 0 {
        seq![]
    } else {
        subtree(ps.last()) + stack_visits(ps.drop_last())
    }
}

/// The node's span is in order, inside its parent's span and on character
/// boundaries of the source, and the node is well shaped.
pub open spec fn visit_ok(v: Visit, src: Seq<u8>) -> bool {
    let s = v.0.span.start as int;
    let e = v.0.span.end as int;
    &&& s <= e
    &&& v.2 <= s
    &&& e <= v.3
    &&& is_char_boundary(src, s)
    &&& is_char_boundary(src, e)
    &&& shape_ok(v.0.kind, v.0.children@.len() > 0)
}

/// The outcome of checking the visits in order, with `scheduled` nodes known
/// so far (top-level nodes and the children of visited nodes): a visit too
/// deep, or one that schedules more than the node limit, is a resource error;
/// a malformed visit is an invalid node.
pub open spec fn check_visits(vs: Seq<Visit>, scheduled: int, src: Seq<u8>) -> Result<(), &'static str>
    decreases vs.len(),
{
    if vs.len() == 0 {
        Ok(())
    } else {
        let v = vs[0];
        if v.1 > MAX_DEPTH {
            Err("resource_limit")
        } else if !visit_ok(v, src) {
            Err("invalid_node")
        } else if scheduled + v.0.children@.len() > MAX_NODES {
            Err("resource_limit")
        } else {
            check_visits(vs.drop_first(), scheduled + v.0.children@.len(), src)
        }
    }
}

/// Visits of `ns[from..]` at one depth and parent span, last node first:
/// the order in which they are pushed onto a stack.
pub open spec fn reversed_visits(ns: Seq<Node>, from: int, depth: int, s: int, e: int) -> Seq<Visit> {
    Seq::new((ns.len() - from) as nat, |j: int| (ns[ns.len() - 1 - j], depth, s, e))
}

/// Pushing nodes in reverse onto a stack makes their preorder visits come next.
proof fn lemma_push_reversed(ps: Seq<Visit>, ns: Seq<Node>, depth: int, s: int, e: int)
    ensures
        stack_visits(ps + reversed_visits(ns, 0, depth, s, e)) == forest(ns, depth, s, e)
            + stack_visits(ps),
    decreases ns.len(),
{
    let pushed = reversed_visits(ns, 0, depth, s, e);
    if ns.len() == 0 {
        assert(ps + pushed =~= ps);
        assert(forest(ns, depth, s, e) =~= Seq::<Visit>::empty());
        assert(forest(ns, depth, s, e) + stack_visits(ps) =~= stack_visits(ps));
    } else {
        let rest = ns.subrange(1, ns.len() as int);
        let pushed_rest = reversed_visits(rest, 0, depth, s, e);
        lemma_push_reversed(ps, rest, depth, s, e);
        let all = ps + pushed;
        assert(all.last() == (ns[0], depth, s, e));
        assert(all.drop_last() =~= ps + pushed_rest);
        assert(forest(ns, depth, s, e) + stack_visits(ps) =~= subtree((ns[0], depth, s, e)) + (
        forest(rest, depth, s, e) + stack_visits(ps)));
    }
}

/// The node references of a stack of pending visits, as visits.
pub open spec fn pending_visits(ps: Seq<(&Node, usize, Range<usize>)>) -> Seq<Visit> {
    ps.map_values(|p: (&Node, usize, Range<usize>)| (*p.0, p.1 as int, p.2.start as int, p.2.end as int))
}

/// Checks a document in preorder before any handler runs, and returns its
/// nodes in preorder. Checks apply to every node, registered or not.
pub fn validated(document: &Document) -> (r: Result<Vec<&Node>, &'static str>)
    ensures
        ({
            let src = encode_utf8(document.source@);
            let roots = document.children@;
            let visits = forest(roots, 1, 0, src.len() as int);
            if src.len() > MAX_SOURCE_BYTES || roots.len() > MAX_NODES {
                r == Err::<Vec<&Node>, &'static str>("resource_limit")
            } else {
                &&& (r is Ok <==> check_visits(visits, roots.len() as int, src) is Ok)
                &&& (r matches Err(e) ==> check_visits(visits, roots.len() as int, src) == Err::<(), &'static str>(e))
                &&& (r matches Ok(v) ==> v@.len() == visits.len() && forall|k: int|
                    0 <= k < visits.len() ==> *#[trigger] v@[k] == visits[k].0)
            }
        }),
{
    let source = document.source.as_str();
    let bytes = source.as_bytes();
    let ghost src = encode_utf8(document.source@);
    let ghost roots = document.children@;
    if bytes.len() > MAX_SOURCE_BYTES || document.children.len() > MAX_NODES {
        return Err("resource_limit");
    }
    let ghost visits = forest(roots, 1, 0, src.len() as int);
    let mut scheduled: usize = document.children.len();
    let mut nodes: Vec<&Node> = Vec::new();
    let mut pending: Vec<(&Node, usize, Range<usize>)> = Vec::new();
    let n = document.children.len();
    let mut k: usize = n;
    while k > 0
        invariant
            n == roots.len(),
            roots == document.children@,
            0 <= k <= n,
            pending_visits(pending@) == reversed_visits(roots, k as int, 1, 0, src.len() as int),
            src == bytes@,
            forall|j: int| 0 <= j < pending@.len() ==> #[trigger] pending@[j].1 == 1,
        decreases k,
    {
        k -= 1;
        let ghost prev = pending@;
        pending.push((&document.children[k], 1, 0..bytes.len()));
        proof {
            assert(pending@ == prev.push((&document.children@[k as int], 1usize, 0..bytes.len())));
            let pv = pending_visits(pending@);
            let rv = reversed_visits(roots, k as int, 1, 0, src.len() as int);
            let old_rv = reversed_visits(roots, k + 1, 1, 0, src.len() as int);
            assert(pending_visits(prev) == old_rv);
            assert(pending_visits(prev).len() == prev.len());
            assert(old_rv.len() == n - k - 1);
            assert(prev.len() == n - k - 1);
            assert(pv.len() == rv.len());
            assert forall|j: int| 0 <= j < pv.len() implies pv[j] == rv[j] by {
                if j < prev.len() {
                    assert(pending@[j] == prev[j]);
                    assert(pv[j] == pending_visits(prev)[j]);
                    assert(old_rv[j] == rv[j]);
                } else {
                    assert(pending@[j] == (&document.children@[k as int], 1usize, 0..bytes.len()));
                }
            }
            assert(pv =~= rv);
        }
    }
    proof {
        lemma_push_reversed(seq![], roots, 1, 0, src.len() as int);
        assert(Seq::<Visit>::empty() + reversed_visits(roots, 0, 1, 0, src.len() as int)
            =~= pending_visits(pending@));
        assert(stack_visits(Seq::<Visit>::empty()) =~= Seq::<Visit>::empty());
        assert(visits + stack_visits(Seq::<Visit>::empty()) =~= visits);
    }
    while pending.len() > 0
        invariant
            src == source.spec_bytes(),
            src == encode_utf8(document.source@),
            roots == document.children@,
            src.len() <= MAX_SOURCE_BYTES,
            roots.len() <= MAX_NODES,
            visits == forest(roots, 1, 0, src.len() as int),
            scheduled <= MAX_NODES,
            nodes@.len() <= visits.len(),
            visits == visits.take(nodes@.len() as int) + stack_visits(pending_visits(pending@)),
            forall|j: int| 0 <= j < nodes@.len() ==> *#[trigger] nodes@[j] == visits[j].0,
            check_visits(visits, roots.len() as int, src) == check_visits(
                stack_visits(pending_visits(pending@)),
                scheduled as int,
                src,
            ),
            forall|j: int| 0 <= j < pending@.len() ==> #[trigger] pending@[j].1 <= MAX_DEPTH + 1,
        decreases stack_visits(pending_visits(pending@)).len(),
    {
        let ghost before = pending_visits(pending@);
        let ghost before_raw = pending@;
        let (node, depth, parent) = pending.pop().unwrap();
        let ghost top = (*node, depth as int, parent.start as int, parent.end as int);
        proof {
            assert(before_raw.last() == (node, depth, parent));
            assert(before.last() == top);
            assert(before.drop_last() =~= pending_visits(pending@));
            assert(stack_visits(before) == subtree(top) + stack_visits(pending_visits(pending@)));
            assert(stack_visits(before)[0] == top);
            assert(stack_visits(before).drop_first() =~= forest(node.children@, depth + 1, node.span.start as int, node.span.end as int) + stack_visits(pending_visits(pending@)));
        }
        proof {
            let sv = stack_visits(before);
            assert(sv.len() > 0);
            assert(check_visits(visits, roots.len() as int, src) == check_visits(sv, scheduled as int, src));
        }
        if depth > MAX_DEPTH {
            proof {
                let sv = stack_visits(before);
                assert(sv[0].1 > MAX_DEPTH);
                assert(check_visits(sv, scheduled as int, src) == Err::<(), &'static str>("resource_limit"));
            }
            return Err("resource_limit");
        }
        let span = node.span;
        if span.start > span.end || span.start < parent.start || span.end > parent.end
            || !source.is_char_boundary(span.start) || !source.is_char_boundary(span.end)
            || !node.kind.valid_shape(!node.children.is_empty()) {
            proof {
                let sv = stack_visits(before);
                assert(!visit_ok(sv[0], src));
                assert(check_visits(sv, scheduled as int, src) == Err::<(), &'static str>("invalid_node"));
            }
            return Err("invalid_node");
        }
        let count = node.children.len();
        scheduled = scheduled.saturating_add(count);
        if scheduled > MAX_NODES {
            return Err("resource_limit");
        }
        nodes.push(node);
        let ghost rest = pending@;
        let mut c: usize = count;
        while c > 0
            invariant
                0 <= c <= count,
                count == node.children@.len(),
                depth <= MAX_DEPTH,
                pending@.len() >= rest.len(),
                pending@.subrange(0, rest.len() as int) == rest,
                pending_visits(pending@) == pending_visits(rest) + reversed_visits(node.children@, c as int, depth as int + 1, span.start as int, span.end as int),
                forall|j: int| 0 <= j < pending@.len() ==> #[trigger] pending@[j].1 <= MAX_DEPTH + 1,
            decreases c,
        {
            c -= 1;
            let ghost prev = pending@;
            pending.push((&node.children[c], depth + 1, span.start..span.end));
            proof {
                assert(pending@ == prev.push((&node.children@[c as int], (depth + 1) as usize, span.start..span.end)));
                let pv = pending_visits(pending@);
                let rv = pending_visits(rest) + reversed_visits(node.children@, c as int, depth as int + 1, span.start as int, span.end as int);
                let old_rv = pending_visits(rest) + reversed_visits(node.children@, c + 1, depth as int + 1, span.start as int, span.end as int);
                assert(pending_visits(prev) == old_rv);
                assert(pending_visits(prev).len() == prev.len());
                assert(pv.len() == pending@.len());
                assert(pv.len() == rv.len());
                assert forall|j: int| 0 <= j < pv.len() implies pv[j] == rv[j] by {
                    if j < prev.len() {
                        assert(pending@[j] == prev[j]);
                        assert(pv[j] == pending_visits(prev)[j]);
                        assert(old_rv[j] == rv[j]);
                    } else {
                        assert(pending@[j] == (&node.children@[c as int], (depth + 1) as usize, span.start..span.end));
                    }
                }
                assert(pv =~= rv);
            }
        }
        proof {
            lemma_push_reversed(pending_visits(rest), node.children@, depth as int + 1, span.start as int, span.end as int);
            assert(stack_visits(pending_visits(pending@)) == stack_visits(before).drop_first());
            let done = nodes@.len() - 1;
            assert(visits.take(nodes@.len() as int) =~= visits.take(done).push(top));
            assert(visits =~= visits.take(nodes@.len() as int) + stack_visits(pending_visits(pending@)));
        }
    }
    Ok(nodes)
}

} // verus!
