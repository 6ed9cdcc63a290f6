//! The checks a document passes before it is encoded as JSON: limits on the
//! source, the node count and the depth, spans that nest on character
//! boundaries, and well-shaped nodes. Every node counts, including subtrees a
//! renderer may hide. Nodes are taken from a stack of pending nodes, so each
//! node's children are checked last one first.
use crate::ast::{shape_ok, Document, Node};
use crate::validation::Visit;
use std::ops::Range;
use vstd::prelude::*;
use vstd::string::StringSliceAdditionalSpecFns;
use vstd::utf8::{encode_utf8, is_char_boundary};

verus! {

broadcast use vstd::seq::group_seq_axioms;

/// Limits on a document to encode.
#[derive(Debug, Clone, Copy, PartialEq, Eq, Structural)]
pub struct DecodeLimits {
    /// Most source bytes.
    pub source_bytes: usize,
    /// Most nodes in the whole tree.
    pub nodes: usize,
    /// Deepest nesting; top-level nodes have depth 1.
    pub depth: usize,
    /// Most bytes of JSON output.
    pub json_bytes: usize,
}

/// The visits of `ns` and their descendants when the nodes sit on a stack in
/// order: the last node first, each followed by its own descendants in the
/// same order.
pub open spec fn stacked_forest(ns: Seq<Node>, depth: int, ps: int, pe: int) -> Seq<Visit>
    decreases ns,
{
    if ns.len() == 0 {
        seq![]
    } else {
        let n = ns[ns.len() - 1];
        seq![(n, depth, ps, pe)] + stacked_forest(
            n.children@,
            depth + 1,
            n.span.start as int,
            n.span.end as int,
        ) + stacked_forest(ns.subrange(0, ns.len() - 1), depth, ps, pe)
    }
}

/// The visits still to make for a stack of pending visits, top (last) first.
pub open spec fn stacked(ps: Seq<Visit>) -> Seq<Visit>
    decreases ps.len(),
{
    if ps.len() == 0 {
        seq![]
    } else {
        let v = ps.last();
        seq![v] + stacked_forest(v.0.children@, v.1 + 1, v.0.span.start as int, v.0.span.end as int)
            + stacked(ps.drop_last())
    }
}

/// Visits of the nodes `ns` at one depth and parent span, in order.
pub open spec fn level_visits(ns: Seq<Node>, depth: int, s: int, e: int) -> Seq<Visit> {
    Seq::new(ns.len(), |j: int| (ns[j], depth, s, e))
}

/// The span is in order, inside the parent's span and on character boundaries.
pub open spec fn span_ok(v: Visit, src: Seq<u8>) -> bool {
    let s = v.0.span.start as int;
    let e = v.0.span.end as int;
    &&& s <= e
    &&& v.2 <= s
    &&& e <= v.3
    &&& is_char_boundary(src, s)
    &&& is_char_boundary(src, e)
}

/// The outcome of checking the visits in order after `count` earlier visits:
/// one node too many, a node too deep, a bad span or a malformed node stops
/// the check with its message.
pub open spec fn encode_checks(vs: Seq<Visit>, count: int, limits: DecodeLimits, src: Seq<u8>) -> Result<
    (),
    &'static str,
>
    decreases vs.len(),
{
    if vs.len() == 0 {
        Ok(())
    } else {
        let v = vs[0];
        if count + 1 > limits.nodes {
            Err("node limit")
        } else if v.1 > limits.depth {
            Err("depth limit")
        } else if !span_ok(v, src) {
            Err("invalid span")
        } else if !shape_ok(v.0.kind, v.0.children@.len() > 0) {
            Err("invalid node shape")
        } else {
            encode_checks(vs.drop_first(), count + 1, limits, src)
        }
    }
}

/// Pushing nodes in order onto a stack makes their stacked visits come next.
pub(crate) proof fn lemma_push_in_order(ps: Seq<Visit>, ns: Seq<Node>, depth: int, s: int, e: int)
    ensures
        stacked(ps + level_visits(ns, depth, s, e)) == stacked_forest(ns, depth, s, e) + stacked(ps),
    decreases ns.len(),
{
    let pushed = level_visits(ns, depth, s, e);
    if ns.len() == 0 {
        assert(ps + pushed =~= ps);
        assert(stacked_forest(ns, depth, s, e) =~= Seq::<Visit>::empty());
        assert(stacked_forest(ns, depth, s, e) + stacked(ps) =~= stacked(ps));
    } else {
        let init = ns.subrange(0, ns.len() - 1);
        lemma_push_in_order(ps, init, depth, s, e);
        let all = ps + pushed;
        let n = ns[ns.len() - 1];
        assert(all.last() == (n, depth, s, e));
        assert(all.drop_last() =~= ps + level_visits(init, depth, s, e));
        let sub = stacked_forest(n.children@, depth + 1, n.span.start as int, n.span.end as int);
        assert(stacked(all) == seq![(n, depth, s, e)] + sub + stacked(all.drop_last()));
        assert(stacked_forest(ns, depth, s, e) + stacked(ps) =~= seq![(n, depth, s, e)] + sub + (
        stacked_forest(init, depth, s, e) + stacked(ps)));
    }
}

/// The pending nodes of a stack, as visits.
pub open spec fn pending_as_visits(ps: Seq<(&Node, usize, Range<usize>)>) -> Seq<Visit> {
    ps.map_values(|p: (&Node, usize, Range<usize>)| (*p.0, p.1 as int, p.2.start as int, p.2.end as int))
}

/// Checks a document before it is encoded: the source within
/// `limits.source_bytes` (else `source byte limit`), then every node taken
/// from a stack of pending nodes, with the first failure reported.
pub fn check_encodable(document: &Document, limits: DecodeLimits) -> (r: Result<(), &'static str>)
    requires
        limits.depth < usize::MAX,
    ensures
        ({
            let src = encode_utf8(document.source@);
            if src.len() > limits.source_bytes {
                r == Err::<(), &'static str>("source byte limit")
            } else {
                r == encode_checks(
                    stacked_forest(document.children@, 1, 0, src.len() as int),
                    0,
                    limits,
                    src,
                )
            }
        }),
{
    let source = document.source.as_str();
    let bytes = source.as_bytes();
    let ghost src = encode_utf8(document.source@);
    let ghost roots = document.children@;
    if bytes.len() > limits.source_bytes {
        return Err("source byte limit");
    }
    let ghost goal = encode_checks(stacked_forest(roots, 1, 0, src.len() as int), 0, limits, src);
    let mut pending: Vec<(&Node, usize, Range<usize>)> = Vec::new();
    let n = document.children.len();
    let mut k: usize = 0;
    while k < n
        invariant
            n == roots.len(),
            roots == document.children@,
            0 <= k <= n,
            src == bytes@,
            pending_as_visits(pending@) == level_visits(roots.subrange(0, k as int), 1, 0, src.len() as int),
            forall|j: int| 0 <= j < pending@.len() ==> #[trigger] pending@[j].1 == 1,
        decreases n - k,
    {
        let ghost prev = pending@;
        pending.push((&document.children[k], 1, 0..bytes.len()));
        proof {
            assert(pending@ == prev.push((&document.children@[k as int], 1usize, 0..bytes.len())));
            let x = (roots[k as int], 1int, 0int, src.len() as int);
            assert(pending_as_visits(pending@) =~= pending_as_visits(prev).push(x));
            assert(level_visits(roots.subrange(0, k + 1), 1, 0, src.len() as int) =~= level_visits(
                roots.subrange(0, k as int),
                1,
                0,
                src.len() as int,
            ).push(x));
            assert(pending_as_visits(pending@) =~= level_visits(
                roots.subrange(0, k + 1),
                1,
                0,
                src.len() as int,
            ));
        }
        k += 1;
    }
    proof {
        assert(roots.subrange(0, n as int) =~= roots);
        lemma_push_in_order(seq![], roots, 1, 0, src.len() as int);
        assert(Seq::<Visit>::empty() + level_visits(roots, 1, 0, src.len() as int) =~= pending_as_visits(
            pending@,
        ));
        assert(stacked(Seq::<Visit>::empty()) =~= Seq::<Visit>::empty());
        assert(stacked_forest(roots, 1, 0, src.len() as int) + Seq::<Visit>::empty() =~= stacked_forest(
            roots,
            1,
            0,
            src.len() as int,
        ));
    }
    let mut count: usize = 0;
    while pending.len() > 0
        invariant
            src == source.spec_bytes(),
            src == encode_utf8(document.source@),
            roots == document.children@,
            src.len() <= limits.source_bytes,
            limits.depth < usize::MAX,
            count <= limits.nodes,
            goal == encode_checks(stacked_forest(roots, 1, 0, src.len() as int), 0, limits, src),
            goal == encode_checks(stacked(pending_as_visits(pending@)), count as int, limits, src),
            forall|j: int| 0 <= j < pending@.len() ==> #[trigger] pending@[j].1 <= limits.depth + 1,
        decreases stacked(pending_as_visits(pending@)).len(),
    {
        let ghost before = pending_as_visits(pending@);
        let ghost before_raw = pending@;
        let (node, depth, parent) = pending.pop().unwrap();
        let ghost top = (*node, depth as int, parent.start as int, parent.end as int);
        let ghost sub = stacked_forest(node.children@, depth + 1, node.span.start as int, node.span.end as int);
        proof {
            assert(before_raw.last() == (node, depth, parent));
            assert(before.last() == top);
            assert(before.drop_last() =~= pending_as_visits(pending@));
            assert(stacked(before) == seq![top] + sub + stacked(pending_as_visits(pending@)));
            assert(stacked(before)[0] == top);
            assert(stacked(before).drop_first() =~= sub + stacked(pending_as_visits(pending@)));
        }
        if count >= limits.nodes {
            return Err("node limit");
        }
        count += 1;
        if depth > limits.depth {
            return Err("depth limit");
        }
        let span = node.span;
        if span.start > span.end || span.start < parent.start || span.end > parent.end
            || !source.is_char_boundary(span.start) || !source.is_char_boundary(span.end) {
            proof {
                assert(!span_ok(top, src));
            }
            return Err("invalid span");
        }
        if !node.kind.valid_shape(!node.children.is_empty()) {
            return Err("invalid node shape");
        }
        let ghost rest = pending@;
        let mut c: usize = 0;
        let m = node.children.len();
        while c < m
            invariant
                0 <= c <= m,
                m == node.children@.len(),
                depth <= limits.depth,
                limits.depth < usize::MAX,
                pending_as_visits(pending@) == pending_as_visits(rest) + level_visits(
                    node.children@.subrange(0, c as int),
                    depth as int + 1,
                    span.start as int,
                    span.end as int,
                ),
                forall|j: int| 0 <= j < rest.len() ==> #[trigger] pending@[j] == rest[j],
                pending@.len() == rest.len() + c,
                forall|j: int| 0 <= j < rest.len() ==> #[trigger] rest[j].1 <= limits.depth + 1,
                forall|j: int| 0 <= j < pending@.len() ==> #[trigger] pending@[j].1 <= limits.depth + 1,
            decreases m - c,
        {
            let ghost prev = pending@;
            pending.push((&node.children[c], depth + 1, span.start..span.end));
            proof {
                assert(pending@ == prev.push((&node.children@[c as int], (depth + 1) as usize, span.start..span.end)));
                let x = (node.children@[c as int], depth as int + 1, span.start as int, span.end as int);
                assert(pending_as_visits(pending@) =~= pending_as_visits(prev).push(x));
                assert(level_visits(node.children@.subrange(0, c + 1), depth as int + 1, span.start as int, span.end as int)
                    =~= level_visits(node.children@.subrange(0, c as int), depth as int + 1, span.start as int, span.end as int).push(x));
                assert(pending_as_visits(pending@) =~= pending_as_visits(rest) + level_visits(
                    node.children@.subrange(0, c + 1),
                    depth as int + 1,
                    span.start as int,
                    span.end as int,
                ));
            }
            c += 1;
        }
        proof {
            assert(node.children@.subrange(0, m as int) =~= node.children@);
            lemma_push_in_order(pending_as_visits(rest), node.children@, depth as int + 1, span.start as int, span.end as int);
            assert(stacked(pending_as_visits(pending@)) == stacked(before).drop_first());
        }
    }
    proof {
        assert(pending_as_visits(pending@) =~= Seq::<Visit>::empty());
    }
    Ok(())
}


/// Bytes left under `limit` after `used` bytes; none once past it.
pub open spec fn room(used: nat, limit: usize) -> int {
    if used > limit {
        0
    } else {
        limit - used
    }
}

/// JSON output collected under a byte limit.
pub struct LimitedOutput {
    pub bytes: Vec<u8>,
    pub limit: usize,
}

impl LimitedOutput {
    /// Appends `bytes` when they fit in the room left under the limit, and returns
    /// how many were written; otherwise writes nothing and fails with
    /// `json byte limit`.
    pub fn write(&mut self, bytes: &[u8]) -> (r: Result<usize, &'static str>)
        ensures
            final(self).limit == old(self).limit,
            if bytes@.len() > room(old(self).bytes@.len(), old(self).limit) {
                &&& r == Err::<usize, &'static str>("json byte limit")
                &&& final(self).bytes@ == old(self).bytes@
            } else {
                &&& r == Ok::<usize, &'static str>(bytes@.len() as usize)
                &&& final(self).bytes@ == old(self).bytes@ + bytes@
            },
    {
        if bytes.len() > self.limit.saturating_sub(self.bytes.len()) {
            return Err("json byte limit");
        }
        let mut k: usize = 0;
        let ghost start = self.bytes@;
        while k < bytes.len()
            invariant
                0 <= k <= bytes@.len(),
                self.bytes@ == start + bytes@.subrange(0, k as int),
                self.limit == old(self).limit,
                start == old(self).bytes@,
            decreases bytes@.len() - k,
        {
            self.bytes.push(bytes[k]);
            proof {
                assert(bytes@.subrange(0, k + 1) =~= bytes@.subrange(0, k as int).push(bytes@[k as int]));
            }
            k += 1;
        }
        proof {
            assert(bytes@.subrange(0, bytes@.len() as int) =~= bytes@);
        }
        Ok(bytes.len())
    }
}

} // verus!
