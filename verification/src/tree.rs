//! Building the inline tree from tokens: openers and closers nest nodes,
//! text becomes text nodes, and text that follows a text node is appended to
//! it. Every token spends one unit of work and every opener checks the
//! nesting depth.
use crate::ast::{Node, NodeKind, Span};
use crate::budget::Budget;
use crate::error::ParseError;
use crate::source::SourceView;
use crate::tokens::{Token, TokenKind};
use vstd::prelude::*;
use vstd::string::StringExecFns;
use vstd::utf8::{encode_scalar, encode_utf8};

verus! {

broadcast use vstd::seq::group_seq_axioms;

/// Tokens that give the tree its shape: a finished node with its children,
/// an opener that starts a node of the given kind, and a closer that ends
/// the innermost open node.
pub enum Structure {
    Atom(NodeKind, Vec<Node>),
    Open(NodeKind),
    Close,
}

/// A node kind, with a text node's text as characters.
pub enum TreeKind {
    Text(Seq<char>),
    Other(NodeKind),
}

/// A node as its span, kind and children.
pub enum TreeView {
    Node { span: Span, kind: TreeKind, children: Seq<TreeView> },
}

/// The kind of a node as a tree kind.
pub open spec fn kind_view(k: NodeKind) -> TreeKind {
    match k {
        NodeKind::Text { value } => TreeKind::Text(value@),
        other => TreeKind::Other(other),
    }
}

/// A node and its descendants as a tree view.
pub open spec fn node_view(n: Node) -> TreeView
    decreases n, n.children@.len() + 1,
{
    TreeView::Node { span: n.span, kind: kind_view(n.kind), children: children_view(n, 0) }
}

/// The views of the children of `n` from position `i` on.
pub open spec fn children_view(n: Node, i: int) -> Seq<TreeView>
    decreases n, n.children@.len() - i,
{
    if i < 0 || i >= n.children@.len() {
        seq![]
    } else {
        proof {
            assert(decreases_to!(n => n.children@[i]));
        }
        seq![node_view(n.children@[i])] + children_view(n, i + 1)
    }
}

/// The views of a sequence of nodes.
pub open spec fn forest_view(ns: Seq<Node>) -> Seq<TreeView> {
    ns.map_values(|n: Node| node_view(n))
}

proof fn lemma_children_view(n: Node, i: int)
    requires
        0 <= i <= n.children@.len(),
    ensures
        children_view(n, i) == forest_view(n.children@).subrange(i, n.children@.len() as int),
    decreases n.children@.len() - i,
{
    if i < n.children@.len() {
        lemma_children_view(n, i + 1);
        assert(forest_view(n.children@).subrange(i, n.children@.len() as int) =~= seq![node_view(
            n.children@[i],
        )] + forest_view(n.children@).subrange(i + 1, n.children@.len() as int));
    } else {
        assert(forest_view(n.children@).subrange(i, n.children@.len() as int) =~= Seq::<TreeView>::empty());
    }
}

/// The view of a node made from its parts.
proof fn lemma_node_view(n: Node)
    ensures
        node_view(n) == (TreeView::Node {
            span: n.span,
            kind: kind_view(n.kind),
            children: forest_view(n.children@),
        }),
{
    lemma_children_view(n, 0);
    assert(forest_view(n.children@).subrange(0, n.children@.len() as int) =~= forest_view(n.children@));
}

/// The state of building: open nodes (kind, start, the children before
/// them), the children of the innermost open node, and work spent.
pub type BuildState = (Seq<(NodeKind, usize, Seq<TreeView>)>, Seq<TreeView>, nat);

/// Adds a node to the children: a text node that follows a text node is
/// appended to it, its span extended to the new end.
pub open spec fn add_node(children: Seq<TreeView>, node: TreeView) -> Seq<TreeView> {
    match node {
        TreeView::Node { span, kind: TreeKind::Text(v), .. } => if children.len() > 0
            && children.last()->kind is Text {
            let last = children.last();
            children.drop_last().push(
                TreeView::Node {
                    span: Span { start: last->span.start, end: span.end },
                    kind: TreeKind::Text(last->kind->Text_0 + v),
                    children: last->children,
                },
            )
        } else {
            children.push(node)
        },
        _ => children.push(node),
    }
}

/// One token's effect on the building state.
pub open spec fn build_step(st: BuildState, t: Token<Structure>, o: Seq<usize>, work_limit: nat, depth_limit: nat) -> Result<
    BuildState,
    ParseError,
> {
    let (stack, children, work) = st;
    if work + 1 > work_limit {
        Err(ParseError::Limit { limit: "work" })
    } else {
        let w = (work + 1) as nat;
        let here = Span { start: o[t.start as int], end: o[t.end as int] };
        match t.kind {
            TokenKind::Empty => Ok((stack, children, w)),
            TokenKind::Text(v) => if v@.len() == 0 {
                Ok((stack, children, w))
            } else {
                Ok(
                    (
                        stack,
                        add_node(
                            children,
                            TreeView::Node { span: here, kind: TreeKind::Text(v@), children: seq![] },
                        ),
                        w,
                    ),
                )
            },
            TokenKind::Marker(v) => if v@.len() == 0 {
                Ok((stack, children, w))
            } else {
                Ok(
                    (
                        stack,
                        add_node(
                            children,
                            TreeView::Node { span: here, kind: TreeKind::Text(v@), children: seq![] },
                        ),
                        w,
                    ),
                )
            },
            TokenKind::Other(Structure::Atom(kind, nested)) => Ok(
                (
                    stack,
                    add_node(
                        children,
                        TreeView::Node { span: here, kind: kind_view(kind), children: forest_view(nested@) },
                    ),
                    w,
                ),
            ),
            TokenKind::Other(Structure::Open(kind)) => if stack.len() + 1 > depth_limit {
                Err(ParseError::Limit { limit: "depth" })
            } else {
                Ok((stack.push((kind, t.start, children)), seq![], w))
            },
            TokenKind::Other(Structure::Close) => if stack.len() == 0 {
                Err(ParseError::InternalError)
            } else {
                let (kind, start, previous) = stack.last();
                Ok(
                    (
                        stack.drop_last(),
                        previous.push(
                            TreeView::Node {
                                span: Span { start: o[start as int], end: o[t.end as int] },
                                kind: kind_view(kind),
                                children,
                            },
                        ),
                        w,
                    ),
                )
            },
        }
    }
}

/// The building state after the tokens `ts`, from `work` spent.
pub open spec fn build_prefix(ts: Seq<Token<Structure>>, o: Seq<usize>, work: nat, work_limit: nat, depth_limit: nat) -> Result<
    BuildState,
    ParseError,
>
    decreases ts.len(),
{
    if ts.len() == 0 {
        Ok((seq![], seq![], work))
    } else {
        match build_prefix(ts.drop_last(), o, work, work_limit, depth_limit) {
            Err(e) => Err(e),
            Ok(st) => build_step(st, ts.last(), o, work_limit, depth_limit),
        }
    }
}

/// The tree built from `ts`, with the work spent: an opener left open is an
/// internal error.
pub open spec fn built(ts: Seq<Token<Structure>>, o: Seq<usize>, work: nat, work_limit: nat, depth_limit: nat) -> Result<
    (Seq<TreeView>, nat),
    ParseError,
> {
    match build_prefix(ts, o, work, work_limit, depth_limit) {
        Err(e) => Err(e),
        Ok((stack, children, w)) => if stack.len() > 0 {
            Err(ParseError::InternalError)
        } else {
            Ok((children, w))
        },
    }
}

/// The views of the open nodes on the building stack.
pub open spec fn stack_view(s: Seq<(NodeKind, usize, Vec<Node>)>) -> Seq<(NodeKind, usize, Seq<TreeView>)> {
    s.map_values(|f: (NodeKind, usize, Vec<Node>)| (f.0, f.1, forest_view(f.2@)))
}

/// Adds a node to `children`, appending a text node to a text node before it.
fn add_child(children: &mut Vec<Node>, node: Node)
    ensures
        forest_view(final(children)@) == add_node(forest_view(old(children)@), node_view(node)),
{
    proof {
        lemma_node_view(node);
    }
    let ghost before = forest_view(children@);
    let joins = match &node.kind {
        NodeKind::Text { .. } => match children.last() {
            Some(last) => match &last.kind {
                NodeKind::Text { .. } => true,
                _ => false,
            },
            None => false,
        },
        _ => false,
    };
    if joins {
        let last = children.pop().unwrap();
        proof {
            lemma_node_view(last);
            assert(forest_view(children@) =~= before.drop_last());
            assert(before.last() == node_view(last));
        }
        let Node { span, kind, children: grand } = last;
        let Node { span: new_span, kind: new_kind, children: _ } = node;
        match (kind, new_kind) {
            (NodeKind::Text { value: previous }, NodeKind::Text { value }) => {
                let mut text = previous;
                text.append(value.as_str());
                let merged = Node::new(Span { start: span.start, end: new_span.end }, NodeKind::Text { value: text }, grand);
                proof {
                    lemma_node_view(merged);
                }
                children.push(merged);
                proof {
                    assert(forest_view(children@) =~= before.drop_last().push(node_view(merged)));
                }
            },
            _ => {},
        }
    } else {
        children.push(node);
        proof {
            assert(forest_view(children@) =~= before.push(node_view(node)));
        }
    }
}

/// An error in a prefix of the tokens is the error of them all.
proof fn lemma_prefix_err(ts: Seq<Token<Structure>>, k: int, o: Seq<usize>, work: nat, work_limit: nat, depth_limit: nat)
    requires
        0 <= k <= ts.len(),
        build_prefix(ts.take(k), o, work, work_limit, depth_limit) is Err,
    ensures
        build_prefix(ts, o, work, work_limit, depth_limit) == build_prefix(ts.take(k), o, work, work_limit, depth_limit),
    decreases ts.len() - k,
{
    if k == ts.len() {
        assert(ts.take(k) =~= ts);
    } else {
        assert(ts.take(k + 1).drop_last() =~= ts.take(k));
        lemma_prefix_err(ts, k + 1, o, work, work_limit, depth_limit);
    }
}

/// Text is empty exactly when its bytes are.
proof fn lemma_empty_text(s: Seq<char>)
    ensures
        encode_utf8(s).len() == 0 <==> s.len() == 0,
{
    if s.len() > 0 {
        assert(encode_scalar(s[0] as u32).len() >= 1);
    }
}

/// Nodes `k` and `k + 1` of `s` are both text nodes.
pub open spec fn adjacent_text(s: Seq<TreeView>, k: int) -> bool {
    &&& s[k]->kind is Text
    &&& s[k + 1]->kind is Text
}

/// No two nodes side by side in `s` are both text nodes.
pub open spec fn text_merged(s: Seq<TreeView>) -> bool {
    forall|k: int| 0 <= k < s.len() - 1 ==> !#[trigger] adjacent_text(s, k)
}

/// No opener of `ts` opens a text node.
pub open spec fn no_text_openers(ts: Seq<Token<Structure>>) -> bool {
    forall|k: int|
        0 <= k < ts.len() ==> !((#[trigger] ts[k]).kind matches TokenKind::Other(
            Structure::Open(NodeKind::Text { .. }),
        ))
}

/// Adding a node keeps text nodes merged.
proof fn lemma_add_node_merged(children: Seq<TreeView>, node: TreeView)
    requires
        text_merged(children),
    ensures
        text_merged(add_node(children, node)),
{
    let r = add_node(children, node);
    if node->kind is Text && children.len() > 0 && children.last()->kind is Text {
        assert forall|k: int| 0 <= k < r.len() - 1 implies !#[trigger] adjacent_text(r, k) by {
            assert(r[k] == children[k]);
            if k + 1 < children.len() - 1 {
                assert(r[k + 1] == children[k + 1]);
                assert(!adjacent_text(children, k));
            } else {
                assert(!adjacent_text(children, k));
            }
        }
    } else {
        assert(r == children.push(node));
        assert forall|k: int| 0 <= k < r.len() - 1 implies !#[trigger] adjacent_text(r, k) by {
            if k < children.len() - 1 {
                assert(!adjacent_text(children, k));
            }
        }
    }
}

/// While building, the children of the innermost open node and those kept
/// for every open node have their text nodes merged, and no open node is a
/// text node.
proof fn lemma_prefix_merged(ts: Seq<Token<Structure>>, o: Seq<usize>, work: nat, work_limit: nat, depth_limit: nat)
    requires
        no_text_openers(ts),
    ensures
        build_prefix(ts, o, work, work_limit, depth_limit) matches Ok((stack, children, w)) ==> {
            &&& text_merged(children)
            &&& forall|f: int| 0 <= f < stack.len() ==> text_merged((#[trigger] stack[f]).2)
            &&& forall|f: int| 0 <= f < stack.len() ==> !((#[trigger] stack[f]).0 is Text)
        },
    decreases ts.len(),
{
    if ts.len() > 0 {
        let init = ts.drop_last();
        assert forall|k: int| 0 <= k < init.len() implies !((#[trigger] init[k]).kind matches TokenKind::Other(
            Structure::Open(NodeKind::Text { .. }),
        )) by {
            assert(init[k] == ts[k]);
        }
        lemma_prefix_merged(init, o, work, work_limit, depth_limit);
        let t = ts.last();
        assert(t == ts[ts.len() - 1]);
        match build_prefix(init, o, work, work_limit, depth_limit) {
            Err(_) => {},
            Ok(st) => {
                let (stack, children, w) = st;
                if w + 1 <= work_limit {
                    let here = Span { start: o[t.start as int], end: o[t.end as int] };
                    match t.kind {
                        TokenKind::Text(v) => {
                            lemma_add_node_merged(
                                children,
                                TreeView::Node { span: here, kind: TreeKind::Text(v@), children: seq![] },
                            );
                        },
                        TokenKind::Marker(v) => {
                            lemma_add_node_merged(
                                children,
                                TreeView::Node { span: here, kind: TreeKind::Text(v@), children: seq![] },
                            );
                        },
                        TokenKind::Other(Structure::Atom(kind, nested)) => {
                            lemma_add_node_merged(
                                children,
                                TreeView::Node { span: here, kind: kind_view(kind), children: forest_view(nested@) },
                            );
                        },
                        TokenKind::Other(Structure::Open(kind)) => {
                            let s2 = stack.push((kind, t.start, children));
                            assert forall|f: int| 0 <= f < s2.len() implies text_merged((#[trigger] s2[f]).2)
                                && !(s2[f].0 is Text) by {
                                if f < stack.len() {
                                    assert(s2[f] == stack[f]);
                                }
                            }
                            assert(text_merged(Seq::<TreeView>::empty()));
                        },
                        TokenKind::Other(Structure::Close) => {
                            if stack.len() > 0 {
                                let (kind, start, previous) = stack.last();
                                assert(stack[stack.len() - 1] == stack.last());
                                assert(text_merged(previous));
                                assert(!(kind is Text));
                                let node = TreeView::Node {
                                    span: Span { start: o[start as int], end: o[t.end as int] },
                                    kind: kind_view(kind),
                                    children,
                                };
                                let r = previous.push(node);
                                assert forall|k: int| 0 <= k < r.len() - 1 implies !#[trigger] adjacent_text(r, k) by {
                                    if k < previous.len() - 1 {
                                        assert(!adjacent_text(previous, k));
                                    }
                                }
                                let s2 = stack.drop_last();
                                assert forall|f: int| 0 <= f < s2.len() implies text_merged((#[trigger] s2[f]).2)
                                    && !(s2[f].0 is Text) by {
                                    assert(s2[f] == stack[f]);
                                }
                            }
                        },
                        TokenKind::Empty => {},
                    }
                }
            },
        }
    }
}

/// What building does with text, whatever the text comes from: when no
/// opener opens a text node, no two nodes side by side in the result are
/// both text nodes, since text after text, from text tokens, markers or
/// text atoms alike, is appended to the text node before it.
pub proof fn lemma_built_text_merged(ts: Seq<Token<Structure>>, o: Seq<usize>, work: nat, work_limit: nat, depth_limit: nat)
    requires
        no_text_openers(ts),
    ensures
        built(ts, o, work, work_limit, depth_limit) matches Ok((children, w)) ==> text_merged(children),
{
    lemma_prefix_merged(ts, o, work, work_limit, depth_limit);
}

/// Builds the tree from `tokens`: each token spends one unit of work, each
/// opener checks the depth it opens, a closer without an opener and an
/// opener left open are internal errors.
pub fn build(tokens: Vec<Token<Structure>>, source: &SourceView, budget: &mut Budget) -> (r: Result<
    Vec<Node>,
    ParseError,
>)
    requires
        source.wf(),
        forall|k: int|
            0 <= k < tokens@.len() ==> (#[trigger] tokens@[k]).start <= source@.text.len()
                && tokens@[k].end <= source@.text.len(),
    ensures
        final(budget).spec_limits() == old(budget).spec_limits(),
        final(budget).spec_tokens() == old(budget).spec_tokens(),
        match built(
            tokens@,
            source@.offsets,
            old(budget).spec_work(),
            old(budget).spec_limits().work as nat,
            old(budget).spec_limits().depth as nat,
        ) {
            Ok((children, work)) => r matches Ok(v) && forest_view(v@) == children
                && final(budget).spec_work() == work,
            Err(e) => r == Err::<Vec<Node>, ParseError>(e),
        },
        r is Ok && no_text_openers(tokens@) ==> forall|k: int|
            0 <= k < r->Ok_0@.len() - 1 ==> !((#[trigger] r->Ok_0@[k]).kind is Text && r->Ok_0@[k + 1].kind is Text),
{
    let ghost all = tokens@;
    let ghost o = source@.offsets;
    let ghost work_limit = budget.spec_limits().work as nat;
    let ghost depth_limit = budget.spec_limits().depth as nat;
    let ghost work0 = budget.spec_work();
    let ghost limits0 = budget.spec_limits();
    let ghost tokens0 = budget.spec_tokens();
    let count = tokens.len();
    assert(count == all.len());
    let mut rest = tokens;
    let mut reversed: Vec<Token<Structure>> = Vec::new();
    while rest.len() > 0
        invariant
            all.len() == rest@.len() + reversed@.len(),
            rest@ == all.take(rest@.len() as int),
            forall|k: int| 0 <= k < reversed@.len() ==> #[trigger] reversed@[k] == all[all.len() - 1 - k],
        decreases rest@.len(),
    {
        let t = rest.pop().unwrap();
        reversed.push(t);
        proof {
            assert(rest@ =~= all.take(rest@.len() as int));
        }
    }
    let mut stack: Vec<(NodeKind, usize, Vec<Node>)> = Vec::new();
    let mut children: Vec<Node> = Vec::new();
    proof {
        assert(all.take(0) =~= Seq::<Token<Structure>>::empty());
        assert(stack_view(stack@) =~= Seq::<(NodeKind, usize, Seq<TreeView>)>::empty());
        assert(forest_view(children@) =~= Seq::<TreeView>::empty());
    }
    while reversed.len() > 0
        invariant
            forall|k: int| 0 <= k < reversed@.len() ==> #[trigger] reversed@[k] == all[all.len() - 1 - k],
            reversed@.len() <= all.len(),
            all == tokens@,
            source.wf(),
            o == source@.offsets,
            forall|k: int|
                0 <= k < all.len() ==> (#[trigger] all[k]).start <= source@.text.len() && all[k].end
                    <= source@.text.len(),
            budget.spec_limits() == limits0,
            budget.spec_tokens() == tokens0,
            limits0 == old(budget).spec_limits(),
            tokens0 == old(budget).spec_tokens(),
            work0 == old(budget).spec_work(),
            work_limit == limits0.work as nat,
            depth_limit == limits0.depth as nat,
            all.len() <= usize::MAX,
            stack@.len() <= all.len() - reversed@.len(),
            forall|k: int| 0 <= k < stack@.len() ==> (#[trigger] stack@[k]).1 <= source@.text.len(),
            build_prefix(all.take(all.len() - reversed@.len()), o, work0, work_limit, depth_limit) == Ok::<
                BuildState,
                ParseError,
            >((stack_view(stack@), forest_view(children@), budget.spec_work())),
        decreases reversed@.len(),
    {
        let ghost done = all.len() - reversed@.len();
        let ghost st = (stack_view(stack@), forest_view(children@), budget.spec_work());
        let token = reversed.pop().unwrap();
        proof {
            assert(token == all[done]);
            assert(all.take(done + 1).drop_last() =~= all.take(done));
            assert(all.take(done + 1).last() == token);
        }
        let ghost step = build_step(st, token, o, work_limit, depth_limit);
        assert(build_prefix(all.take(done + 1), o, work0, work_limit, depth_limit) == step);
        match budget.spend(1) {
            Ok(()) => {},
            Err(e) => {
                proof {
                    lemma_prefix_err(all, done + 1, o, work0, work_limit, depth_limit);
                }
                return Err(e);
            },
        }
        let Token { start, end, kind } = token;
        let here = source.span(start, end);
        match kind {
            TokenKind::Empty => {},
            TokenKind::Text(value) | TokenKind::Marker(value) => {
                proof {
                    lemma_empty_text(value@);
                }
                if value.as_str().as_bytes().len() > 0 {
                    let node = Node::new(here, NodeKind::Text { value }, Vec::new());
                    proof {
                        lemma_node_view(node);
                        assert(forest_view(node.children@) =~= Seq::<TreeView>::empty());
                    }
                    add_child(&mut children, node);
                }
            },
            TokenKind::Other(Structure::Atom(kind, nested)) => {
                let node = Node::new(here, kind, nested);
                proof {
                    lemma_node_view(node);
                }
                add_child(&mut children, node);
            },
            TokenKind::Other(Structure::Open(kind)) => {
                match budget.depth(stack.len() + 1) {
                    Ok(()) => {},
                    Err(e) => {
                        proof {
                            lemma_prefix_err(all, done + 1, o, work0, work_limit, depth_limit);
                        }
                        return Err(e);
                    },
                }
                let ghost before = stack_view(stack@);
                let previous = children;
                children = Vec::new();
                stack.push((kind, start, previous));
                proof {
                    assert(forest_view(children@) =~= Seq::<TreeView>::empty());
                    assert(stack_view(stack@) =~= before.push((kind, start, forest_view(previous@))));
                }
            },
            TokenKind::Other(Structure::Close) => {
                if stack.len() == 0 {
                    proof {
                        lemma_prefix_err(all, done + 1, o, work0, work_limit, depth_limit);
                    }
                    return Err(ParseError::InternalError);
                }
                let ghost before = stack_view(stack@);
                let (open_kind, open_start, previous) = stack.pop().unwrap();
                proof {
                    assert(stack_view(stack@) =~= before.drop_last());
                    assert(before.last() == (open_kind, open_start, forest_view(previous@)));
                }
                let nested = children;
                children = previous;
                let span = source.span(open_start, end);
                let node = Node::new(span, open_kind, nested);
                proof {
                    lemma_node_view(node);
                }
                add_child_plain(&mut children, node);
            },
        }
        proof {
            assert(build_prefix(all.take(done + 1), o, work0, work_limit, depth_limit) == step);
        }
    }
    proof {
        assert(all.take(all.len() as int) =~= all);
    }
    if stack.len() > 0 {
        return Err(ParseError::InternalError);
    }
    proof {
        if no_text_openers(all) {
            lemma_built_text_merged(all, o, work0, work_limit, depth_limit);
            let v = forest_view(children@);
            assert forall|k: int| 0 <= k < children@.len() - 1 implies !((#[trigger] children@[k]).kind is Text
                && children@[k + 1].kind is Text) by {
                lemma_node_view(children@[k]);
                lemma_node_view(children@[k + 1]);
                assert(v[k] == node_view(children@[k]));
                assert(v[k + 1] == node_view(children@[k + 1]));
                assert(!adjacent_text(v, k));
            }
        }
    }
    Ok(children)
}

/// Adds a node to `children` without joining it to the one before.
fn add_child_plain(children: &mut Vec<Node>, node: Node)
    ensures
        forest_view(final(children)@) == forest_view(old(children)@).push(node_view(node)),
{
    let ghost before = forest_view(children@);
    children.push(node);
    proof {
        assert(forest_view(children@) =~= before.push(node_view(node)));
    }
}

} // verus!
