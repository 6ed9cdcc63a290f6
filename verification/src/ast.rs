//! Typed syntax trees. Node data is separate from children so that traversal
//! never depends on extensions.
use vstd::prelude::*;

verus! {

/// A half-open UTF-8 byte range in the original source.
#[derive(Debug, Clone, Copy, PartialEq, Eq, Hash, Structural)]
pub struct Span {
    pub start: usize,
    pub end: usize,
}

/// A JSON value carried opaquely as an extension payload.
#[verifier::external_type_specification]
#[verifier::external_body]
pub struct ExJsonValue(serde_json::Value);

/// `serde_json::Value::clone` makes a deep copy equal to the original.
pub assume_specification[ <serde_json::Value as Clone>::clone ](v: &serde_json::Value) -> (r: serde_json::Value)
    ensures
        r == *v,
;

/// How a link was written.
#[derive(Debug, Clone, Copy, PartialEq, Eq, Structural)]
pub enum LinkForm {
    Explicit,
    Autolink,
    Linkify,
}

/// What a node is, with its payload.
#[derive(Debug, PartialEq, Eq)]
pub enum NodeKind {
    Paragraph,
    Heading { level: u8 },
    Blockquote,
    List { ordered: bool, start: u32, tight: bool },
    ListItem { marker: String },
    CodeBlock { fenced: bool, info: String, literal: String },
    ThematicBreak { marker: String },
    Text { value: String },
    Softbreak,
    Hardbreak,
    InlineCode { literal: String },
    Emphasis,
    Strong,
    Link { destination: String, title: Option<String>, form: LinkForm },
    Image { destination: String, title: Option<String>, label_source: String },
    HtmlInline { literal: String },
    HtmlBlock { literal: String },
    Extension { name: String, data: serde_json::Value },
}

/// A copy of an optional string.
fn clone_opt(s: &Option<String>) -> (r: Option<String>)
    ensures
        r == *s,
{
    match s {
        Some(v) => Some(v.clone()),
        None => None,
    }
}

impl Clone for NodeKind {
    /// A copy equal to the kind, payload included.
    fn clone(&self) -> (r: Self)
        ensures
            r == *self,
    {
        match self {
            NodeKind::Paragraph => NodeKind::Paragraph,
            NodeKind::Heading { level } => NodeKind::Heading { level: *level },
            NodeKind::Blockquote => NodeKind::Blockquote,
            NodeKind::List { ordered, start, tight } => NodeKind::List {
                ordered: *ordered,
                start: *start,
                tight: *tight,
            },
            NodeKind::ListItem { marker } => NodeKind::ListItem { marker: marker.clone() },
            NodeKind::CodeBlock { fenced, info, literal } => NodeKind::CodeBlock {
                fenced: *fenced,
                info: info.clone(),
                literal: literal.clone(),
            },
            NodeKind::ThematicBreak { marker } => NodeKind::ThematicBreak { marker: marker.clone() },
            NodeKind::Text { value } => NodeKind::Text { value: value.clone() },
            NodeKind::Softbreak => NodeKind::Softbreak,
            NodeKind::Hardbreak => NodeKind::Hardbreak,
            NodeKind::InlineCode { literal } => NodeKind::InlineCode { literal: literal.clone() },
            NodeKind::Emphasis => NodeKind::Emphasis,
            NodeKind::Strong => NodeKind::Strong,
            NodeKind::Link { destination, title, form } => NodeKind::Link {
                destination: destination.clone(),
                title: clone_opt(title),
                form: *form,
            },
            NodeKind::Image { destination, title, label_source } => NodeKind::Image {
                destination: destination.clone(),
                title: clone_opt(title),
                label_source: label_source.clone(),
            },
            NodeKind::HtmlInline { literal } => NodeKind::HtmlInline { literal: literal.clone() },
            NodeKind::HtmlBlock { literal } => NodeKind::HtmlBlock { literal: literal.clone() },
            NodeKind::Extension { name, data } => NodeKind::Extension {
                name: name.clone(),
                data: data.clone(),
            },
        }
    }
}

/// Node kinds that may have children.
pub open spec fn may_have_children(kind: NodeKind) -> bool {
    ||| kind is Paragraph
    ||| kind is Heading
    ||| kind is Blockquote
    ||| kind is List
    ||| kind is ListItem
    ||| kind is Emphasis
    ||| kind is Strong
    ||| kind is Link
    ||| kind is Image
    ||| kind is Extension
}

/// A heading level is 1 to 6; only container kinds have children.
pub open spec fn shape_ok(kind: NodeKind, has_children: bool) -> bool {
    &&& (kind matches NodeKind::Heading { level } ==> 1 <= level <= 6)
    &&& (has_children ==> may_have_children(kind))
}

/// The container kinds: those whose nodes hold other nodes.
pub open spec fn is_container(kind: NodeKind) -> bool {
    match kind {
        NodeKind::Paragraph => true,
        NodeKind::Heading { .. } => true,
        NodeKind::Blockquote => true,
        NodeKind::List { .. } => true,
        NodeKind::ListItem { .. } => true,
        NodeKind::Emphasis => true,
        NodeKind::Strong => true,
        NodeKind::Link { .. } => true,
        NodeKind::Image { .. } => true,
        NodeKind::Extension { .. } => true,
        NodeKind::CodeBlock { .. } => false,
        NodeKind::ThematicBreak { .. } => false,
        NodeKind::Text { .. } => false,
        NodeKind::Softbreak => false,
        NodeKind::Hardbreak => false,
        NodeKind::InlineCode { .. } => false,
        NodeKind::HtmlInline { .. } => false,
        NodeKind::HtmlBlock { .. } => false,
    }
}

/// Node shapes: a node without children is well shaped unless it is a
/// heading with a level outside 1 to 6; a node with children is well shaped
/// exactly when its kind is a container (paragraph, heading of level 1 to 6,
/// blockquote, list, list item, emphasis, strong, link, image or
/// extension). In particular a blockquote may hold children and a text node
/// may not.
pub proof fn lemma_shapes(kind: NodeKind)
    ensures
        shape_ok(kind, false) <==> !(kind matches NodeKind::Heading { level } && !(1 <= level <= 6)),
        shape_ok(kind, true) <==> is_container(kind) && !(kind matches NodeKind::Heading { level } && !(1
            <= level <= 6)),
        shape_ok(NodeKind::Blockquote, true),
        shape_ok(NodeKind::Paragraph, true),
        shape_ok(NodeKind::Emphasis, true),
        shape_ok(NodeKind::Strong, true),
{
}

impl NodeKind {
    /// Whether a node of this kind is well shaped, given whether it has children.
    pub fn valid_shape(&self, has_children: bool) -> (r: bool)
        ensures
            r == shape_ok(*self, has_children),
            has_children && is_container(*self) && !(*self matches NodeKind::Heading { level } && !(1 <= level
                <= 6)) ==> r,
            has_children && !is_container(*self) ==> !r,
    {
        if let NodeKind::Heading { level } = self {
            if !(1 <= *level && *level <= 6) {
                return false;
            }
        }
        !has_children || match self {
            NodeKind::Paragraph
            | NodeKind::Heading { .. }
            | NodeKind::Blockquote
            | NodeKind::List { .. }
            | NodeKind::ListItem { .. }
            | NodeKind::Emphasis
            | NodeKind::Strong
            | NodeKind::Link { .. }
            | NodeKind::Image { .. }
            | NodeKind::Extension { .. } => true,
            _ => false,
        }
    }

    /// A text node holding `value`.
    pub fn text(value: &str) -> (r: Self)
        ensures
            r matches NodeKind::Text { value: v } && v@ == value@,
    {
        NodeKind::Text { value: value.to_owned() }
    }
}

/// A node of the tree: its original span, what it is, and its children.
#[derive(Debug, PartialEq, Eq)]
pub struct Node {
    pub span: Span,
    pub kind: NodeKind,
    pub children: Vec<Node>,
}

impl Node {
    /// A node with the given children.
    pub fn new(span: Span, kind: NodeKind, children: Vec<Node>) -> (r: Self)
        ensures
            r.span == span,
            r.kind == kind,
            r.children == children,
    {
        Node { span, kind, children }
    }

    /// A node without children.
    pub fn leaf(span: Span, kind: NodeKind) -> (r: Self)
        ensures
            r.span == span,
            r.kind == kind,
            r.children@.len() == 0,
    {
        Node::new(span, kind, Vec::new())
    }
}

/// Both trees have equal spans and kinds at every position.
pub open spec fn same_tree(a: Node, b: Node) -> bool
    decreases a, a.children@.len() + 1,
{
    &&& a.span == b.span
    &&& a.kind == b.kind
    &&& a.children@.len() == b.children@.len()
    &&& same_children(a, b, 0)
}

/// The children of `a` from position `i` on are copies of those of `b`.
pub open spec fn same_children(a: Node, b: Node, i: int) -> bool
    decreases a, a.children@.len() - i,
{
    if i < 0 || i >= a.children@.len() {
        true
    } else {
        proof {
            assert(decreases_to!(a => a.children@[i]));
        }
        same_tree(a.children@[i], b.children@[i]) && same_children(a, b, i + 1)
    }
}

/// A copy of the node and its descendants.
fn clone_node(node: &Node) -> (r: Node)
    ensures
        same_tree(r, *node),
    decreases node,
{
    let mut children: Vec<Node> = Vec::new();
    let mut i: usize = 0;
    while i < node.children.len()
        invariant
            0 <= i <= node.children@.len(),
            children@.len() == i,
            forall|k: int| 0 <= k < i ==> #[trigger] same_tree(children@[k], node.children@[k]),
        decreases node.children@.len() - i,
    {
        proof {
            assert(decreases_to!(node => node.children@[i as int]));
        }
        children.push(clone_node(&node.children[i]));
        i += 1;
    }
    let kind = node.kind.clone();
    let r = Node { span: node.span, kind, children };
    proof {
        lemma_same_children(r, *node, 0);
    }
    r
}

proof fn lemma_same_children(a: Node, b: Node, i: int)
    requires
        0 <= i,
        a.children@.len() == b.children@.len(),
        forall|k: int| 0 <= k < a.children@.len() ==> #[trigger] same_tree(a.children@[k], b.children@[k]),
    ensures
        same_children(a, b, i),
    decreases a.children@.len() - i,
{
    if i < a.children@.len() {
        lemma_same_children(a, b, i + 1);
        assert(same_tree(a.children@[i], b.children@[i]));
    }
}

impl Clone for Node {
    /// A copy with the node's span and kind, and a copy of each child, at
    /// every depth.
    fn clone(&self) -> (r: Self)
        ensures
            same_tree(r, *self),
    {
        clone_node(self)
    }
}

/// A parsed document: the original source and its top-level nodes.
#[derive(Debug, Clone, PartialEq, Eq)]
pub struct Document {
    pub source: String,
    pub children: Vec<Node>,
}

/// Optional build-time reflection for payload contracts; without the
/// reflection feature every `'static` type is a contract.
pub trait Contract: 'static {

}

impl<T: 'static> Contract for T {

}

} // verus!
