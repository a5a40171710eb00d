//! A document tree held as an arena: nodes in one vector, each with the
//! positions of its children.
use crate::markup::{attribute_views, Attribute, AttributeView};
use vstd::prelude::*;

verus! {

/// What a node is.
#[derive(Clone, Debug, PartialEq, Eq)]
pub enum NodeKind {
    /// The root of a document.
    Document,
    /// A run of text.
    Text(String),
    /// An element with its name and attributes.
    Element { name: String, attributes: Vec<Attribute> },
    /// A comment.
    Comment(String),
}

/// The mathematical value of a `NodeKind`.
pub enum KindView {
    Document,
    Text(Seq<char>),
    Element { name: Seq<char>, attributes: Seq<AttributeView> },
    Comment(Seq<char>),
}

impl View for NodeKind {
    type V = KindView;

    open spec fn view(&self) -> KindView {
        match self {
            NodeKind::Document => KindView::Document,
            NodeKind::Text(t) => KindView::Text(t@),
            NodeKind::Element { name, attributes } => KindView::Element {
                name: name@,
                attributes: attribute_views(attributes@),
            },
            NodeKind::Comment(t) => KindView::Comment(t@),
        }
    }
}

/// One node of the arena.
#[derive(Clone, Debug, PartialEq, Eq)]
pub struct ArenaNode {
    kind: NodeKind,
    children: Vec<usize>,
}

/// The mathematical value of a node: what it is and where its children are.
pub struct NodeView {
    pub kind: KindView,
    pub children: Seq<usize>,
}

impl View for ArenaNode {
    type V = NodeView;

    closed spec fn view(&self) -> NodeView {
        NodeView { kind: self.kind@, children: self.children@ }
    }
}

/// The nodes form a tree below node 0: there is a node 0, and every child
/// stands in the arena behind its parent.
pub open spec fn well_formed(nodes: Seq<NodeView>) -> bool {
    &&& nodes.len() > 0
    &&& forall|i: int, k: int|
        0 <= i < nodes.len() && 0 <= k < nodes[i].children.len() ==> i < (
        #[trigger] nodes[i].children[k]) < nodes.len()
}

/// A document tree. Node 0 is its root; nodes are added below nodes that are
/// already there.
#[derive(Clone, Debug, PartialEq, Eq)]
pub struct Dom {
    nodes: Vec<ArenaNode>,
}

impl View for Dom {
    type V = Seq<NodeView>;

    closed spec fn view(&self) -> Seq<NodeView> {
        self.nodes@.map_values(|n: ArenaNode| n@)
    }
}

impl Dom {
    /// A tree of one node, a document root.
    pub fn new() -> (dom: Dom)
        ensures
            dom@ == seq![NodeView { kind: KindView::Document, children: Seq::empty() }],
            well_formed(dom@),
    {
        let mut nodes: Vec<ArenaNode> = Vec::new();
        nodes.push(ArenaNode { kind: NodeKind::Document, children: Vec::new() });
        let dom = Dom { nodes };
        proof {
            assert(dom@ =~= seq![NodeView { kind: KindView::Document, children: Seq::empty() }]);
        }
        dom
    }

    /// The number of nodes.
    pub fn len(&self) -> (n: usize)
        ensures
            n == self@.len(),
    {
        self.nodes.len()
    }

    /// Adds a node of the kind `kind` as the last child of `parent` and gives
    /// its position. Without a node at `parent` nothing is added.
    pub fn add_child(&mut self, parent: usize, kind: NodeKind) -> (added: Option<usize>)
        ensures
            well_formed(old(self)@) ==> well_formed(final(self)@),
            parent >= old(self)@.len() ==> added is None && final(self)@ == old(self)@,
            parent < old(self)@.len() ==> old(self)@.len() <= usize::MAX && added == Some(
                old(self)@.len() as usize,
            ) && final(self)@ == old(self)@.update(
                parent as int,
                NodeView {
                    kind: old(self)@[parent as int].kind,
                    children: old(self)@[parent as int].children.push(old(self)@.len() as usize),
                },
            ).push(NodeView { kind: kind@, children: Seq::empty() }),
    {
        if parent >= self.nodes.len() {
            return None;
        }
        let at = self.nodes.len();
        self.nodes.push(ArenaNode { kind, children: Vec::new() });
        self.nodes[parent].children.push(at);
        proof {
            assert(self@ =~= old(self)@.update(
                parent as int,
                NodeView {
                    kind: old(self)@[parent as int].kind,
                    children: old(self)@[parent as int].children.push(at),
                },
            ).push(NodeView { kind: kind@, children: Seq::empty() }));
            if well_formed(old(self)@) {
                assert forall|i: int, k: int|
                    0 <= i < self@.len() && 0 <= k < self@[i].children.len() implies i < (
                    #[trigger] self@[i].children[k]) < self@.len() by {
                    if i == parent && k == old(self)@[i].children.len() {
                    } else if i < old(self)@.len() {
                        assert(self@[i].children[k] == old(self)@[i].children[k]);
                    }
                }
            }
        }
        Some(at)
    }

    /// What the node at `at` is.
    pub fn kind(&self, at: usize) -> (kind: &NodeKind)
        requires
            at < self@.len(),
        ensures
            kind@ == self@[at as int].kind,
    {
        &self.nodes[at].kind
    }

    /// The positions of the children of the node at `at`, in order.
    pub fn children(&self, at: usize) -> (children: &Vec<usize>)
        requires
            at < self@.len(),
        ensures
            children@ == self@[at as int].children,
    {
        &self.nodes[at].children
    }
}

} // verus!
