//! Documents from the `html5ever` parser: the parser builds its own
//! reference-counted tree, which is copied node by node into an arena.
//!
//! The parser's tree is read through a handful of small functions whose
//! bodies are not verified. What a tree of the parser holds has a name of
//! its own, and each of these functions says which part of it it hands out.
//! They are private, and only a tree that `parse_html` has just returned
//! reaches them: the parser appends each node once, so such a tree is finite,
//! and no borrow of a node's cells outlives the parse.
use crate::dom::{well_formed, Dom, KindView, NodeKind, NodeView};
use crate::markup::{attribute_views, Attribute, AttributeView};
use crate::text::texts;
use html5ever::tendril::TendrilSink;
use std::rc::Rc;
use vstd::prelude::*;

verus! {

/// The parser's document: the root of its tree and its list of parse errors.
#[verifier::external_type_specification]
#[verifier::external_body]
pub struct ExRcDom(markup5ever_rcdom::RcDom);

/// A node of the parser's tree.
#[verifier::external_type_specification]
#[verifier::external_body]
pub struct ExNode(markup5ever_rcdom::Node);

/// Which kind of node of the parser's tree a node is.
#[derive(Clone, Copy, Debug, PartialEq, Eq, Structural)]
pub enum NodeTag {
    Document,
    Text,
    Element,
    Comment,
    /// A document type or a processing instruction.
    Other,
}

/// What a node of the parser's tree holds of its own: its variant, the
/// contents of a text or a comment, and the name and attributes of an
/// element.
pub struct DataView {
    pub tag: NodeTag,
    pub contents: Seq<char>,
    pub name: Seq<char>,
    pub attributes: Seq<AttributeView>,
}

/// A tree of the parser as a value: a node and the trees of its children, in
/// order.
pub struct TreeView {
    pub data: DataView,
    pub children: Seq<TreeView>,
}

/// What a parse gives: the tree of the document and the parse errors.
pub struct ParseView {
    pub tree: TreeView,
    pub errors: Seq<Seq<char>>,
}

/// The greatest length of a page, in bytes, that is handed to the parser.
///
/// The parser keeps text in buffers of the crate `tendril`, which hold less
/// than 4 GiB and grow by doubling, so that a buffer fails once it passes
/// 2 GiB. A byte of the page becomes at most three bytes of text (a byte that
/// is no UTF-8, or a zero byte, becomes the replacement character), so a page
/// of up to 512 MiB stays clear of that.
pub const MAX_PAGE_LEN: usize = 0x2000_0000;

/// What `html5ever::parse_document` makes of the bytes of a page, decoded as
/// UTF-8, with the options that `parse_html` sets.
pub uninterp spec fn html_parse(page: Seq<u8>) -> ParseView;

/// What an `RcDom` holds: the tree below its field `document` and its field
/// `errors`.
pub uninterp spec fn held(parsed: markup5ever_rcdom::RcDom) -> ParseView;

/// What a `Node` of a tree that the parser has built holds: its field `data`
/// and, through its field `children`, the trees below it.
pub uninterp spec fn tree_of(node: markup5ever_rcdom::Node) -> TreeView;

/// Calls `html5ever::parse_document` with an `RcDom` as its sink, lets the
/// parser decode the bytes as UTF-8 (`Parser::from_utf8`) and feeds it the
/// whole of `page` at once (`TendrilSink::one`). The document type is
/// dropped, scripting counts as disabled, and every parse error is reported,
/// those of the decoder among them. A page longer than `MAX_PAGE_LEN` is left
/// out, as the parser's buffers fail on it. The claim: what comes back holds
/// the parse of the page, which depends on the page alone.
#[verifier::external_body]
fn parse_html(page: &[u8]) -> (parsed: markup5ever_rcdom::RcDom)
    requires
        page@.len() <= MAX_PAGE_LEN,
    ensures
        held(parsed) == html_parse(page@),
{
    let mut tree_builder = html5ever::tree_builder::TreeBuilderOpts::default();
    tree_builder.drop_doctype = true;
    tree_builder.scripting_enabled = false;
    tree_builder.exact_errors = true;
    let mut tokenizer = html5ever::tokenizer::TokenizerOpts::default();
    tokenizer.exact_errors = true;
    let options = html5ever::driver::ParseOpts { tokenizer, tree_builder };
    html5ever::parse_document(markup5ever_rcdom::RcDom::default(), options).from_utf8().one(page)
}

/// Clones the handle in the field `document` of `markup5ever_rcdom::RcDom`.
/// The claim: the node behind it is the root of the tree that the document
/// holds.
#[verifier::external_body]
fn document_of(parsed: &markup5ever_rcdom::RcDom) -> (root: Rc<markup5ever_rcdom::Node>)
    ensures
        tree_of(*root) == held(*parsed).tree,
{
    parsed.document.clone()
}

/// Reads the field `errors` of `markup5ever_rcdom::RcDom` and turns each
/// parse error into a `String`. The claim: these are the errors that the
/// document holds, in order.
#[verifier::external_body]
fn errors_of(parsed: &markup5ever_rcdom::RcDom) -> (errors: Vec<String>)
    ensures
        texts(errors@) == held(*parsed).errors,
{
    parsed.errors.iter().map(|e| e.to_string()).collect()
}

/// Reads the field `data` of `markup5ever_rcdom::Node` and tells the variants
/// of `markup5ever_rcdom::NodeData` apart. The claim: this is the variant
/// that the node holds.
#[verifier::external_body]
fn tag_of(node: &markup5ever_rcdom::Node) -> (tag: NodeTag)
    ensures
        tag == tree_of(*node).data.tag,
{
    match node.data {
        markup5ever_rcdom::NodeData::Document => NodeTag::Document,
        markup5ever_rcdom::NodeData::Doctype { .. } => NodeTag::Other,
        markup5ever_rcdom::NodeData::Text { .. } => NodeTag::Text,
        markup5ever_rcdom::NodeData::Comment { .. } => NodeTag::Comment,
        markup5ever_rcdom::NodeData::Element { .. } => NodeTag::Element,
        markup5ever_rcdom::NodeData::ProcessingInstruction { .. } => NodeTag::Other,
    }
}

/// Reads the field `contents` of a `NodeData::Text` or a `NodeData::Comment`
/// as a `String`; gives the empty string for any other node. It borrows the
/// cell of a text, and is called only on a node of a tree that `parse_html`
/// has just returned, where no borrow is alive. The claim: these are the
/// contents that the node holds.
#[verifier::external_body]
fn contents_of(node: &markup5ever_rcdom::Node) -> (contents: String)
    ensures
        contents@ == tree_of(*node).data.contents,
{
    match node.data {
        markup5ever_rcdom::NodeData::Text { ref contents } => contents.borrow().to_string(),
        markup5ever_rcdom::NodeData::Comment { ref contents } => contents.to_string(),
        _ => String::new(),
    }
}

/// Reads the local part of the field `name` of a `NodeData::Element` as a
/// `String`; gives the empty string for any other node. The claim: this is
/// the name that the node holds.
#[verifier::external_body]
fn name_of(node: &markup5ever_rcdom::Node) -> (name: String)
    ensures
        name@ == tree_of(*node).data.name,
{
    match node.data {
        markup5ever_rcdom::NodeData::Element { ref name, .. } => name.local.to_string(),
        _ => String::new(),
    }
}

/// Reads the field `attrs` of a `NodeData::Element`: each attribute with the
/// local part of its name and its value, in order; gives none for any other
/// node. It borrows the cell of the attributes, and is called only on a node
/// of a tree that `parse_html` has just returned, where no borrow is alive.
/// The claim: these are the attributes that the node holds.
#[verifier::external_body]
fn attributes_of_node(node: &markup5ever_rcdom::Node) -> (attributes: Vec<Attribute>)
    ensures
        attribute_views(attributes@) == tree_of(*node).data.attributes,
{
    match node.data {
        markup5ever_rcdom::NodeData::Element { ref attrs, .. } => attrs.borrow().iter().map(
            |a| Attribute { name: a.name.local.to_string(), value: a.value.to_string() },
        ).collect(),
        _ => Vec::new(),
    }
}

/// Reads the length of the field `children` of `markup5ever_rcdom::Node`.
/// It borrows the cell of the children, and is called only on a node of a
/// tree that `parse_html` has just returned, where no borrow is alive. The
/// claim: this is the number of trees below the node.
#[verifier::external_body]
fn child_count(node: &markup5ever_rcdom::Node) -> (count: usize)
    ensures
        count == tree_of(*node).children.len(),
{
    node.children.borrow().len()
}

/// Clones the handle at position `index` of the field `children` of
/// `markup5ever_rcdom::Node`, if the list is that long. It borrows the cell
/// of the children, and is called only on a node of a tree that `parse_html`
/// has just returned, which is finite and where no borrow is alive. The
/// claim: there is a handle exactly at the positions below the number of
/// children, and the node behind it is the root of the tree at that position
/// below the node.
#[verifier::external_body]
fn child_at(node: &markup5ever_rcdom::Node, index: usize) -> (child: Option<
    Rc<markup5ever_rcdom::Node>,
>)
    ensures
        match child {
            Some(c) => index < tree_of(*node).children.len() && tree_of(*c) == tree_of(
                *node,
            ).children[index as int],
            None => index >= tree_of(*node).children.len(),
        },
{
    node.children.borrow().get(index).cloned()
}

/// What a node of the parser's tree is to the arena, given its variant and
/// what the parser's node holds: a document root, a text with its contents,
/// a comment with its contents, or an element with its name and attributes.
/// The arena has no kind for anything else.
pub open spec fn kind_for(
    tag: NodeTag,
    contents: Seq<char>,
    name: Seq<char>,
    attributes: Seq<AttributeView>,
) -> Option<KindView> {
    match tag {
        NodeTag::Document => Some(KindView::Document),
        NodeTag::Text => Some(KindView::Text(contents)),
        NodeTag::Comment => Some(KindView::Comment(contents)),
        NodeTag::Element => Some(KindView::Element { name, attributes }),
        NodeTag::Other => None,
    }
}

/// What a node that holds `data` is to the arena.
pub open spec fn kind_in(data: DataView) -> Option<KindView> {
    kind_for(data.tag, data.contents, data.name, data.attributes)
}

/// The view of an optional node kind.
pub open spec fn option_kind(kind: Option<NodeKind>) -> Option<KindView> {
    match kind {
        Some(k) => Some(k@),
        None => None,
    }
}

/// The arena with one more node, of the kind `kind`, as the last child of
/// the node at `parent`.
pub open spec fn with_child(arena: Seq<NodeView>, parent: int, kind: KindView) -> Seq<NodeView> {
    arena.update(
        parent,
        NodeView {
            kind: arena[parent].kind,
            children: arena[parent].children.push(arena.len() as usize),
        },
    ).push(NodeView { kind, children: Seq::empty() })
}

/// The arena after `tree` is copied under the node at `parent`: the root of
/// the tree goes in as the last child of that node, and then the trees of its
/// children are copied under it, in order. A tree whose root the arena has no
/// kind for is left out whole, and nothing goes under a node that is not
/// there.
pub open spec fn grown(arena: Seq<NodeView>, parent: int, tree: TreeView) -> Seq<NodeView>
    decreases tree, 0int,
{
    match kind_in(tree.data) {
        Some(kind) => if 0 <= parent < arena.len() {
            grown_all(with_child(arena, parent, kind), arena.len() as int, tree.children, 0)
        } else {
            arena
        },
        None => arena,
    }
}

/// The arena after the trees of `children`, from position `from` on, are
/// copied under the node at `parent`, in order.
pub open spec fn grown_all(
    arena: Seq<NodeView>,
    parent: int,
    children: Seq<TreeView>,
    from: int,
) -> Seq<NodeView>
    decreases children, children.len() - from,
{
    if 0 <= from < children.len() {
        grown_all(grown(arena, parent, children[from]), parent, children, from + 1)
    } else {
        arena
    }
}

/// The arena that a tree of the parser is copied into: a document root, and
/// under it the trees of the children of the tree's root.
pub open spec fn imported(tree: TreeView) -> Seq<NodeView> {
    grown_all(
        seq![NodeView { kind: KindView::Document, children: Seq::empty() }],
        0,
        tree.children,
        0,
    )
}

/// The number of nodes of a tree.
pub open spec fn tree_size(tree: TreeView) -> nat
    decreases tree, 0int,
{
    1 + forest_size(tree.children, 0)
}

/// The number of nodes of the trees of `children`, from position `from` on.
pub open spec fn forest_size(children: Seq<TreeView>, from: int) -> nat
    decreases children, children.len() - from,
{
    if 0 <= from < children.len() {
        tree_size(children[from]) + forest_size(children, from + 1)
    } else {
        0
    }
}

/// A node of the parser's tree still to copy, with the place in the arena of
/// the node it goes under.
struct Pending {
    node: Rc<markup5ever_rcdom::Node>,
    parent: usize,
}

/// The mathematical value of a `Pending`: the tree still to copy and the
/// place it goes under.
pub struct PendingView {
    pub tree: TreeView,
    pub parent: usize,
}

/// The view of a pending node.
spec fn pending_view(p: Pending) -> PendingView {
    PendingView { tree: tree_of(*p.node), parent: p.parent }
}

/// The views of a stack of pending nodes.
spec fn pending_views(work: Seq<Pending>) -> Seq<PendingView> {
    work.map_values(|p: Pending| pending_view(p))
}

/// The arena after every tree of the stack is copied, the top first.
pub open spec fn grown_work(arena: Seq<NodeView>, work: Seq<PendingView>) -> Seq<NodeView>
    decreases work.len(),
{
    if work.len() == 0 {
        arena
    } else {
        grown_work(
            grown(arena, work.last().parent as int, work.last().tree),
            work.drop_last(),
        )
    }
}

/// The trees of `children`, from position `from` on, as they lie on the
/// stack: the first on top, each to go under `parent`.
pub open spec fn child_work(children: Seq<TreeView>, from: int, parent: usize) -> Seq<
    PendingView,
>
    decreases children.len() - from,
{
    if 0 <= from < children.len() {
        child_work(children, from + 1, parent).push(PendingView { tree: children[from], parent })
    } else {
        Seq::empty()
    }
}

/// The number of nodes of the trees of a stack.
pub open spec fn work_nodes(work: Seq<PendingView>) -> nat
    decreases work.len(),
{
    if work.len() == 0 {
        0
    } else {
        work_nodes(work.drop_last()) + tree_size(work.last().tree)
    }
}

/// Copying a stack with the children of a node on top is copying the
/// children under that node first and the rest of the stack then.
pub proof fn lemma_grown_work_children(
    arena: Seq<NodeView>,
    work: Seq<PendingView>,
    children: Seq<TreeView>,
    from: int,
    parent: usize,
)
    ensures
        grown_work(arena, work + child_work(children, from, parent)) == grown_work(
            grown_all(arena, parent as int, children, from),
            work,
        ),
    decreases children.len() - from,
{
    if 0 <= from < children.len() {
        let rest = child_work(children, from + 1, parent);
        let top = PendingView { tree: children[from], parent };
        let stack = work + rest.push(top);
        assert(stack == (work + rest).push(top));
        assert(stack.drop_last() == work + rest);
        assert(stack.last() == top);
        lemma_grown_work_children(
            grown(arena, parent as int, children[from]),
            work,
            children,
            from + 1,
            parent,
        );
    } else {
        assert(work + child_work(children, from, parent) == work);
    }
}

/// The children of a node on top of a stack add the nodes of their trees.
pub proof fn lemma_work_nodes_children(
    work: Seq<PendingView>,
    children: Seq<TreeView>,
    from: int,
    parent: usize,
)
    ensures
        work_nodes(work + child_work(children, from, parent)) == work_nodes(work) + forest_size(
            children,
            from,
        ),
    decreases children.len() - from,
{
    if 0 <= from < children.len() {
        let rest = child_work(children, from + 1, parent);
        let top = PendingView { tree: children[from], parent };
        let stack = work + rest.push(top);
        assert(stack == (work + rest).push(top));
        assert(stack.drop_last() == work + rest);
        assert(stack.last() == top);
        lemma_work_nodes_children(work, children, from + 1, parent);
    } else {
        assert(work + child_work(children, from, parent) == work);
    }
}

/// Makes the arena's kind of node from what the parser's node holds.
pub fn node_kind(tag: NodeTag, contents: String, name: String, attributes: Vec<Attribute>) -> (kind:
    Option<NodeKind>)
    ensures
        option_kind(kind) == kind_for(tag, contents@, name@, attribute_views(attributes@)),
{
    match tag {
        NodeTag::Document => Some(NodeKind::Document),
        NodeTag::Text => Some(NodeKind::Text(contents)),
        NodeTag::Comment => Some(NodeKind::Comment(contents)),
        NodeTag::Element => Some(NodeKind::Element { name, attributes }),
        NodeTag::Other => None,
    }
}

/// Reads a node of the parser's tree and makes the arena's kind of node from
/// it.
fn kind_of(node: &markup5ever_rcdom::Node) -> (kind: Option<NodeKind>)
    ensures
        option_kind(kind) == kind_in(tree_of(*node).data),
{
    node_kind(tag_of(node), contents_of(node), name_of(node), attributes_of_node(node))
}

/// Puts the children of `node` on the stack, the first child on top, each to
/// go under the arena's node `parent`.
fn push_pending(node: &markup5ever_rcdom::Node, parent: usize, work: &mut Vec<Pending>)
    ensures
        pending_views(final(work)@) == pending_views(old(work)@) + child_work(
            tree_of(*node).children,
            0,
            parent,
        ),
{
    let ghost children = tree_of(*node).children;
    let mut k: usize = child_count(node);
    proof {
        assert(pending_views(work@) + child_work(children, k as int, parent) == pending_views(
            work@,
        ));
    }
    while k > 0
        invariant
            k <= children.len(),
            children == tree_of(*node).children,
            pending_views(work@) == pending_views(old(work)@) + child_work(
                children,
                k as int,
                parent,
            ),
        decreases k,
    {
        k -= 1;
        match child_at(node, k) {
            Some(child) => {
                proof {
                    let rest = child_work(children, k + 1, parent);
                    let top = PendingView { tree: children[k as int], parent };
                    let next = Pending { node: child, parent };
                    assert(pending_views(work@.push(next)) == pending_views(work@).push(top));
                    assert(pending_views(old(work)@) + rest.push(top) == (pending_views(
                        old(work)@,
                    ) + rest).push(top));
                }
                work.push(Pending { node: child, parent });
            },
            None => {},
        }
    }
}

/// Copies the tree below `root` into an arena. The arena's root stands for
/// `root`; every node below it that the arena has a kind for is copied, in
/// document order, under the copy of its parent. Only the root of a tree that
/// `parse_html` has just returned is handed to it.
fn import_tree(root: &markup5ever_rcdom::Node) -> (dom: Dom)
    ensures
        dom@ == imported(tree_of(*root)),
        well_formed(dom@),
        dom@[0].kind == KindView::Document,
{
    let mut dom = Dom::new();
    let mut work: Vec<Pending> = Vec::new();
    let ghost target = imported(tree_of(*root));
    proof {
        assert(pending_views(work@) =~= Seq::<PendingView>::empty());
    }
    push_pending(root, 0, &mut work);
    proof {
        let children = tree_of(*root).children;
        let none = Seq::<PendingView>::empty();
        lemma_grown_work_children(dom@, none, children, 0, 0);
        assert(none + child_work(children, 0, 0) == child_work(children, 0, 0));
        assert(grown_work(grown_all(dom@, 0, children, 0), none) == target);
    }
    while work.len() > 0
        invariant
            well_formed(dom@),
            dom@[0].kind == KindView::Document,
            grown_work(dom@, pending_views(work@)) == target,
        decreases work_nodes(pending_views(work@)),
    {
        let ghost arena = dom@;
        let ghost stack = pending_views(work@);
        let next = work.pop().unwrap();
        let ghost rest = pending_views(work@);
        let ghost tree = stack.last().tree;
        proof {
            assert(rest == stack.drop_last());
            assert(stack.last() == pending_view(next));
        }
        proof {
            assert(grown_work(arena, stack) == grown_work(
                grown(arena, next.parent as int, tree),
                rest,
            ));
            assert(work_nodes(stack) == work_nodes(rest) + tree_size(tree));
        }
        match kind_of(&next.node) {
            Some(kind) => {
                let ghost added = kind@;
                match dom.add_child(next.parent, kind) {
                    Some(at) => {
                        proof {
                            assert(kind_in(tree.data) == Some(added));
                            assert(at == arena.len());
                            assert(dom@ == with_child(arena, next.parent as int, added));
                            assert(grown(arena, next.parent as int, tree) == grown_all(
                                dom@,
                                at as int,
                                tree.children,
                                0,
                            ));
                        }
                        push_pending(&next.node, at, &mut work);
                        proof {
                            lemma_grown_work_children(dom@, rest, tree.children, 0, at);
                            lemma_work_nodes_children(rest, tree.children, 0, at);
                        }
                    },
                    None => {
                        proof {
                            assert(grown(arena, next.parent as int, tree) == arena);
                        }
                    },
                }
            },
            None => {
                proof {
                    assert(grown(arena, next.parent as int, tree) == arena);
                }
            },
        }
    }
    dom
}

/// A parsed page: the document tree and the parse errors that were found on
/// the way.
#[derive(Clone, Debug, PartialEq, Eq)]
pub struct ParsedPage {
    pub document: Dom,
    pub errors: Vec<String>,
}

/// Parses the bytes of `page` as an HTML document in UTF-8: the tree that the
/// parser makes of the page, copied into an arena, and the parse errors.
pub fn build_dom(page: &[u8]) -> (parsed: ParsedPage)
    requires
        page@.len() <= MAX_PAGE_LEN,
    ensures
        parsed.document@ == imported(html_parse(page@).tree),
        texts(parsed.errors@) == html_parse(page@).errors,
        well_formed(parsed.document@),
        parsed.document@[0].kind == KindView::Document,
{
    let tree = parse_html(page);
    let root = document_of(&tree);
    let document = import_tree(&root);
    ParsedPage { document, errors: errors_of(&tree) }
}

} // verus!
