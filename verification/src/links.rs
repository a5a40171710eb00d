//! The link collector: the targets of the anchors of a document tree, in
//! document order.
use crate::dom::{Dom, KindView, NodeKind, NodeView};
use crate::markup::{attribute_value, find_attribute};
use crate::text::{str_eq, texts};
use crate::traversal::{
    child_visits, follows, in_arena, lemma_child_visits_in_arena, lemma_child_visits_size,
    push_children, work_size, Visit,
};
use vstd::prelude::*;

verus! {

/// The link target of a node: the value of the first `href` attribute of an
/// `a` element.
pub open spec fn link_of(kind: KindView) -> Option<Seq<char>> {
    match kind {
        KindView::Element { name, attributes } => if name == "a"@ {
            attribute_value(attributes, "href"@)
        } else {
            None
        },
        _ => None,
    }
}

/// The link target that a node bears itself, as a sequence of one target or
/// of none.
pub open spec fn own_link(kind: KindView) -> Seq<Seq<char>> {
    match link_of(kind) {
        Some(href) => seq![href],
        None => Seq::empty(),
    }
}

/// The link targets of the tree below and with node `at`, in document order:
/// the target of the node itself, if it bears one, and then what its children
/// give.
pub open spec fn links(d: Seq<NodeView>, at: int) -> Seq<Seq<char>>
    decreases d.len() - at, 1int, 0int,
{
    if 0 <= at < d.len() {
        own_link(d[at].kind) + links_children(d, at, 0)
    } else {
        Seq::empty()
    }
}

/// The link targets of the children of node `at`, from child `from` on.
pub open spec fn links_children(d: Seq<NodeView>, at: int, from: int) -> Seq<Seq<char>>
    decreases d.len() - at, 0int, d[at].children.len() - from,
{
    if 0 <= at < d.len() && 0 <= from < d[at].children.len() {
        (if follows(d, at, from) {
            links(d, d[at].children[from] as int)
        } else {
            Seq::empty()
        }) + links_children(d, at, from + 1)
    } else {
        Seq::empty()
    }
}

/// The link targets still to come from a stack of visits, the top first.
pub open spec fn pending_links(d: Seq<NodeView>, work: Seq<Visit>) -> Seq<Seq<char>>
    decreases work.len(),
{
    if work.len() == 0 {
        Seq::empty()
    } else {
        links(d, work.last().at as int) + pending_links(d, work.drop_last())
    }
}

/// With the visits of the children of a node on top of the stack, the link
/// targets of the children come first.
pub proof fn lemma_pending_links_children(
    d: Seq<NodeView>,
    work: Seq<Visit>,
    at: int,
    from: int,
    indent: usize,
)
    ensures
        pending_links(d, work + child_visits(d, at, from, indent)) == links_children(d, at, from)
            + pending_links(d, work),
    decreases d[at].children.len() - from,
{
    if 0 <= at < d.len() && 0 <= from < d[at].children.len() {
        lemma_pending_links_children(d, work, at, from + 1, indent);
        let rest = child_visits(d, at, from + 1, indent);
        if follows(d, at, from) {
            let v = Visit { at: d[at].children[from], indent };
            let stack = work + rest.push(v);
            assert(stack == (work + rest).push(v));
            assert(stack.drop_last() == work + rest);
            assert(links(d, v.at as int) + (links_children(d, at, from + 1) + pending_links(
                d,
                work,
            )) == links_children(d, at, from) + pending_links(d, work));
        } else {
            assert(Seq::<Seq<char>>::empty() + links_children(d, at, from + 1) == links_children(
                d,
                at,
                from + 1,
            ));
        }
    } else {
        assert(work + child_visits(d, at, from, indent) == work);
        assert(links_children(d, at, from) + pending_links(d, work) == pending_links(d, work));
    }
}

/// Appends to `links` the link targets of the tree below and with the node
/// `node`, in document order.
pub fn collect_links_walk(dom: &Dom, node: usize, links: &mut Vec<String>)
    ensures
        texts(final(links)@) == texts(old(links)@) + self::links(dom@, node as int),
{
    let mut work: Vec<Visit> = Vec::new();
    let len = dom.len();
    if node < len {
        work.push(Visit { at: node, indent: 0 });
    }
    proof {
        let d = dom@;
        if node < d.len() {
            assert(work@.drop_last() =~= Seq::<Visit>::empty());
            assert(work@.last().at == node);
            assert(pending_links(d, work@.drop_last()) == Seq::<Seq<char>>::empty());
            assert(pending_links(d, work@) == self::links(d, node as int) + Seq::<
                Seq<char>,
            >::empty());
        }
        assert(self::links(d, node as int) + Seq::<Seq<char>>::empty() == self::links(
            d,
            node as int,
        ));
    }
    while work.len() > 0
        invariant
            len == dom@.len(),
            in_arena(dom@, work@),
            texts(links@) + pending_links(dom@, work@) == texts(old(links)@) + self::links(
                dom@,
                node as int,
            ),
        decreases work_size(dom@, work@),
    {
        let ghost d = dom@;
        let ghost stack = work@;
        let ghost found = texts(links@);
        let visit = work.pop().unwrap();
        let at = visit.at;
        let ghost rest = work@;
        proof {
            assert(rest == stack.drop_last());
            assert(stack.last() == visit);
            assert(stack[stack.len() - 1].at < d.len());
            assert forall|i: int| 0 <= i < rest.len() implies (#[trigger] rest[i]).at
                < d.len() by {
                assert(rest[i] == stack[i]);
            }
        }
        let mut target: Option<String> = None;
        match dom.kind(at) {
            NodeKind::Element { name, attributes } => {
                if str_eq(name.as_str(), "a") {
                    match find_attribute(attributes, "href") {
                        Some(h) => {
                            target = Some(attributes[h].value.clone());
                        },
                        None => {},
                    }
                }
            },
            _ => {},
        }
        match target {
            Some(href) => {
                proof {
                    assert(texts(links@.push(href)) == found.push(href@));
                    assert(own_link(d[at as int].kind) == seq![href@]);
                }
                links.push(href);
            },
            None => {
                proof {
                    assert(own_link(d[at as int].kind) == Seq::<Seq<char>>::empty());
                }
            },
        }
        proof {
            let own = own_link(d[at as int].kind);
            let below = links_children(d, at as int, 0);
            let later = pending_links(d, rest);
            lemma_pending_links_children(d, rest, at as int, 0, 0);
            lemma_child_visits_size(d, rest, at as int, 0, 0);
            lemma_child_visits_in_arena(d, rest, at as int, 0, 0);
            assert(texts(links@) == found + own);
            assert(pending_links(d, stack) == own + below + later);
            assert(found + (own + below + later) == found + own + (below + later));
        }
        push_children(dom, at, 0, &mut work);
    }
    proof {
        assert(texts(links@) + Seq::<Seq<char>>::empty() == texts(links@));
    }
}

/// The link targets of a whole document, in document order, with every
/// repetition kept.
pub fn collect_links(dom: &Dom) -> (links: Vec<String>)
    ensures
        texts(links@) == self::links(dom@, 0),
{
    let mut links: Vec<String> = Vec::new();
    collect_links_walk(dom, 0, &mut links);
    proof {
        assert(texts(Seq::<String>::empty()) =~= Seq::<Seq<char>>::empty());
        assert(Seq::<Seq<char>>::empty() + self::links(dom@, 0) == self::links(dom@, 0));
    }
    links
}

/// The link targets that the children of node `at` bear themselves, from
/// child `from` on, in order.
pub open spec fn child_targets(d: Seq<NodeView>, at: int, from: int) -> Seq<Seq<char>>
    decreases d[at].children.len() - from,
{
    if 0 <= at < d.len() && 0 <= from < d[at].children.len() {
        (if follows(d, at, from) {
            own_link(d[d[at].children[from] as int].kind)
        } else {
            Seq::empty()
        }) + child_targets(d, at, from + 1)
    } else {
        Seq::empty()
    }
}

/// Where the children of a node have no children of their own, the link
/// targets below the node are exactly the targets of the anchors among the
/// children that bear one: in document order, whether or not a target has
/// come before, and with nothing for an anchor without a target.
pub proof fn lemma_links_of_leaves(d: Seq<NodeView>, at: int, from: int)
    requires
        forall|k: int|
            from <= k && follows(d, at, k) ==> (#[trigger] d[d[at].children[k] as int]).children.len()
                == 0,
    ensures
        links_children(d, at, from) == child_targets(d, at, from),
    decreases d[at].children.len() - from,
{
    if 0 <= at < d.len() && 0 <= from < d[at].children.len() {
        lemma_links_of_leaves(d, at, from + 1);
        if follows(d, at, from) {
            let c = d[at].children[from] as int;
            assert(d[c].children.len() == 0);
            assert(links_children(d, c, 0) == Seq::<Seq<char>>::empty());
            assert(links(d, c) == own_link(d[c].kind) + Seq::<Seq<char>>::empty());
            assert(own_link(d[c].kind) + Seq::<Seq<char>>::empty() == own_link(d[c].kind));
        }
    }
}

/// An anchor that bears a target gives it before anything that stands below
/// the anchor, and what stands below it is not left out.
pub proof fn lemma_anchor_comes_first(d: Seq<NodeView>, at: int)
    requires
        0 <= at < d.len(),
        link_of(d[at].kind) is Some,
    ensures
        links(d, at) == seq![link_of(d[at].kind)->0] + links_children(d, at, 0),
{
}

} // verus!
