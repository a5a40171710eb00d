//! The Markdown renderer for a document tree: one depth-first pass that
//! writes each prefix at once and defers each suffix on a stack keyed by depth.
use crate::dom::{Dom, KindView, NodeKind, NodeView};
use crate::markup::{classify, element_of, prefix, suffix, suffix_of, write_prefix, Element};
use crate::deferred::{
    deferred_views, discharge, discharged, retained, Deferred, DeferredView,
};
use crate::text::{collapse_str, normalize};
use crate::traversal::{
    child_visits, follows, lemma_child_visits_ordered, lemma_child_visits_size, ordered,
    push_children, size, size_children, work_size, Visit,
};
use vstd::prelude::*;
use vstd::string::StringExecFns;

verus! {

/// What a node writes before its children: a text node its normalized text,
/// an element its prefix, any other node nothing.
pub open spec fn lead(kind: KindView) -> Seq<char> {
    match kind {
        KindView::Text(t) => match normalize(t) {
            Some(n) => n,
            None => Seq::empty(),
        },
        KindView::Element { name, attributes } => prefix(element_of(name), attributes),
        _ => Seq::empty(),
    }
}

/// What a node writes after its children: an element its suffix, any other
/// node nothing.
pub open spec fn trail(kind: KindView) -> Seq<char> {
    match kind {
        KindView::Element { name, attributes } => suffix(element_of(name), attributes),
        _ => Seq::empty(),
    }
}

/// The node is an element that is left out with all below it.
pub open spec fn skipped(kind: KindView) -> bool {
    match kind {
        KindView::Element { name, attributes } => element_of(name) == Element::Skipped,
        _ => false,
    }
}

/// The text of the tree below and with node `at`: nothing for a skipped
/// element; for any other node what it writes before its children, the texts
/// of its children in order, and what it writes after them.
pub open spec fn rendered(d: Seq<NodeView>, at: int) -> Seq<char>
    decreases d.len() - at, 1int, 0int,
{
    if 0 <= at < d.len() && !skipped(d[at].kind) {
        lead(d[at].kind) + rendered_children(d, at, 0) + trail(d[at].kind)
    } else {
        Seq::empty()
    }
}

/// The texts of the children of node `at`, from child `from` on, in order.
pub open spec fn rendered_children(d: Seq<NodeView>, at: int, from: int) -> Seq<char>
    decreases d.len() - at, 0int, d[at].children.len() - from,
{
    if 0 <= at < d.len() && 0 <= from < d[at].children.len() {
        (if follows(d, at, from) {
            rendered(d, d[at].children[from] as int)
        } else {
            Seq::empty()
        }) + rendered_children(d, at, from + 1)
    } else {
        Seq::empty()
    }
}

/// The text still to come from a stack of visits and a stack of deferred
/// suffixes: for each visit from the top, the suffixes at its depth or deeper
/// and then the text of its tree; at the end, every suffix left.
pub open spec fn pending(d: Seq<NodeView>, work: Seq<Visit>, after: Seq<DeferredView>) -> Seq<
    char,
>
    decreases work.len(),
{
    if work.len() == 0 {
        discharged(after, 0)
    } else {
        discharged(after, work.last().indent as int) + rendered(d, work.last().at as int) + pending(
            d,
            work.drop_last(),
            retained(after, work.last().indent as int),
        )
    }
}

/// A suffix deferred at a depth that no visit on the stack lies under comes
/// out before anything else that is pending.
pub proof fn lemma_pending_deferred(
    d: Seq<NodeView>,
    work: Seq<Visit>,
    after: Seq<DeferredView>,
    top: DeferredView,
)
    requires
        forall|i: int| 0 <= i < work.len() ==> (#[trigger] work[i]).indent <= top.indent,
    ensures
        pending(d, work, after.push(top)) == top.text + pending(d, work, after),
{
    let pushed = after.push(top);
    assert(pushed.drop_last() == after);
    assert(pushed.last() == top);
    if work.len() == 0 {
    } else {
        let indent = work.last().indent as int;
        assert(work[work.len() - 1].indent <= top.indent);
        assert(discharged(pushed, indent) == top.text + discharged(after, indent));
        assert(retained(pushed, indent) == retained(after, indent));
        assert(pending(d, work, pushed) == top.text + (discharged(after, indent) + rendered(
            d,
            work.last().at as int,
        ) + pending(d, work.drop_last(), retained(after, indent))));
    }
}

/// With the visits of the children of a node on top of the stack, one deeper
/// than the deepest deferred suffix, the texts of the children come first.
pub proof fn lemma_pending_children(
    d: Seq<NodeView>,
    work: Seq<Visit>,
    after: Seq<DeferredView>,
    at: int,
    from: int,
    indent: usize,
)
    requires
        after.len() > 0,
        after.last().indent < indent,
    ensures
        pending(d, work + child_visits(d, at, from, indent), after) == rendered_children(
            d,
            at,
            from,
        ) + pending(d, work, after),
    decreases d[at].children.len() - from,
{
    if 0 <= at < d.len() && 0 <= from < d[at].children.len() {
        lemma_pending_children(d, work, after, at, from + 1, indent);
        let rest = child_visits(d, at, from + 1, indent);
        if follows(d, at, from) {
            let v = Visit { at: d[at].children[from], indent };
            let stack = work + rest.push(v);
            assert(stack == (work + rest).push(v));
            assert(stack.drop_last() == work + rest);
            assert(stack.last() == v);
            assert(discharged(after, indent as int) == Seq::<char>::empty());
            assert(retained(after, indent as int) == after);
            assert(pending(d, stack, after) == Seq::<char>::empty() + rendered(d, v.at as int)
                + pending(d, work + rest, after));
            assert(pending(d, stack, after) == rendered(d, v.at as int) + (rendered_children(
                d,
                at,
                from + 1,
            ) + pending(d, work, after)));
            assert(rendered_children(d, at, from) + pending(d, work, after) == rendered(
                d,
                v.at as int,
            ) + (rendered_children(d, at, from + 1) + pending(d, work, after)));
        } else {
            assert(rendered_children(d, at, from) == Seq::<char>::empty() + rendered_children(
                d,
                at,
                from + 1,
            ));
            assert(Seq::<char>::empty() + rendered_children(d, at, from + 1)
                == rendered_children(d, at, from + 1));
        }
    } else {
        assert(work + child_visits(d, at, from, indent) == work);
        assert(rendered_children(d, at, from) + pending(d, work, after) == pending(
            d,
            work,
            after,
        ));
    }
}

/// Renders the tree below and with the node `node` as Markdown text.
///
/// The nodes are visited depth first from an explicit stack. A visit writes
/// the node's prefix at once and defers its suffix; a deferred suffix is
/// discharged when the traversal is back at its depth.
pub fn walk_wiki(dom: &Dom, node: usize) -> (before: String)
    ensures
        before@ == rendered(dom@, node as int),
{
    let mut before = String::new();
    let mut after: Vec<Deferred> = Vec::new();
    let mut work: Vec<Visit> = Vec::new();
    let len = dom.len();
    if node < len {
        work.push(Visit { at: node, indent: 0 });
    }
    proof {
        let d = dom@;
        let none = deferred_views(after@);
        assert(none =~= Seq::<DeferredView>::empty());
        if node < d.len() {
            assert(work@.drop_last() =~= Seq::<Visit>::empty());
            assert(discharged(none, 0) == Seq::<char>::empty());
            assert(retained(none, 0) == none);
            assert(pending(d, work@.drop_last(), none) == Seq::<char>::empty());
            assert(pending(d, work@, none) == Seq::<char>::empty() + rendered(d, node as int)
                + Seq::<char>::empty());
            assert(Seq::<char>::empty() + rendered(d, node as int) + Seq::<char>::empty()
                == rendered(d, node as int));
        }
        assert(before@ + pending(d, work@, none) == pending(d, work@, none));
    }
    while work.len() > 0
        invariant
            len == dom@.len(),
            ordered(dom@, work@),
            before@ + pending(dom@, work@, deferred_views(after@)) == rendered(dom@, node as int),
        decreases work_size(dom@, work@),
    {
        let ghost d = dom@;
        let ghost stack = work@;
        let ghost written = before@;
        let ghost deferred = deferred_views(after@);
        let visit = work.pop().unwrap();
        let at = visit.at;
        let indent = visit.indent;
        discharge(&mut before, &mut after, indent);
        let ghost rest = work@;
        let ghost kept = deferred_views(after@);
        proof {
            assert(rest == stack.drop_last());
            assert(stack.last() == visit);
            assert(stack[stack.len() - 1].at < d.len());
            assert(indent <= at < d.len());
            assert(written + (discharged(deferred, indent as int) + rendered(d, at as int) + pending(
                d,
                rest,
                kept,
            )) == before@ + (rendered(d, at as int) + pending(d, rest, kept)));
            assert(ordered(d, rest)) by {
                assert forall|i: int| 0 <= i < rest.len() implies (#[trigger] rest[i]).at < d.len()
                    && rest[i].indent <= rest[i].at by {
                    assert(rest[i] == stack[i]);
                }
                assert forall|i: int, j: int| 0 <= i <= j < rest.len() implies (
                #[trigger] rest[i]).indent <= (#[trigger] rest[j]).indent by {
                    assert(rest[i] == stack[i]);
                    assert(rest[j] == stack[j]);
                }
            }
            assert forall|i: int| 0 <= i < rest.len() implies (#[trigger] rest[i]).indent
                <= indent by {
                assert(rest[i] == stack[i]);
            }
        }
        let kind = dom.kind(at);
        let mut trailing = String::new();
        let mut leave_out = false;
        match kind {
            NodeKind::Text(t) => {
                match collapse_str(t.as_str()) {
                    Some(n) => before.append(n.as_str()),
                    None => {},
                }
            },
            NodeKind::Element { name, attributes } => {
                let element = classify(name.as_str());
                if element == Element::Skipped {
                    leave_out = true;
                } else {
                    write_prefix(&mut before, element, attributes);
                    trailing = suffix_of(element, attributes);
                }
            },
            _ => {},
        }
        if !leave_out {
            proof {
                let top = DeferredView { indent: indent as nat, text: trailing@ };
                assert(deferred_views(after@.push(Deferred { indent, text: trailing }))
                    == kept.push(top));
                lemma_pending_deferred(d, rest, kept, top);
                lemma_pending_children(d, rest, kept.push(top), at as int, 0, (indent + 1) as usize);
                lemma_child_visits_size(d, rest, at as int, 0, (indent + 1) as usize);
                lemma_child_visits_ordered(d, rest, at as int, 0, (indent + 1) as usize);
                let inner = rendered_children(d, at as int, 0);
                let tail = pending(d, rest, kept);
                assert(before@ == written + discharged(deferred, indent as int) + lead(d[at as int].kind));
                assert(before@ + (inner + (trailing@ + tail)) == written + discharged(
                    deferred,
                    indent as int,
                ) + (lead(d[at as int].kind) + inner + trailing@ + tail));
                assert(written + discharged(deferred, indent as int) + (rendered(d, at as int) + tail)
                    == written + (discharged(deferred, indent as int) + rendered(d, at as int) + tail));
            }
            after.push(Deferred { indent, text: trailing });
            push_children(dom, at, indent + 1, &mut work);
        } else {
            proof {
                assert(rendered(d, at as int) == Seq::<char>::empty());
                assert(rendered(d, at as int) + pending(d, rest, kept) == pending(d, rest, kept));
            }
        }
    }
    proof {
        assert(work@ =~= Seq::<Visit>::empty());
    }
    discharge(&mut before, &mut after, 0);
    before
}

/// Renders a whole document as Markdown text.
pub fn wiki(dom: &Dom) -> (text: String)
    ensures
        text@ == rendered(dom@, 0),
{
    walk_wiki(dom, 0)
}

/// A `script` or `style` element adds nothing to the text, whatever stands
/// below it.
pub proof fn lemma_script_and_style_are_silent(d: Seq<NodeView>, at: int)
    requires
        0 <= at < d.len(),
        d[at].kind matches KindView::Element { name, .. } && (name == "script"@ || name
            == "style"@),
    ensures
        rendered(d, at) == Seq::<char>::empty(),
{
}

/// A child that is a skipped element adds nothing to the text of the
/// children of its parent.
pub proof fn lemma_skipped_child_adds_nothing(d: Seq<NodeView>, at: int, from: int)
    requires
        follows(d, at, from),
        skipped(d[d[at].children[from] as int].kind),
    ensures
        rendered_children(d, at, from) == rendered_children(d, at, from + 1),
{
    assert(rendered(d, d[at].children[from] as int) == Seq::<char>::empty());
    assert(Seq::<char>::empty() + rendered_children(d, at, from + 1) == rendered_children(
        d,
        at,
        from + 1,
    ));
}

} // verus!
