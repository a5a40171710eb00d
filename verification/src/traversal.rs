//! Depth-first traversal of a document tree with an explicit stack of the
//! nodes still to visit.
use crate::dom::{Dom, NodeView};
use vstd::prelude::*;

verus! {

/// A node still to visit, with the depth at which it stands.
pub struct Visit {
    pub at: usize,
    pub indent: usize,
}

/// The child `from` of the node `at` can be followed: it stands in the arena
/// behind its parent.
pub open spec fn follows(d: Seq<NodeView>, at: int, from: int) -> bool {
    &&& 0 <= at < d.len()
    &&& 0 <= from < d[at].children.len()
    &&& at < d[at].children[from] < d.len()
}

/// The number of visits that the tree below and with node `at` takes.
pub open spec fn size(d: Seq<NodeView>, at: int) -> nat
    decreases d.len() - at, 1int, 0int,
{
    if 0 <= at < d.len() {
        1 + size_children(d, at, 0)
    } else {
        0
    }
}

/// The number of visits that the trees below the children of node `at` take,
/// from child `from` on.
pub open spec fn size_children(d: Seq<NodeView>, at: int, from: int) -> nat
    decreases d.len() - at, 0int, d[at].children.len() - from,
{
    if 0 <= at < d.len() && 0 <= from < d[at].children.len() {
        (if follows(d, at, from) {
            size(d, d[at].children[from] as int)
        } else {
            0
        }) + size_children(d, at, from + 1)
    } else {
        0
    }
}

/// The visits that the children of node `at` call for, from child `from` on,
/// as they lie on the stack: the first child on top.
pub open spec fn child_visits(d: Seq<NodeView>, at: int, from: int, indent: usize) -> Seq<Visit>
    decreases d[at].children.len() - from,
{
    if 0 <= at < d.len() && 0 <= from < d[at].children.len() {
        if follows(d, at, from) {
            child_visits(d, at, from + 1, indent).push(
                Visit { at: d[at].children[from], indent },
            )
        } else {
            child_visits(d, at, from + 1, indent)
        }
    } else {
        Seq::empty()
    }
}

/// The number of visits that a stack of visits takes in all.
pub open spec fn work_size(d: Seq<NodeView>, work: Seq<Visit>) -> nat
    decreases work.len(),
{
    if work.len() == 0 {
        0
    } else {
        work_size(d, work.drop_last()) + size(d, work.last().at as int)
    }
}

/// Every visit of the stack is of a node of the arena, at a depth no greater
/// than its position, and no visit lies deeper than one above it.
pub open spec fn ordered(d: Seq<NodeView>, work: Seq<Visit>) -> bool {
    &&& forall|i: int| 0 <= i < work.len() ==> (#[trigger] work[i]).at < d.len() && work[i].indent <= work[i].at
    &&& forall|i: int, j: int| 0 <= i <= j < work.len() ==> (#[trigger] work[i]).indent <= (#[trigger] work[j]).indent
}

/// The visits of the children add the sizes of the children's trees.
pub proof fn lemma_child_visits_size(
    d: Seq<NodeView>,
    work: Seq<Visit>,
    at: int,
    from: int,
    indent: usize,
)
    ensures
        work_size(d, work + child_visits(d, at, from, indent)) == work_size(d, work)
            + size_children(d, at, from),
    decreases d[at].children.len() - from,
{
    if 0 <= at < d.len() && 0 <= from < d[at].children.len() {
        lemma_child_visits_size(d, work, at, from + 1, indent);
        let rest = child_visits(d, at, from + 1, indent);
        if follows(d, at, from) {
            let v = Visit { at: d[at].children[from], indent };
            assert(work + rest.push(v) == (work + rest).push(v));
            assert((work + rest).push(v).drop_last() == work + rest);
        }
    } else {
        assert(work + child_visits(d, at, from, indent) == work);
    }
}

/// The visits of the children keep a stack ordered when they lie one deeper
/// than a parent that is no shallower than anything on the stack.
pub proof fn lemma_child_visits_ordered(
    d: Seq<NodeView>,
    work: Seq<Visit>,
    at: int,
    from: int,
    indent: usize,
)
    requires
        ordered(d, work),
        0 <= at < d.len(),
        0 < indent <= at + 1,
        forall|i: int| 0 <= i < work.len() ==> (#[trigger] work[i]).indent < indent,
    ensures
        ordered(d, work + child_visits(d, at, from, indent)),
        forall|i: int|
            0 <= i < child_visits(d, at, from, indent).len() ==> (#[trigger] child_visits(
                d,
                at,
                from,
                indent,
            )[i]).indent == indent,
    decreases d[at].children.len() - from,
{
    if 0 <= from < d[at].children.len() {
        lemma_child_visits_ordered(d, work, at, from + 1, indent);
        let rest = child_visits(d, at, from + 1, indent);
        if follows(d, at, from) {
            let v = Visit { at: d[at].children[from], indent };
            assert(work + rest.push(v) == (work + rest).push(v));
        }
    } else {
        assert(work + child_visits(d, at, from, indent) == work);
    }
}

/// Every visit of the stack is of a node of the arena.
pub open spec fn in_arena(d: Seq<NodeView>, work: Seq<Visit>) -> bool {
    forall|i: int| 0 <= i < work.len() ==> (#[trigger] work[i]).at < d.len()
}

/// The visits of the children are of nodes of the arena.
pub proof fn lemma_child_visits_in_arena(
    d: Seq<NodeView>,
    work: Seq<Visit>,
    at: int,
    from: int,
    indent: usize,
)
    requires
        in_arena(d, work),
    ensures
        in_arena(d, work + child_visits(d, at, from, indent)),
    decreases d[at].children.len() - from,
{
    if 0 <= at < d.len() && 0 <= from < d[at].children.len() {
        lemma_child_visits_in_arena(d, work, at, from + 1, indent);
        let rest = child_visits(d, at, from + 1, indent);
        if follows(d, at, from) {
            let v = Visit { at: d[at].children[from], indent };
            assert(work + rest.push(v) == (work + rest).push(v));
        }
    } else {
        assert(work + child_visits(d, at, from, indent) == work);
    }
}

/// Puts on the stack the visits that the children of the node `at` call for,
/// the first child on top, each at the depth `indent`.
pub fn push_children(dom: &Dom, at: usize, indent: usize, work: &mut Vec<Visit>)
    requires
        at < dom@.len(),
    ensures
        final(work)@ == old(work)@ + child_visits(dom@, at as int, 0, indent),
{
    let children = dom.children(at);
    let len = dom.len();
    let mut k: usize = children.len();
    proof {
        assert(old(work)@ + child_visits(dom@, at as int, k as int, indent) == old(work)@);
    }
    while k > 0
        invariant
            k <= children@.len(),
            at < dom@.len(),
            len == dom@.len(),
            children@ == dom@[at as int].children,
            work@ == old(work)@ + child_visits(dom@, at as int, k as int, indent),
        decreases k,
    {
        k -= 1;
        let c = children[k];
        if at < c && c < len {
            proof {
                let rest = child_visits(dom@, at as int, k + 1, indent);
                assert(old(work)@ + rest.push(Visit { at: c, indent }) == (old(work)@ + rest).push(
                    Visit { at: c, indent },
                ));
            }
            work.push(Visit { at: c, indent });
        }
    }
}

} // verus!
