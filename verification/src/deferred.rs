//! The stack of deferred suffixes: texts that wait until the traversal is
//! back at the depth at which they were deferred.
use vstd::prelude::*;
use vstd::string::StringExecFns;

verus! {

/// A deferred suffix: the text to write once the traversal is back at a depth
/// no greater than `indent`.
pub struct Deferred {
    pub indent: usize,
    pub text: String,
}

/// The mathematical value of a `Deferred`.
pub struct DeferredView {
    pub indent: nat,
    pub text: Seq<char>,
}

impl View for Deferred {
    type V = DeferredView;

    open spec fn view(&self) -> DeferredView {
        DeferredView { indent: self.indent as nat, text: self.text@ }
    }
}

/// The views of a stack of deferred suffixes.
pub open spec fn deferred_views(after: Seq<Deferred>) -> Seq<DeferredView> {
    after.map_values(|s: Deferred| s@)
}

/// The text that leaves the stack when every suffix at depth `indent` or
/// deeper is discharged from the top: the last one pushed comes first.
pub open spec fn discharged(after: Seq<DeferredView>, indent: int) -> Seq<char>
    decreases after.len(),
{
    if after.len() == 0 || after.last().indent < indent {
        Seq::empty()
    } else {
        after.last().text + discharged(after.drop_last(), indent)
    }
}

/// The stack that stays when every suffix at depth `indent` or deeper is
/// discharged from the top.
pub open spec fn retained(after: Seq<DeferredView>, indent: int) -> Seq<DeferredView>
    decreases after.len(),
{
    if after.len() == 0 || after.last().indent < indent {
        after
    } else {
        retained(after.drop_last(), indent)
    }
}

/// Discharges from the top of `after` every suffix at depth `indent` or
/// deeper, appending each to `out` as it leaves the stack.
pub fn discharge(out: &mut String, after: &mut Vec<Deferred>, indent: usize)
    ensures
        final(out)@ == old(out)@ + discharged(deferred_views(old(after)@), indent as int),
        deferred_views(final(after)@) == retained(deferred_views(old(after)@), indent as int),
{
    proof {
        assert(old(out)@ + Seq::<char>::empty() == old(out)@);
    }
    while after.len() > 0 && after[after.len() - 1].indent >= indent
        invariant
            out@ + discharged(deferred_views(after@), indent as int) == old(out)@ + discharged(
                deferred_views(old(after)@),
                indent as int,
            ),
            retained(deferred_views(after@), indent as int) == retained(
                deferred_views(old(after)@),
                indent as int,
            ),
        decreases after.len(),
    {
        let ghost stack = deferred_views(after@);
        let ghost written = out@;
        let top = after.pop().unwrap();
        proof {
            assert(deferred_views(after@) == stack.drop_last());
            assert(stack.last() == top@);
            assert(written + (top.text@ + discharged(stack.drop_last(), indent as int)) == written
                + top.text@ + discharged(stack.drop_last(), indent as int));
        }
        out.append(top.text.as_str());
    }
    proof {
        let stack = deferred_views(after@);
        if stack.len() > 0 {
            assert(stack.last() == after@[after@.len() - 1]@);
        }
        assert(out@ + Seq::<char>::empty() == out@);
    }
}

} // verus!
