//! The Markdown renderer for a flat stream of depth-stamped tags, as the
//! content filter gives it.
use crate::deferred::{deferred_views, discharge, discharged, retained, Deferred, DeferredView};
use crate::markup::{
    attributes_of, classify, element_of, parse_attributes, prefix, suffix, suffix_of,
    write_prefix, Element,
};
use crate::tag::{tag_views, Door, Page, PageView, Tag, TagView};
use crate::text::{collapse_str, normalize_opt, option_text, str_eq};
use vstd::prelude::*;
use vstd::string::StringExecFns;

verus! {

/// The text that a tag carries: its normalized content, or nothing.
pub open spec fn text_of(content: Option<Seq<char>>) -> Seq<char> {
    match normalize_opt(content) {
        Some(t) => t,
        None => Seq::empty(),
    }
}

/// The state of a stream renderer.
pub struct StreamView {
    /// The text written so far.
    pub out: Seq<char>,
    /// The suffixes deferred and not yet discharged.
    pub after: Seq<DeferredView>,
    /// The name of the skipped element that the stream is inside of, if any.
    pub skip: Option<Seq<char>>,
}

/// The state before any tag is fed.
pub open spec fn stream_start() -> StreamView {
    StreamView { out: Seq::empty(), after: Seq::empty(), skip: None }
}

/// The state after `tag` is fed in state `st`.
///
/// Inside a skipped element nothing is written; the closing tag of that
/// element ends the skipping. Otherwise the tag's text comes first, as it
/// stood before the tag. An opening tag that starts a skipped element starts
/// the skipping. Any other opening tag, stamped with the depth of its own
/// element, discharges what is deferred at that depth or deeper, writes its
/// prefix and defers its suffix. A closing tag, stamped with the depth of its
/// parent, discharges everything deferred deeper than that. A self-closing tag
/// does the same and writes its prefix and suffix at once.
pub open spec fn stream_step(st: StreamView, tag: TagView) -> StreamView {
    match st.skip {
        Some(name) => if tag.door == Door::Closing && tag.name == name {
            StreamView { skip: None, ..st }
        } else {
            st
        },
        None => {
            let element = element_of(tag.name);
            let attributes = attributes_of(tag.attributes);
            let out = st.out + text_of(tag.content);
            match tag.door {
                Door::Opening => if element == Element::Skipped {
                    StreamView { out, after: st.after, skip: Some(tag.name) }
                } else {
                    StreamView {
                        out: out + discharged(st.after, tag.depth as int) + prefix(
                            element,
                            attributes,
                        ),
                        after: retained(st.after, tag.depth as int).push(
                            DeferredView { indent: tag.depth, text: suffix(element, attributes) },
                        ),
                        skip: None,
                    }
                },
                Door::Closing => StreamView {
                    out: out + discharged(st.after, tag.depth as int + 1),
                    after: retained(st.after, tag.depth as int + 1),
                    skip: None,
                },
                Door::SelfClosing => if element == Element::Skipped {
                    StreamView { out, after: st.after, skip: None }
                } else {
                    StreamView {
                        out: out + discharged(st.after, tag.depth as int + 1) + prefix(element, attributes)
                            + suffix(element, attributes),
                        after: retained(st.after, tag.depth as int + 1),
                        skip: None,
                    }
                },
            }
        },
    }
}

/// The state after the tags of `tags` are fed in order in state `st`.
pub open spec fn stream_all(st: StreamView, tags: Seq<TagView>) -> StreamView
    decreases tags.len(),
{
    if tags.len() == 0 {
        st
    } else {
        stream_step(stream_all(st, tags.drop_last()), tags.last())
    }
}

/// The text of a renderer in state `st` once the stream has ended: what is
/// written, and then every suffix still deferred.
pub open spec fn stream_end(st: StreamView) -> Seq<char> {
    st.out + discharged(st.after, 0)
}

/// The text of a whole stream of tags.
pub open spec fn stream_text(tags: Seq<TagView>) -> Seq<char> {
    stream_end(stream_all(stream_start(), tags))
}

/// The text of a page: the text of its body, with the title and a line break
/// before it when there is a title.
pub open spec fn page_text(page: PageView) -> Seq<char> {
    match page.title {
        Some(title) => title + "\n"@ + stream_text(page.body),
        None => stream_text(page.body),
    }
}

/// No suffix is deferred deeper than a `usize` counts, so discharging from
/// beyond that depth discharges nothing.
pub proof fn lemma_nothing_beyond(after: Seq<Deferred>)
    ensures
        discharged(deferred_views(after), usize::MAX + 1) == Seq::<char>::empty(),
        retained(deferred_views(after), usize::MAX + 1) == deferred_views(after),
{
    let views = deferred_views(after);
    if views.len() > 0 {
        assert(views.last() == after[after.len() - 1]@);
    }
}

/// A renderer for a stream of depth-stamped tags, fed in document order.
pub struct StreamRenderer {
    out: String,
    after: Vec<Deferred>,
    skip: Option<String>,
}

impl View for StreamRenderer {
    type V = StreamView;

    closed spec fn view(&self) -> StreamView {
        StreamView {
            out: self.out@,
            after: deferred_views(self.after@),
            skip: option_text(self.skip),
        }
    }
}

impl StreamRenderer {
    /// A renderer that has seen no tag.
    pub fn new() -> (r: StreamRenderer)
        ensures
            r@ == stream_start(),
    {
        let r = StreamRenderer { out: String::new(), after: Vec::new(), skip: None };
        proof {
            assert(deferred_views(r.after@) =~= Seq::<DeferredView>::empty());
        }
        r
    }

    /// Takes the next tag of the stream.
    pub fn feed(&mut self, tag: &Tag)
        ensures
            final(self)@ == stream_step(old(self)@, tag@),
    {
        let closing = match tag.door {
            Door::Closing => true,
            _ => false,
        };
        match &self.skip {
            Some(name) => {
                if closing && str_eq(tag.name.as_str(), name.as_str()) {
                    self.skip = None;
                }
                return ;
            },
            None => {},
        }
        let ghost before = self.out@;
        let ghost stack = deferred_views(self.after@);
        match &tag.content {
            Some(text) => match collapse_str(text.as_str()) {
                Some(t) => self.out.append(t.as_str()),
                None => {},
            },
            None => {},
        }
        proof {
            assert(self.out@ == before + text_of(tag@.content)) by {
                assert(before + Seq::<char>::empty() == before);
            }
        }
        let element = classify(tag.name.as_str());
        let attributes = parse_attributes(&tag.attributes);
        match tag.door {
            Door::Opening => {
                if element == Element::Skipped {
                    self.skip = Some(tag.name.clone());
                } else {
                    discharge(&mut self.out, &mut self.after, tag.depth);
                    write_prefix(&mut self.out, element, &attributes);
                    let text = suffix_of(element, &attributes);
                    proof {
                        assert(deferred_views(self.after@.push(Deferred { indent: tag.depth, text }))
                            == deferred_views(self.after@).push(
                            DeferredView { indent: tag.depth as nat, text: text@ },
                        ));
                    }
                    self.after.push(Deferred { indent: tag.depth, text });
                }
            },
            Door::Closing => {
                if tag.depth < usize::MAX {
                    discharge(&mut self.out, &mut self.after, tag.depth + 1);
                } else {
                    proof {
                        lemma_nothing_beyond(self.after@);
                        assert(self.out@ + Seq::<char>::empty() == self.out@);
                    }
                }
            },
            Door::SelfClosing => {
                if element != Element::Skipped {
                    if tag.depth < usize::MAX {
                        discharge(&mut self.out, &mut self.after, tag.depth + 1);
                    } else {
                        proof {
                            lemma_nothing_beyond(self.after@);
                            assert(self.out@ + Seq::<char>::empty() == self.out@);
                        }
                    }
                    write_prefix(&mut self.out, element, &attributes);
                    let text = suffix_of(element, &attributes);
                    self.out.append(text.as_str());
                }
            },
        }
    }

    /// Ends the stream and gives the text: what was written, and then every
    /// suffix still deferred.
    pub fn finish(self) -> (text: String)
        ensures
            text@ == stream_end(self@),
    {
        let mut out = self.out;
        let mut after = self.after;
        discharge(&mut out, &mut after, 0);
        out
    }
}

/// Renders a stream of depth-stamped tags as Markdown text.
pub fn render_tags(tags: &Vec<Tag>) -> (text: String)
    ensures
        text@ == stream_text(tag_views(tags@)),
{
    let mut renderer = StreamRenderer::new();
    let mut i: usize = 0;
    proof {
        assert(tag_views(tags@).subrange(0, 0) =~= Seq::<TagView>::empty());
    }
    while i < tags.len()
        invariant
            i <= tags.len(),
            renderer@ == stream_all(stream_start(), tag_views(tags@).subrange(0, i as int)),
        decreases tags.len() - i,
    {
        proof {
            let all = tag_views(tags@);
            assert(all.subrange(0, i + 1).drop_last() == all.subrange(0, i as int));
            assert(all.subrange(0, i + 1).last() == tags@[i as int]@);
        }
        renderer.feed(&tags[i]);
        i += 1;
    }
    proof {
        let all = tag_views(tags@);
        assert(all.subrange(0, all.len() as int) == all);
    }
    renderer.finish()
}

/// Renders a page as text: its body as Markdown, with the title and a line
/// break before it when the page has a title.
pub fn render_page(page: &Page) -> (text: String)
    ensures
        text@ == page_text(page@),
{
    let body = render_tags(&page.body);
    match &page.title {
        Some(title) => {
            let mut text = title.clone();
            text.append("\n");
            text.append(body.as_str());
            text
        },
        None => body,
    }
}

/// Feeding one sequence of tags and then another is feeding the two in a row.
pub proof fn lemma_stream_all_concat(st: StreamView, a: Seq<TagView>, b: Seq<TagView>)
    ensures
        stream_all(st, a + b) == stream_all(stream_all(st, a), b),
    decreases b.len(),
{
    if b.len() == 0 {
        assert(a + b == a);
    } else {
        lemma_stream_all_concat(st, a, b.drop_last());
        assert((a + b).drop_last() == a + b.drop_last());
        assert((a + b).last() == b.last());
    }
}

/// Inside a skipped element, tags that do not close it leave the state as it
/// is.
pub proof fn lemma_skipping_is_silent(st: StreamView, inner: Seq<TagView>)
    requires
        st.skip is Some,
        forall|i: int|
            0 <= i < inner.len() ==> !((#[trigger] inner[i]).door == Door::Closing && inner[i].name
                == st.skip->0),
    ensures
        stream_all(st, inner) == st,
    decreases inner.len(),
{
    if inner.len() > 0 {
        let init = inner.drop_last();
        assert forall|i: int| 0 <= i < init.len() implies !((#[trigger] init[i]).door
            == Door::Closing && init[i].name == st.skip->0) by {
            assert(init[i] == inner[i]);
        }
        lemma_skipping_is_silent(st, init);
        assert(inner.last() == inner[inner.len() - 1]);
    }
}

/// A `script` or `style` element adds nothing to the stream's text, whatever
/// stands between its opening tag and its closing tag: only the text that
/// stood before the opening tag is written.
pub proof fn lemma_skipped_element_is_silent(
    st: StreamView,
    opening: TagView,
    inner: Seq<TagView>,
    closing: TagView,
)
    requires
        st.skip is None,
        opening.door == Door::Opening,
        opening.name == "script"@ || opening.name == "style"@,
        closing.door == Door::Closing,
        closing.name == opening.name,
        forall|i: int|
            0 <= i < inner.len() ==> !((#[trigger] inner[i]).door == Door::Closing && inner[i].name
                == opening.name),
    ensures
        stream_all(st, seq![opening] + inner + seq![closing]) == (StreamView {
            out: st.out + text_of(opening.content),
            after: st.after,
            skip: None,
        }),
{
    let first = seq![opening];
    let last = seq![closing];
    lemma_stream_all_concat(st, first + inner, last);
    lemma_stream_all_concat(st, first, inner);
    assert(first.drop_last() =~= Seq::<TagView>::empty());
    assert(first.last() == opening);
    assert(stream_all(st, first.drop_last()) == st);
    assert(stream_all(st, first) == stream_step(st, opening));
    let entered = stream_step(st, opening);
    lemma_skipping_is_silent(entered, inner);
    assert(last.drop_last() =~= Seq::<TagView>::empty());
    assert(last.last() == closing);
    assert(stream_all(entered, last.drop_last()) == entered);
    assert(stream_all(entered, last) == stream_step(entered, closing));
}

} // verus!
