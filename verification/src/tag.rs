//! Tag events and the page assembled from them.
use crate::text::{option_text, texts};
use vstd::prelude::*;

verus! {

/// The direction a tag event takes through the element tree.
#[derive(Clone, Copy, Debug, PartialEq, Eq, Structural)]
pub enum Door {
    /// The start tag of an element: the traversal descends.
    Opening,
    /// The end tag of an element: the traversal returns to the parent.
    Closing,
    /// A tag that opens and closes at once: the traversal stays level.
    SelfClosing,
}

/// One tag event taken out of markup.
#[derive(Clone, Debug, PartialEq, Eq)]
pub struct Tag {
    /// The element name, in lower case.
    pub name: String,
    /// Whether the tag opens, closes or does both.
    pub door: Door,
    /// The raw attribute tokens, each a `key` or a `key=value`, in order.
    pub attributes: Vec<String>,
    /// The normalized text that stood directly before the tag, if any.
    pub content: Option<String>,
    /// The nesting depth stamped by the content filter.
    pub depth: usize,
}

/// The mathematical value of a `Tag`.
pub struct TagView {
    pub name: Seq<char>,
    pub door: Door,
    pub attributes: Seq<Seq<char>>,
    pub content: Option<Seq<char>>,
    pub depth: nat,
}

impl View for Tag {
    type V = TagView;

    open spec fn view(&self) -> TagView {
        TagView {
            name: self.name@,
            door: self.door,
            attributes: texts(self.attributes@),
            content: option_text(self.content),
            depth: self.depth as nat,
        }
    }
}

/// The views of a sequence of tags.
pub open spec fn tag_views(tags: Seq<Tag>) -> Seq<TagView> {
    tags.map_values(|t: Tag| t@)
}

/// Pushing a tag onto a sequence pushes its view onto the views.
pub proof fn lemma_tag_views_push(tags: Seq<Tag>, tag: Tag)
    ensures
        tag_views(tags.push(tag)) == tag_views(tags).push(tag@),
{
    assert(tag_views(tags.push(tag)) =~= tag_views(tags).push(tag@));
}

/// What one pass over a document extracts.
#[derive(Clone, Debug, PartialEq, Eq)]
pub struct Page {
    /// The document title, if one was found.
    pub title: Option<String>,
    /// The tags of the main content region, each with its depth.
    pub body: Vec<Tag>,
}

/// The mathematical value of a `Page`.
pub struct PageView {
    pub title: Option<Seq<char>>,
    pub body: Seq<TagView>,
}

impl View for Page {
    type V = PageView;

    open spec fn view(&self) -> PageView {
        PageView { title: option_text(self.title), body: tag_views(self.body@) }
    }
}

} // verus!
