//! The content filter: from the flat tag stream to the tags of the main
//! content region, each stamped with its nesting depth.
use crate::tag::{lemma_tag_views_push, tag_views, Door, Page, PageView, Tag, TagView};
use crate::text::{collapse_str, normalize_opt, option_text, str_eq};
use vstd::prelude::*;

verus! {

/// The names whose tags carry no content: markup declarations and comments
/// (every name that begins with `!`), metadata, scripting, styling, embedded
/// media, table layout and line breaks.
pub open spec fn ignored(name: Seq<char>) -> bool {
    ||| (name.len() > 0 && name[0] == '!')
    ||| name == "meta"@
    ||| name == "link"@
    ||| name == "base"@
    ||| name == "script"@
    ||| name == "noscript"@
    ||| name == "style"@
    ||| name == "iframe"@
    ||| name == "embed"@
    ||| name == "object"@
    ||| name == "video"@
    ||| name == "audio"@
    ||| name == "source"@
    ||| name == "track"@
    ||| name == "canvas"@
    ||| name == "svg"@
    ||| name == "picture"@
    ||| name == "table"@
    ||| name == "caption"@
    ||| name == "colgroup"@
    ||| name == "col"@
    ||| name == "thead"@
    ||| name == "tbody"@
    ||| name == "tfoot"@
    ||| name == "tr"@
    ||| name == "th"@
    ||| name == "td"@
    ||| name == "br"@
}

/// The tag opens the main content region.
pub open spec fn enters_main(tag: TagView) -> bool {
    tag.door == Door::Opening && tag.name == "main"@
}

/// The tag opens a footer.
pub open spec fn enters_footer(tag: TagView) -> bool {
    tag.door == Door::Opening && tag.name == "footer"@
}

/// The tag belongs to a title element.
pub open spec fn names_title(tag: TagView) -> bool {
    tag.name == "title"@
}

/// The depth after a tag with the door `door` at depth `depth`: one more
/// after an opening tag, one less after a closing tag, never below zero and
/// never above what a `usize` holds.
pub open spec fn next_depth(depth: nat, door: Door) -> nat {
    match door {
        Door::Opening => if depth < usize::MAX {
            depth + 1
        } else {
            depth
        },
        Door::Closing => if depth > 0 {
            (depth - 1) as nat
        } else {
            0
        },
        Door::SelfClosing => depth,
    }
}

/// The state of a content filter.
pub struct FilterView {
    /// The number of opening tags not yet closed, counted from the start of
    /// the input or, once the main region is entered, from its start.
    pub depth: nat,
    /// The main content region has been entered and no footer has ended it.
    pub in_main: bool,
    /// A footer has ended the main content region.
    pub past_footer: bool,
    /// The tags kept so far.
    pub output: Seq<TagView>,
    /// The title found so far.
    pub title: Option<Seq<char>>,
}

/// The state before any tag is fed.
pub open spec fn start() -> FilterView {
    FilterView {
        depth: 0,
        in_main: false,
        past_footer: false,
        output: Seq::empty(),
        title: None,
    }
}

/// `tag` as the filter keeps it: its content normalized, its depth `depth`.
pub open spec fn stamped(tag: TagView, depth: nat) -> TagView {
    TagView {
        name: tag.name,
        door: tag.door,
        attributes: tag.attributes,
        content: normalize_opt(tag.content),
        depth,
    }
}

/// The state after `tag` is fed in state `st`.
///
/// Past the footer, and for an ignored name, nothing changes. Otherwise the
/// depth follows the tag's door, and then: a tag that opens `main` starts the
/// region anew, with nothing kept and the depth at zero; a tag that opens
/// `footer` inside the region ends it for good; a `title` tag gives the title
/// its content unless a title is already there; any other tag is kept, with
/// the new depth, when the region is open.
pub open spec fn filter_step(st: FilterView, tag: TagView) -> FilterView {
    if st.past_footer || ignored(tag.name) {
        st
    } else {
        let depth = next_depth(st.depth, tag.door);
        if enters_main(tag) {
            FilterView { depth: 0, in_main: true, output: Seq::empty(), ..st }
        } else if st.in_main && enters_footer(tag) {
            FilterView { depth, in_main: false, past_footer: true, ..st }
        } else if names_title(tag) {
            FilterView {
                depth,
                title: if st.title is None {
                    normalize_opt(tag.content)
                } else {
                    st.title
                },
                ..st
            }
        } else if st.in_main {
            FilterView { depth, output: st.output.push(stamped(tag, depth)), ..st }
        } else {
            FilterView { depth, ..st }
        }
    }
}

/// The state after the tags of `tags` are fed in order in state `st`.
pub open spec fn filter_all(st: FilterView, tags: Seq<TagView>) -> FilterView
    decreases tags.len(),
{
    if tags.len() == 0 {
        st
    } else {
        filter_step(filter_all(st, tags.drop_last()), tags.last())
    }
}

/// The page that a filter in state `st` has extracted.
pub open spec fn page_of(st: FilterView) -> PageView {
    PageView { title: st.title, body: st.output }
}

/// The page that filtering `tags` from the start extracts.
pub open spec fn filtered(tags: Seq<TagView>) -> PageView {
    page_of(filter_all(start(), tags))
}

/// Tells whether tags of the name `name` are ignored.
pub fn is_ignored(name: &str) -> (b: bool)
    ensures
        b == ignored(name@),
{
    if name.unicode_len() > 0 && name.get_char(0) == '!' {
        return true;
    }
    str_eq(name, "meta") || str_eq(name, "link") || str_eq(name, "base") || str_eq(
        name,
        "script",
    ) || str_eq(name, "noscript") || str_eq(name, "style") || str_eq(name, "iframe") || str_eq(
        name,
        "embed",
    ) || str_eq(name, "object") || str_eq(name, "video") || str_eq(name, "audio") || str_eq(
        name,
        "source",
    ) || str_eq(name, "track") || str_eq(name, "canvas") || str_eq(name, "svg") || str_eq(
        name,
        "picture",
    ) || str_eq(name, "table") || str_eq(name, "caption") || str_eq(name, "colgroup") || str_eq(
        name,
        "col",
    ) || str_eq(name, "thead") || str_eq(name, "tbody") || str_eq(name, "tfoot") || str_eq(
        name,
        "tr",
    ) || str_eq(name, "th") || str_eq(name, "td") || str_eq(name, "br")
}

/// The content filter. Tags are fed in document order; the filter keeps
/// those of the main content region and the title.
pub struct ContentFilter {
    depth: usize,
    in_main: bool,
    past_footer: bool,
    output: Vec<Tag>,
    title: Option<String>,
}

impl View for ContentFilter {
    type V = FilterView;

    closed spec fn view(&self) -> FilterView {
        FilterView {
            depth: self.depth as nat,
            in_main: self.in_main,
            past_footer: self.past_footer,
            output: tag_views(self.output@),
            title: option_text(self.title),
        }
    }
}

/// The normal form of an optional text.
fn normalized(content: Option<String>) -> (r: Option<String>)
    ensures
        option_text(r) == normalize_opt(option_text(content)),
{
    match content {
        Some(s) => collapse_str(s.as_str()),
        None => None,
    }
}

impl ContentFilter {
    /// A filter that has seen no tag.
    pub fn new() -> (f: ContentFilter)
        ensures
            f@ == start(),
    {
        let f = ContentFilter {
            depth: 0,
            in_main: false,
            past_footer: false,
            output: Vec::new(),
            title: None,
        };
        proof {
            assert(tag_views(f.output@) =~= Seq::<TagView>::empty());
        }
        f
    }

    /// Takes the next tag of the document.
    pub fn feed(&mut self, tag: Tag)
        ensures
            final(self)@ == filter_step(old(self)@, tag@),
    {
        if self.past_footer || is_ignored(tag.name.as_str()) {
            return ;
        }
        match tag.door {
            Door::Opening => {
                if self.depth < usize::MAX {
                    self.depth += 1;
                }
            },
            Door::Closing => {
                if self.depth > 0 {
                    self.depth -= 1;
                }
            },
            Door::SelfClosing => {},
        }
        let opening = match tag.door {
            Door::Opening => true,
            _ => false,
        };
        if opening && str_eq(tag.name.as_str(), "main") {
            self.depth = 0;
            self.in_main = true;
            self.output = Vec::new();
            proof {
                assert(tag_views(self.output@) =~= Seq::<TagView>::empty());
            }
        } else if self.in_main && opening && str_eq(tag.name.as_str(), "footer") {
            self.in_main = false;
            self.past_footer = true;
        } else if str_eq(tag.name.as_str(), "title") {
            if self.title.is_none() {
                self.title = normalized(tag.content);
            }
        } else if self.in_main {
            let kept = Tag {
                name: tag.name,
                door: tag.door,
                attributes: tag.attributes,
                content: normalized(tag.content),
                depth: self.depth,
            };
            proof {
                lemma_tag_views_push(self.output@, kept);
                assert(kept@ == stamped(tag@, self.depth as nat));
            }
            self.output.push(kept);
        }
    }

    /// Whether the main content region is open.
    pub fn in_main(&self) -> (b: bool)
        ensures
            b == self@.in_main,
    {
        self.in_main
    }

    /// Whether a footer has ended the main content region.
    pub fn past_footer(&self) -> (b: bool)
        ensures
            b == self@.past_footer,
    {
        self.past_footer
    }

    /// The current nesting depth.
    pub fn depth(&self) -> (d: usize)
        ensures
            d == self@.depth,
    {
        self.depth
    }

    /// Gives up the filter for the page it extracted.
    pub fn finish(self) -> (page: Page)
        ensures
            page@ == page_of(self@),
    {
        Page { title: self.title, body: self.output }
    }
}

/// Filters a whole tag stream at once.
pub fn filter_tags(tags: Vec<Tag>) -> (page: Page)
    ensures
        page@ == filtered(tag_views(tags@)),
{
    let mut filter = ContentFilter::new();
    let ghost all = tags@;
    for tag in it: tags
        invariant
            it.seq() == all,
            filter@ == filter_all(start(), tag_views(all.take(it.index() as int))),
    {
        proof {
            let next = all.take(it.index() + 1);
            assert(next == all.take(it.index() as int).push(tag));
            lemma_tag_views_push(all.take(it.index() as int), tag);
            assert(tag_views(next).drop_last() == tag_views(all.take(it.index() as int)));
        }
        filter.feed(tag);
    }
    proof {
        assert(all.take(all.len() as int) == all);
    }
    filter.finish()
}

/// Feeding one sequence of tags and then another is feeding the two in a row.
pub proof fn lemma_filter_all_concat(st: FilterView, a: Seq<TagView>, b: Seq<TagView>)
    ensures
        filter_all(st, a + b) == filter_all(filter_all(st, a), b),
    decreases b.len(),
{
    if b.len() == 0 {
        assert(a + b == a);
    } else {
        lemma_filter_all_concat(st, a, b.drop_last());
        assert((a + b).drop_last() == a + b.drop_last());
        assert((a + b).last() == b.last());
    }
}

/// Past the footer the filter is at rest: whatever tags follow, a second
/// `main` among them, the state stays as it is and nothing more is kept.
pub proof fn lemma_past_footer_is_final(st: FilterView, tags: Seq<TagView>)
    requires
        st.past_footer,
    ensures
        filter_all(st, tags) == st,
    decreases tags.len(),
{
    if tags.len() > 0 {
        lemma_past_footer_is_final(st, tags.drop_last());
    }
}

/// A footer that opens inside the main region puts the filter past the
/// footer, with what it kept until then.
pub proof fn lemma_footer_ends_region(st: FilterView, tag: TagView)
    requires
        st.in_main,
        !st.past_footer,
        enters_footer(tag),
    ensures
        filter_step(st, tag).past_footer,
        !filter_step(st, tag).in_main,
        filter_step(st, tag).output == st.output,
{
    lemma_names_not_ignored();
}

/// The names that steer the filter are not ignored, and no two of them are
/// the same.
pub proof fn lemma_names_not_ignored()
    ensures
        !ignored("main"@),
        !ignored("footer"@),
        !ignored("title"@),
        "main"@ != "footer"@,
        "main"@ != "title"@,
        "footer"@ != "title"@,
{
    reveal_strlit("main");
    reveal_strlit("footer");
    reveal_strlit("title");
    reveal_strlit("meta");
    reveal_strlit("link");
    reveal_strlit("base");
    reveal_strlit("script");
    reveal_strlit("noscript");
    reveal_strlit("style");
    reveal_strlit("iframe");
    reveal_strlit("embed");
    reveal_strlit("object");
    reveal_strlit("video");
    reveal_strlit("audio");
    reveal_strlit("source");
    reveal_strlit("track");
    reveal_strlit("canvas");
    reveal_strlit("svg");
    reveal_strlit("picture");
    reveal_strlit("table");
    reveal_strlit("caption");
    reveal_strlit("colgroup");
    reveal_strlit("col");
    reveal_strlit("thead");
    reveal_strlit("tbody");
    reveal_strlit("tfoot");
    reveal_strlit("tr");
    reveal_strlit("th");
    reveal_strlit("td");
    reveal_strlit("br");
    let m = "main"@;
    assert(m[1] == 'a' && m[2] == 'i');
    let f = "footer"@;
    assert(f[0] == 'f');
    let t = "title"@;
    assert(t[1] == 'i' && t[0] == 't' && t[2] == 't');
    assert("meta"@[1] == 'e');
    assert("link"@[1] == 'i' && "link"@[0] == 'l');
    assert("base"@[2] == 's');
    assert("script"@[0] == 's');
    assert("object"@[0] == 'o');
    assert("source"@[0] == 's');
    assert("canvas"@[0] == 'c');
    assert("iframe"@[0] == 'i');
    assert("embed"@[0] == 'e');
    assert("video"@[0] == 'v');
    assert("audio"@[0] == 'a');
    assert("track"@[1] == 'r');
    assert("table"@[1] == 'a');
    assert("thead"@[1] == 'h');
    assert("tbody"@[1] == 'b');
    assert("tfoot"@[1] == 'f');
    assert("style"@[0] == 's');
}

/// No tag that the filter has kept bears an ignored name or the name `title`.
pub open spec fn clean(st: FilterView) -> bool {
    forall|i: int|
        0 <= i < st.output.len() ==> !ignored(#[trigger] st.output[i].name) && !names_title(
            st.output[i],
        )
}

/// One step keeps the output clean.
pub proof fn lemma_step_keeps_clean(st: FilterView, tag: TagView)
    requires
        clean(st),
    ensures
        clean(filter_step(st, tag)),
{
    let next = filter_step(st, tag);
    assert forall|i: int| 0 <= i < next.output.len() implies !ignored(
        #[trigger] next.output[i].name,
    ) && !names_title(next.output[i]) by {
        if i < st.output.len() && next.output.len() >= st.output.len() {
            assert(next.output[i] == st.output[i]);
        }
    }
}

/// A tag with an ignored name never appears among the kept tags, at whatever
/// depth it stood, and neither does a `title` tag.
pub proof fn lemma_ignored_never_kept(tags: Seq<TagView>)
    ensures
        clean(filter_all(start(), tags)),
        forall|i: int|
            0 <= i < filtered(tags).body.len() ==> !ignored(#[trigger] filtered(tags).body[i].name),
    decreases tags.len(),
{
    if tags.len() > 0 {
        lemma_ignored_never_kept(tags.drop_last());
        lemma_step_keeps_clean(filter_all(start(), tags.drop_last()), tags.last());
    }
}

/// What a tag adds to the number of open elements: an opening tag one, a
/// closing tag minus one, a self-closing tag and any ignored tag nothing.
pub open spec fn weight(tag: TagView) -> int {
    if ignored(tag.name) {
        0
    } else {
        match tag.door {
            Door::Opening => 1,
            Door::Closing => -1,
            Door::SelfClosing => 0,
        }
    }
}

/// The number of opening tags of `tags`, ignored names apart, that no closing
/// tag of `tags` has matched: openings less closings.
pub open spec fn unmatched(tags: Seq<TagView>) -> int
    decreases tags.len(),
{
    if tags.len() == 0 {
        0
    } else {
        unmatched(tags.drop_last()) + weight(tags.last())
    }
}

/// `tags` is balanced: at no point have more tags closed than opened, nor
/// more opened than a `usize` counts.
pub open spec fn balanced(tags: Seq<TagView>) -> bool {
    forall|k: int| 0 <= k <= tags.len() ==> 0 <= #[trigger] unmatched(tags.take(k)) <= usize::MAX
}

/// `tags` lies inside one main region: none of them opens `main` or `footer`.
pub open spec fn inside_region(tags: Seq<TagView>) -> bool {
    forall|i: int| 0 <= i < tags.len() ==> !enters_main(#[trigger] tags[i]) && !enters_footer(tags[i])
}

/// The tags of a region as they are kept: every tag but the ignored and the
/// `title` ones, in order, each stamped with the number of unmatched opening
/// tags of the region up to and including itself.
pub open spec fn kept_in_region(tags: Seq<TagView>) -> Seq<TagView>
    decreases tags.len(),
{
    if tags.len() == 0 {
        Seq::empty()
    } else if ignored(tags.last().name) || names_title(tags.last()) {
        kept_in_region(tags.drop_last())
    } else {
        kept_in_region(tags.drop_last()).push(stamped(tags.last(), unmatched(tags) as nat))
    }
}

/// Inside an open region that began at depth zero, a balanced run of tags
/// leaves the depth at its number of unmatched opening tags, and adds to the
/// output its kept tags, each with that number as its depth.
pub proof fn lemma_region_depths(st: FilterView, tags: Seq<TagView>)
    requires
        st.in_main,
        !st.past_footer,
        st.depth == 0,
        inside_region(tags),
        balanced(tags),
    ensures
        filter_all(st, tags).in_main,
        !filter_all(st, tags).past_footer,
        filter_all(st, tags).depth == unmatched(tags),
        filter_all(st, tags).output == st.output + kept_in_region(tags),
    decreases tags.len(),
{
    if tags.len() == 0 {
        assert(st.output + kept_in_region(tags) == st.output);
    } else {
        let init = tags.drop_last();
        assert forall|k: int| 0 <= k <= init.len() implies 0 <= #[trigger] unmatched(
            init.take(k),
        ) <= usize::MAX by {
            assert(init.take(k) == tags.take(k));
        }
        assert forall|i: int| 0 <= i < init.len() implies !enters_main(#[trigger] init[i])
            && !enters_footer(init[i]) by {
            assert(init[i] == tags[i]);
        }
        lemma_region_depths(st, init);
        assert(tags.take(tags.len() as int) == tags);
        assert(init.take(init.len() as int) == init);
        assert(0 <= unmatched(tags.take(tags.len() as int)) <= usize::MAX);
        assert(0 <= unmatched(init.take(init.len() as int)) <= usize::MAX);
        let tag = tags.last();
        assert(tag == tags[tags.len() - 1]);
        if !ignored(tag.name) && !names_title(tag) {
            assert(st.output + kept_in_region(tags) == (st.output + kept_in_region(init)).push(
                stamped(tag, unmatched(tags) as nat),
            ));
        }
    }
}

/// Depth correctness. When `main` opens, the filter not yet past a footer, and a
/// balanced run of tags inside the region follows, the filter has kept
/// exactly the kept tags of that run, and the depth of each is the number of
/// opening tags of the region, ignored names apart, that enclose it: those
/// up to and including itself that no closing tag has matched.
pub proof fn lemma_depth_counts_enclosing(
    st: FilterView,
    main_tag: TagView,
    region: Seq<TagView>,
)
    requires
        !st.past_footer,
        enters_main(main_tag),
        inside_region(region),
        balanced(region),
    ensures
        filter_all(filter_step(st, main_tag), region).output == kept_in_region(region),
        filter_all(filter_step(st, main_tag), region).depth == unmatched(region),
        forall|j: int|
            0 <= j < kept_in_region(region).len() ==> exists|i: int|
                0 <= i < region.len() && #[trigger] kept_in_region(region)[j] == stamped(
                    #[trigger] region[i],
                    unmatched(region.take(i + 1)) as nat,
                ),
{
    lemma_names_not_ignored();
    let entered = filter_step(st, main_tag);
    lemma_region_depths(entered, region);
    assert(entered.output + kept_in_region(region) == kept_in_region(region));
    lemma_kept_come_from_region(region);
}

/// Every kept tag of a region is a tag of the region, stamped with the number
/// of unmatched opening tags up to and including itself.
pub proof fn lemma_kept_come_from_region(tags: Seq<TagView>)
    ensures
        forall|j: int|
            0 <= j < kept_in_region(tags).len() ==> exists|i: int|
                0 <= i < tags.len() && #[trigger] kept_in_region(tags)[j] == stamped(
                    #[trigger] tags[i],
                    unmatched(tags.take(i + 1)) as nat,
                ),
    decreases tags.len(),
{
    if tags.len() > 0 {
        let init = tags.drop_last();
        lemma_kept_come_from_region(init);
        assert forall|j: int| 0 <= j < kept_in_region(tags).len() implies exists|i: int|
            0 <= i < tags.len() && #[trigger] kept_in_region(tags)[j] == stamped(
                #[trigger] tags[i],
                unmatched(tags.take(i + 1)) as nat,
            ) by {
            if j < kept_in_region(init).len() {
                let i = choose|i: int|
                    0 <= i < init.len() && #[trigger] kept_in_region(init)[j] == stamped(
                        #[trigger] init[i],
                        unmatched(init.take(i + 1)) as nat,
                    );
                assert(init[i] == tags[i]);
                assert(init.take(i + 1) == tags.take(i + 1));
                assert(kept_in_region(tags)[j] == kept_in_region(init)[j]);
            } else {
                let i = tags.len() - 1;
                assert(tags.take(i + 1) == tags);
                assert(kept_in_region(tags)[j] == stamped(tags[i], unmatched(tags) as nat));
            }
        }
    }
}

} // verus!
