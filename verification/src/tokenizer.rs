//! The streaming tokenizer: characters in, flat tag events out.
use crate::tag::{lemma_tag_views_push, tag_views, Door, Tag, TagView};
use crate::text::{
    collapse_str, is_ascii_capital, lemma_lower_has_no_capitals, lemma_normalize_opt_idempotent,
    lemma_words_are_solid, lower, lower_string, normalize, normalize_opt, solid_word,
    split_words, string_of_range, words,
};
use vstd::prelude::*;

verus! {

/// The position of the last `<` in `s`, if there is one.
pub open spec fn last_open(s: Seq<char>) -> Option<int>
    decreases s.len(),
{
    if s.len() == 0 {
        None
    } else if s.last() == '<' {
        Some(s.len() - 1)
    } else {
        last_open(s.drop_last())
    }
}

/// The door of a tag with the body `body`, the text between `<` and `>`:
/// closing when it begins with a slash, self-closing when it ends with one,
/// opening otherwise.
pub open spec fn body_door(body: Seq<char>) -> Door {
    if body.len() > 0 && body[0] == '/' {
        Door::Closing
    } else if body.len() > 0 && body.last() == '/' {
        Door::SelfClosing
    } else {
        Door::Opening
    }
}

/// The body of a tag without the slash that marks its door.
pub open spec fn body_inner(body: Seq<char>) -> Seq<char> {
    match body_door(body) {
        Door::Closing => body.subrange(1, body.len() as int),
        Door::SelfClosing => body.subrange(0, body.len() - 1),
        Door::Opening => body,
    }
}

/// The tag that a body stands for, with `content` as its preceding text.
/// The first word of the body is the name, put in lower case; the words after
/// it are the attributes of an opening or self-closing tag, and a closing tag
/// has none. A body without a word names no element and stands for no tag.
pub open spec fn parse_tag(body: Seq<char>, content: Option<Seq<char>>) -> Option<TagView> {
    let w = words(body_inner(body));
    if w.len() == 0 {
        None
    } else {
        Some(
            TagView {
                name: lower(w[0]),
                door: body_door(body),
                attributes: if body_door(body) == Door::Closing {
                    Seq::empty()
                } else {
                    w.subrange(1, w.len() as int)
                },
                content,
                depth: 0,
            },
        )
    }
}

/// The state of a tokenizer: the characters fed since the last completed tag
/// and the tags completed so far.
pub struct TokenizerView {
    pub pending: Seq<char>,
    pub tags: Seq<TagView>,
}

/// The state before any character is fed.
pub open spec fn initial() -> TokenizerView {
    TokenizerView { pending: Seq::empty(), tags: Seq::empty() }
}

/// The state after `c` is fed in state `st`.
///
/// Any character but `>` is kept as pending. A `>` completes a tag when the
/// pending characters hold a `<` and a name follows the last one: the text
/// before that `<` becomes the tag's content and nothing stays pending.
/// Any other `>` is kept as pending too.
pub open spec fn feed_step(st: TokenizerView, c: char) -> TokenizerView {
    let absorbed = TokenizerView { pending: st.pending.push(c), tags: st.tags };
    if c != '>' {
        absorbed
    } else {
        match last_open(st.pending) {
            None => absorbed,
            Some(p) => match parse_tag(
                st.pending.subrange(p + 1, st.pending.len() as int),
                normalize(st.pending.subrange(0, p)),
            ) {
                None => absorbed,
                Some(tag) => TokenizerView { pending: Seq::empty(), tags: st.tags.push(tag) },
            },
        }
    }
}

/// The state after the characters of `input` are fed in order in state `st`.
pub open spec fn feed_all(st: TokenizerView, input: Seq<char>) -> TokenizerView
    decreases input.len(),
{
    if input.len() == 0 {
        st
    } else {
        feed_step(feed_all(st, input.drop_last()), input.last())
    }
}

/// The tags of a whole input.
pub open spec fn tokens(input: Seq<char>) -> Seq<TagView> {
    feed_all(initial(), input).tags
}

/// Where no `<` stands at or after position `i`, the last `<` of `s` is that
/// of its first `i` characters.
pub proof fn lemma_last_open_prefix(s: Seq<char>, i: int)
    requires
        0 <= i <= s.len(),
        forall|j: int| i <= j < s.len() ==> s[j] != '<',
    ensures
        last_open(s) == last_open(s.take(i)),
    decreases s.len() - i,
{
    if i == s.len() {
        assert(s.take(i) == s);
    } else {
        let init = s.drop_last();
        assert(s.last() == s[s.len() - 1]);
        assert forall|j: int| i <= j < init.len() implies init[j] != '<' by {
            assert(init[j] == s[j]);
        }
        lemma_last_open_prefix(init, i);
        assert(init.take(i) == s.take(i));
    }
}

/// What `last_open` finds is the last `<`: a `<` stands there and none
/// behind it; it finds nothing only where there is no `<` at all.
pub proof fn lemma_last_open_is_last(s: Seq<char>)
    ensures
        match last_open(s) {
            Some(p) => 0 <= p < s.len() && s[p] == '<' && forall|j: int|
                p < j < s.len() ==> s[j] != '<',
            None => forall|j: int| 0 <= j < s.len() ==> s[j] != '<',
        },
    decreases s.len(),
{
    if s.len() > 0 && s.last() != '<' {
        let init = s.drop_last();
        lemma_last_open_is_last(init);
        match last_open(init) {
            Some(p) => {
                assert forall|j: int| p < j < s.len() implies s[j] != '<' by {
                    if j < init.len() {
                        assert(init[j] == s[j]);
                    }
                }
            },
            None => {
                assert forall|j: int| 0 <= j < s.len() implies s[j] != '<' by {
                    if j < init.len() {
                        assert(init[j] == s[j]);
                    }
                }
            },
        }
    }
}

/// A streaming tokenizer. Characters are fed one at a time; each `>` that
/// closes a tag adds one tag event.
pub struct Tokenizer {
    pending: Vec<char>,
    tags: Vec<Tag>,
}

impl View for Tokenizer {
    type V = TokenizerView;

    closed spec fn view(&self) -> TokenizerView {
        TokenizerView { pending: self.pending@, tags: tag_views(self.tags@) }
    }
}

/// Finds the last `<` among the characters of `v`.
fn find_last_open(v: &Vec<char>) -> (r: Option<usize>)
    ensures
        match r {
            Some(p) => last_open(v@) == Some(p as int) && p < v.len(),
            None => last_open(v@) is None,
        },
{
    let mut i: usize = v.len();
    while i > 0
        invariant
            i <= v.len(),
            forall|j: int| i <= j < v.len() ==> v@[j] != '<',
        decreases i,
    {
        if v[i - 1] == '<' {
            proof {
                lemma_last_open_prefix(v@, i as int);
                assert(v@.take(i as int).last() == '<');
            }
            return Some(i - 1);
        }
        i -= 1;
    }
    proof {
        lemma_last_open_prefix(v@, 0);
    }
    None
}

impl Tokenizer {
    /// A tokenizer that has seen no input.
    pub fn new() -> (t: Tokenizer)
        ensures
            t@ == initial(),
    {
        let t = Tokenizer { pending: Vec::new(), tags: Vec::new() };
        proof {
            assert(tag_views(t.tags@) =~= Seq::<TagView>::empty());
        }
        t
    }

    /// Takes one character of input.
    pub fn feed(&mut self, c: char)
        ensures
            final(self)@ == feed_step(old(self)@, c),
    {
        if c != '>' {
            self.pending.push(c);
            return ;
        }
        let found = find_last_open(&self.pending);
        let p = match found {
            Some(p) => p,
            None => {
                self.pending.push(c);
                return ;
            },
        };
        let len = self.pending.len();
        let ghost body = self.pending@.subrange(p + 1, len as int);
        let mut from = p + 1;
        let mut to = len;
        let mut door = Door::Opening;
        if from < to && self.pending[from] == '/' {
            door = Door::Closing;
            from += 1;
        } else if from < to && self.pending[to - 1] == '/' {
            door = Door::SelfClosing;
            to -= 1;
        }
        proof {
            assert(body.len() > 0 ==> body[0] == self.pending@[p + 1]);
            assert(body.len() > 0 ==> body.last() == self.pending@[len - 1]);
            assert(door == body_door(body));
            assert(self.pending@.subrange(from as int, to as int) == body_inner(body));
        }
        let mut found_words = split_words(&self.pending, from, to);
        if found_words.len() == 0 {
            self.pending.push(c);
            return ;
        }
        let ghost w = crate::text::texts(found_words@);
        let first = found_words.remove(0);
        proof {
            assert(crate::text::texts(found_words@) =~= w.subrange(1, w.len() as int));
            assert(first@ == w[0]);
        }
        let name = lower_string(first.as_str());
        let before = string_of_range(&self.pending, 0, p);
        let content = collapse_str(before.as_str());
        let attributes = match door {
            Door::Closing => {
                let none: Vec<String> = Vec::new();
                proof {
                    assert(crate::text::texts(none@) =~= Seq::<Seq<char>>::empty());
                }
                none
            },
            _ => found_words,
        };
        let tag = Tag { name, door, attributes, content, depth: 0 };
        proof {
            lemma_tag_views_push(self.tags@, tag);
        }
        self.tags.push(tag);
        self.pending = Vec::new();
    }

    /// Takes the characters of `input`, in order.
    pub fn feed_str(&mut self, input: &str)
        ensures
            final(self)@ == feed_all(old(self)@, input@),
    {
        for c in it: input.chars()
            invariant
                it.seq() == input@,
                self@ == feed_all(old(self)@, input@.take(it.index() as int)),
        {
            proof {
                let next = input@.take(it.index() + 1);
                assert(next.drop_last() == input@.take(it.index() as int));
                assert(next.last() == c);
            }
            self.feed(c);
        }
        proof {
            assert(input@.take(input@.len() as int) == input@);
        }
    }

    /// The number of tags completed so far.
    pub fn tag_count(&self) -> (n: usize)
        ensures
            n == self@.tags.len(),
    {
        self.tags.len()
    }

    /// The characters fed since the last completed tag.
    pub fn pending_text(&self) -> (s: String)
        ensures
            s@ == self@.pending,
    {
        let s = string_of_range(&self.pending, 0, self.pending.len());
        proof {
            assert(self.pending@.subrange(0, self.pending@.len() as int) == self.pending@);
        }
        s
    }

    /// Gives up the tokenizer for the tags it completed, in order.
    pub fn into_tags(self) -> (tags: Vec<Tag>)
        ensures
            tag_views(tags@) == self@.tags,
    {
        self.tags
    }
}

/// Tokenizes a whole input at once.
pub fn tokenize(input: &str) -> (tags: Vec<Tag>)
    ensures
        tag_views(tags@) == tokens(input@),
{
    let mut t = Tokenizer::new();
    t.feed_str(input);
    t.into_tags()
}

/// A tag as the tokenizer makes it: its name is not empty and holds neither
/// whitespace nor an ASCII capital letter, no attribute token is empty or
/// holds whitespace, a closing tag has no attribute, its content is in normal
/// form, and its depth is zero.
pub open spec fn fresh(tag: TagView) -> bool {
    &&& solid_word(tag.name)
    &&& forall|j: int| 0 <= j < tag.name.len() ==> !is_ascii_capital(#[trigger] tag.name[j])
    &&& forall|k: int| 0 <= k < tag.attributes.len() ==> solid_word(#[trigger] tag.attributes[k])
    &&& tag.door == Door::Closing ==> tag.attributes.len() == 0
    &&& normalize_opt(tag.content) == tag.content
    &&& tag.depth == 0
}

/// Every tag that a body stands for is a fresh one, given content in normal
/// form.
pub proof fn lemma_parse_tag_fresh(body: Seq<char>, content: Option<Seq<char>>)
    requires
        normalize_opt(content) == content,
    ensures
        parse_tag(body, content) matches Some(tag) ==> fresh(tag),
{
    let w = words(body_inner(body));
    lemma_words_are_solid(body_inner(body));
    if w.len() > 0 {
        let tag = parse_tag(body, content)->0;
        assert(solid_word(w[0]));
        lemma_lower_has_no_capitals(w[0]);
        assert forall|k: int| 0 <= k < tag.attributes.len() implies solid_word(
            #[trigger] tag.attributes[k],
        ) by {
            assert(tag.attributes[k] == w[k + 1]);
        }
        assert(tag.door == Door::Closing ==> tag.attributes.len() == 0);
    }
}

/// Feeding characters keeps every tag fresh.
pub proof fn lemma_feed_keeps_fresh(st: TokenizerView, input: Seq<char>)
    requires
        forall|i: int| 0 <= i < st.tags.len() ==> fresh(#[trigger] st.tags[i]),
    ensures
        forall|i: int|
            0 <= i < feed_all(st, input).tags.len() ==> fresh(#[trigger] feed_all(st, input).tags[i]),
    decreases input.len(),
{
    if input.len() > 0 {
        let mid = feed_all(st, input.drop_last());
        lemma_feed_keeps_fresh(st, input.drop_last());
        let end = feed_step(mid, input.last());
        if end.tags.len() > mid.tags.len() {
            let p = last_open(mid.pending)->0;
            let text = mid.pending.subrange(0, p);
            let content = normalize(text);
            lemma_normalize_opt_idempotent(Some(text));
            lemma_parse_tag_fresh(mid.pending.subrange(p + 1, mid.pending.len() as int), content);
            assert forall|i: int| 0 <= i < end.tags.len() implies fresh(#[trigger] end.tags[i]) by {
                if i < mid.tags.len() {
                    assert(end.tags[i] == mid.tags[i]);
                }
            }
        }
    }
}

/// Every tag of an input is fresh: it has a name, in lower case, and its
/// content is absent or a normalized text with more than whitespace in it.
pub proof fn lemma_tokens_are_fresh(input: Seq<char>)
    ensures
        forall|i: int| 0 <= i < tokens(input).len() ==> fresh(#[trigger] tokens(input)[i]),
{
    lemma_feed_keeps_fresh(initial(), input);
}

} // verus!
