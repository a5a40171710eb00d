//! The table of element rules: what each element writes before its children
//! and what it writes after them.
use crate::text::{char_ascii_lower, lower, str_eq, string_of_range};
use vstd::prelude::*;
use vstd::string::StringExecFns;

verus! {

/// One attribute of an element.
#[derive(Clone, Debug, PartialEq, Eq)]
pub struct Attribute {
    pub name: String,
    pub value: String,
}

/// The mathematical value of an `Attribute`.
pub struct AttributeView {
    pub name: Seq<char>,
    pub value: Seq<char>,
}

impl View for Attribute {
    type V = AttributeView;

    open spec fn view(&self) -> AttributeView {
        AttributeView { name: self.name@, value: self.value@ }
    }
}

/// The views of a sequence of attributes.
pub open spec fn attribute_views(attributes: Seq<Attribute>) -> Seq<AttributeView> {
    attributes.map_values(|a: Attribute| a@)
}

/// The value of the first attribute named `name`, if there is one.
pub open spec fn attribute_value(attributes: Seq<AttributeView>, name: Seq<char>) -> Option<
    Seq<char>,
>
    decreases attributes.len(),
{
    if attributes.len() == 0 {
        None
    } else if attributes[0].name == name {
        Some(attributes[0].value)
    } else {
        attribute_value(attributes.drop_first(), name)
    }
}

/// What an element is to the renderer.
#[derive(Clone, Copy, Debug, PartialEq, Eq, Structural)]
pub enum Element {
    /// `p`
    Paragraph,
    /// `br`
    LineBreak,
    /// `h1` to `h6`, with the level
    Heading(u8),
    /// `blockquote`
    Blockquote,
    /// `li`
    ListItem,
    /// `hr`
    Rule,
    /// `em` and `i`
    Emphasis,
    /// `b` and `strong`
    Strong,
    /// `img`
    Image,
    /// `a`
    Anchor,
    /// `style` and `script`: the element and all below it are left out
    Skipped,
    /// any other element: it writes nothing of its own
    Other,
}

/// The element that a name stands for.
pub open spec fn element_of(name: Seq<char>) -> Element {
    if name == "style"@ || name == "script"@ {
        Element::Skipped
    } else if name == "p"@ {
        Element::Paragraph
    } else if name == "br"@ {
        Element::LineBreak
    } else if name == "h1"@ {
        Element::Heading(1)
    } else if name == "h2"@ {
        Element::Heading(2)
    } else if name == "h3"@ {
        Element::Heading(3)
    } else if name == "h4"@ {
        Element::Heading(4)
    } else if name == "h5"@ {
        Element::Heading(5)
    } else if name == "h6"@ {
        Element::Heading(6)
    } else if name == "blockquote"@ {
        Element::Blockquote
    } else if name == "li"@ {
        Element::ListItem
    } else if name == "hr"@ {
        Element::Rule
    } else if name == "em"@ || name == "i"@ {
        Element::Emphasis
    } else if name == "b"@ || name == "strong"@ {
        Element::Strong
    } else if name == "img"@ {
        Element::Image
    } else if name == "a"@ {
        Element::Anchor
    } else {
        Element::Other
    }
}

/// `n` number signs.
pub open spec fn hashes(n: nat) -> Seq<char> {
    Seq::new(n, |i: int| '#')
}

/// What an element with the attributes `attributes` writes before its
/// children. An image writes itself only when it has both `alt` and `src`, an
/// anchor opens a link only when it has `href`.
pub open spec fn prefix(element: Element, attributes: Seq<AttributeView>) -> Seq<char> {
    match element {
        Element::Paragraph => "\n\n"@,
        Element::LineBreak => "\n"@,
        Element::Heading(level) => "\n\n"@ + hashes(level as nat) + " "@,
        Element::Blockquote => "\n\n> "@,
        Element::ListItem => "\n - "@,
        Element::Rule => "\n\n"@,
        Element::Emphasis => "_"@,
        Element::Strong => "**"@,
        Element::Image => match (
            attribute_value(attributes, "alt"@),
            attribute_value(attributes, "src"@),
        ) {
            (Some(alt), Some(src)) => "!["@ + alt + "]("@ + src + ")"@,
            _ => Seq::empty(),
        },
        Element::Anchor => match attribute_value(attributes, "href"@) {
            Some(_) => "["@,
            None => Seq::empty(),
        },
        Element::Skipped => Seq::empty(),
        Element::Other => Seq::empty(),
    }
}

/// What an element with the attributes `attributes` writes after its
/// children.
pub open spec fn suffix(element: Element, attributes: Seq<AttributeView>) -> Seq<char> {
    match element {
        Element::Paragraph => "\n\n"@,
        Element::Emphasis => "_"@,
        Element::Strong => "**"@,
        Element::Anchor => match attribute_value(attributes, "href"@) {
            Some(href) => "]("@ + href + ")"@,
            None => Seq::empty(),
        },
        _ => Seq::empty(),
    }
}

/// Looks a name up in the table of elements.
pub fn classify(name: &str) -> (element: Element)
    ensures
        element == element_of(name@),
{
    if str_eq(name, "style") || str_eq(name, "script") {
        Element::Skipped
    } else if str_eq(name, "p") {
        Element::Paragraph
    } else if str_eq(name, "br") {
        Element::LineBreak
    } else if str_eq(name, "h1") {
        Element::Heading(1)
    } else if str_eq(name, "h2") {
        Element::Heading(2)
    } else if str_eq(name, "h3") {
        Element::Heading(3)
    } else if str_eq(name, "h4") {
        Element::Heading(4)
    } else if str_eq(name, "h5") {
        Element::Heading(5)
    } else if str_eq(name, "h6") {
        Element::Heading(6)
    } else if str_eq(name, "blockquote") {
        Element::Blockquote
    } else if str_eq(name, "li") {
        Element::ListItem
    } else if str_eq(name, "hr") {
        Element::Rule
    } else if str_eq(name, "em") || str_eq(name, "i") {
        Element::Emphasis
    } else if str_eq(name, "b") || str_eq(name, "strong") {
        Element::Strong
    } else if str_eq(name, "img") {
        Element::Image
    } else if str_eq(name, "a") {
        Element::Anchor
    } else {
        Element::Other
    }
}

/// Finds the first attribute named `name` and gives its position.
pub fn find_attribute(attributes: &Vec<Attribute>, name: &str) -> (found: Option<usize>)
    ensures
        match found {
            Some(i) => i < attributes.len() && attributes[i as int].name@ == name@ && (forall|
                j: int,
            |
                0 <= j < i ==> (#[trigger] attributes[j]).name@ != name@) && attribute_value(
                attribute_views(attributes@),
                name@,
            ) == Some(attributes[i as int].value@),
            None => (forall|j: int|
                0 <= j < attributes.len() ==> (#[trigger] attributes[j]).name@ != name@)
                && attribute_value(attribute_views(attributes@), name@) is None,
        },
{
    let ghost all = attribute_views(attributes@);
    let mut i: usize = 0;
    proof {
        assert(all.subrange(0, all.len() as int) == all);
    }
    while i < attributes.len()
        invariant
            i <= attributes.len(),
            all == attribute_views(attributes@),
            forall|j: int| 0 <= j < i ==> (#[trigger] attributes[j]).name@ != name@,
            attribute_value(all, name@) == attribute_value(
                all.subrange(i as int, all.len() as int),
                name@,
            ),
        decreases attributes.len() - i,
    {
        let ghost rest = all.subrange(i as int, all.len() as int);
        proof {
            assert(rest[0] == attributes[i as int]@);
            assert(rest.drop_first() == all.subrange(i + 1, all.len() as int));
        }
        if str_eq(attributes[i].name.as_str(), name) {
            return Some(i);
        }
        i += 1;
    }
    None
}

/// Appends to `out` what the element writes before its children.
pub fn write_prefix(out: &mut String, element: Element, attributes: &Vec<Attribute>)
    ensures
        final(out)@ == old(out)@ + prefix(element, attribute_views(attributes@)),
{
    let ghost before = out@;
    match element {
        Element::Paragraph => out.append("\n\n"),
        Element::LineBreak => out.append("\n"),
        Element::Heading(level) => {
            out.append("\n\n");
            let mut i: u8 = 0;
            while i < level
                invariant
                    i <= level,
                    out@ == before + "\n\n"@ + hashes(i as nat),
                decreases level - i,
            {
                out.push('#');
                i += 1;
                proof {
                    assert(hashes(i as nat) == hashes((i - 1) as nat).push('#'));
                }
            }
            out.append(" ");
            proof {
                assert(out@ == before + ("\n\n"@ + hashes(level as nat) + " "@));
            }
        },
        Element::Blockquote => out.append("\n\n> "),
        Element::ListItem => out.append("\n - "),
        Element::Rule => out.append("\n\n"),
        Element::Emphasis => out.append("_"),
        Element::Strong => out.append("**"),
        Element::Image => {
            let alt = find_attribute(attributes, "alt");
            let src = find_attribute(attributes, "src");
            match (alt, src) {
                (Some(a), Some(s)) => {
                    out.append("![");
                    out.append(attributes[a].value.as_str());
                    out.append("](");
                    out.append(attributes[s].value.as_str());
                    out.append(")");
                    proof {
                        assert(out@ == before + ("!["@ + attributes[a as int].value@ + "]("@
                            + attributes[s as int].value@ + ")"@));
                    }
                },
                _ => {
                    proof {
                        assert(before + Seq::<char>::empty() == before);
                    }
                },
            }
        },
        Element::Anchor => {
            match find_attribute(attributes, "href") {
                Some(_) => out.append("["),
                None => {
                    proof {
                        assert(before + Seq::<char>::empty() == before);
                    }
                },
            }
        },
        Element::Skipped => {
            proof {
                assert(before + Seq::<char>::empty() == before);
            }
        },
        Element::Other => {
            proof {
                assert(before + Seq::<char>::empty() == before);
            }
        },
    }
}

/// What the element writes after its children.
pub fn suffix_of(element: Element, attributes: &Vec<Attribute>) -> (s: String)
    ensures
        s@ == suffix(element, attribute_views(attributes@)),
{
    match element {
        Element::Paragraph => String::from_str("\n\n"),
        Element::Emphasis => String::from_str("_"),
        Element::Strong => String::from_str("**"),
        Element::Anchor => {
            match find_attribute(attributes, "href") {
                Some(h) => {
                    let mut s = String::from_str("](");
                    s.append(attributes[h].value.as_str());
                    s.append(")");
                    s
                },
                None => String::new(),
            }
        },
        _ => String::new(),
    }
}

/// The position of the first `=` in `s`, or the length of `s` without one.
pub open spec fn key_end(s: Seq<char>) -> int
    decreases s.len(),
{
    if s.len() == 0 || s[0] == '=' {
        0
    } else {
        1 + key_end(s.drop_first())
    }
}

/// `v` without the pair of equal quotes around it, if it stands in one.
pub open spec fn unquoted(v: Seq<char>) -> Seq<char> {
    if v.len() >= 2 && v[0] == v.last() && (v[0] == '"' || v[0] == '\'') {
        v.subrange(1, v.len() - 1)
    } else {
        v
    }
}

/// The attribute that a raw token `key` or `key=value` stands for: the name
/// is the key in lower case, the value what follows the first `=`, without
/// quotes around it, or nothing.
pub open spec fn attribute_of(token: Seq<char>) -> AttributeView {
    let k = key_end(token);
    AttributeView {
        name: lower(token.subrange(0, k)),
        value: if k < token.len() {
            unquoted(token.subrange(k + 1, token.len() as int))
        } else {
            Seq::empty()
        },
    }
}

/// The attributes that a sequence of raw tokens stands for.
pub open spec fn attributes_of(tokens: Seq<Seq<char>>) -> Seq<AttributeView> {
    tokens.map_values(|t: Seq<char>| attribute_of(t))
}

/// The first `=` of `s` is within `s` or at its end, and no `=` stands
/// before it.
pub proof fn lemma_key_end(s: Seq<char>)
    ensures
        0 <= key_end(s) <= s.len(),
        key_end(s) < s.len() ==> s[key_end(s)] == '=',
        forall|j: int| 0 <= j < key_end(s) ==> s[j] != '=',
    decreases s.len(),
{
    if s.len() > 0 && s[0] != '=' {
        let rest = s.drop_first();
        lemma_key_end(rest);
        assert forall|j: int| 0 <= j < key_end(s) implies s[j] != '=' by {
            if j > 0 {
                assert(s[j] == rest[j - 1]);
            }
        }
    }
}

/// If the first `=` of `s` is not among its first `i` characters, it is
/// where the first `=` from `i` on is.
pub proof fn lemma_key_end_skip(s: Seq<char>, i: int)
    requires
        0 <= i <= s.len(),
        forall|j: int| 0 <= j < i ==> s[j] != '=',
    ensures
        key_end(s) == i + key_end(s.subrange(i, s.len() as int)),
    decreases i,
{
    if i == 0 {
        assert(s.subrange(0, s.len() as int) == s);
    } else {
        let rest = s.drop_first();
        assert forall|j: int| 0 <= j < i - 1 implies rest[j] != '=' by {
            assert(rest[j] == s[j + 1]);
        }
        lemma_key_end_skip(rest, i - 1);
        assert(rest.subrange(i - 1, rest.len() as int) == s.subrange(i, s.len() as int));
    }
}

/// Reads a raw attribute token.
pub fn parse_attribute(token: &str) -> (a: Attribute)
    ensures
        a@ == attribute_of(token@),
{
    let v = crate::text::chars_of(token);
    let mut k: usize = 0;
    while k < v.len() && v[k] != '='
        invariant
            k <= v.len(),
            forall|j: int| 0 <= j < k ==> v@[j] != '=',
        decreases v.len() - k,
    {
        k += 1;
    }
    proof {
        lemma_key_end_skip(v@, k as int);
        let rest = v@.subrange(k as int, v@.len() as int);
        if k < v.len() {
            assert(rest[0] == '=');
        }
    }
    let mut name = String::new();
    let mut i: usize = 0;
    while i < k
        invariant
            i <= k <= v.len(),
            name@ == lower(v@.subrange(0, i as int)),
        decreases k - i,
    {
        proof {
            assert(v@.subrange(0, i + 1) == v@.subrange(0, i as int).push(v@[i as int]));
            assert(lower(v@.subrange(0, i + 1)) == lower(v@.subrange(0, i as int)).push(
                crate::text::ascii_lower(v@[i as int]),
            ));
        }
        name.push(char_ascii_lower(v[i]));
        i += 1;
    }
    let mut from: usize = k;
    let mut to: usize = v.len();
    if k < v.len() {
        from = k + 1;
        if to - from >= 2 && v[from] == v[to - 1] && (v[from] == '"' || v[from] == '\'') {
            proof {
                let raw = v@.subrange(k + 1, v@.len() as int);
                assert(raw[0] == v@[from as int]);
                assert(raw.last() == v@[to - 1]);
                assert(raw.subrange(1, raw.len() - 1) == v@.subrange(from + 1, to - 1));
            }
            from += 1;
            to -= 1;
        } else {
            proof {
                let raw = v@.subrange(k + 1, v@.len() as int);
                if raw.len() >= 2 {
                    assert(raw[0] == v@[from as int]);
                    assert(raw.last() == v@[to - 1]);
                }
            }
        }
    }
    let value = string_of_range(&v, from, to);
    proof {
        if k >= v.len() {
            assert(v@.subrange(from as int, to as int) == Seq::<char>::empty());
        }
    }
    Attribute { name, value }
}

/// Reads a sequence of raw attribute tokens.
pub fn parse_attributes(tokens: &Vec<String>) -> (attributes: Vec<Attribute>)
    ensures
        attribute_views(attributes@) == attributes_of(crate::text::texts(tokens@)),
{
    let mut attributes: Vec<Attribute> = Vec::new();
    let mut i: usize = 0;
    while i < tokens.len()
        invariant
            i <= tokens.len(),
            attribute_views(attributes@) == attributes_of(
                crate::text::texts(tokens@).subrange(0, i as int),
            ),
        decreases tokens.len() - i,
    {
        let a = parse_attribute(tokens[i].as_str());
        proof {
            let t = crate::text::texts(tokens@);
            assert(t.subrange(0, i + 1) == t.subrange(0, i as int).push(t[i as int]));
            assert(attributes_of(t.subrange(0, i + 1)) == attributes_of(
                t.subrange(0, i as int),
            ).push(attribute_of(t[i as int])));
            assert(attribute_views(attributes@.push(a)) == attribute_views(attributes@).push(a@));
        }
        attributes.push(a);
        i += 1;
    }
    proof {
        let t = crate::text::texts(tokens@);
        assert(t.subrange(0, t.len() as int) == t);
    }
    attributes
}

} // verus!
