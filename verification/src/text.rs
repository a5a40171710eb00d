//! Characters and strings: whitespace classes, whitespace collapsing and the
//! few string operations the rest of the crate is built on.
use vstd::prelude::*;

verus! {

/// The code points that carry the Unicode `White_Space` property.
pub open spec fn is_whitespace(c: char) -> bool {
    ||| ('\u{9}' <= c && c <= '\u{d}')
    ||| c == ' '
    ||| c == '\u{85}'
    ||| c == '\u{a0}'
    ||| c == '\u{1680}'
    ||| ('\u{2000}' <= c && c <= '\u{200a}')
    ||| c == '\u{2028}'
    ||| c == '\u{2029}'
    ||| c == '\u{202f}'
    ||| c == '\u{205f}'
    ||| c == '\u{3000}'
}

/// Every character of `s` is whitespace; true of the empty sequence.
pub open spec fn all_whitespace(s: Seq<char>) -> bool {
    forall|i: int| 0 <= i < s.len() ==> is_whitespace(#[trigger] s[i])
}

/// `s` with every maximal run of whitespace replaced by one ASCII space.
///
/// Read from the right: a character that is not whitespace is kept, a
/// whitespace character that follows another one vanishes, and a whitespace
/// character that starts a run becomes a space.
pub open spec fn collapse(s: Seq<char>) -> Seq<char>
    decreases s.len(),
{
    if s.len() == 0 {
        Seq::empty()
    } else if !is_whitespace(s.last()) {
        collapse(s.drop_last()).push(s.last())
    } else if s.len() >= 2 && is_whitespace(s[s.len() - 2]) {
        collapse(s.drop_last())
    } else {
        collapse(s.drop_last()).push(' ')
    }
}

/// The normal form of a text run: absent when nothing but whitespace is in
/// it, its collapsed form otherwise.
pub open spec fn normalize(s: Seq<char>) -> Option<Seq<char>> {
    if all_whitespace(s) {
        None
    } else {
        Some(collapse(s))
    }
}

/// `normalize` lifted to an optional text run.
pub open spec fn normalize_opt(s: Option<Seq<char>>) -> Option<Seq<char>> {
    match s {
        None => None,
        Some(t) => normalize(t),
    }
}

/// Tells whether `c` is a whitespace character.
pub fn char_is_whitespace(c: char) -> (b: bool)
    ensures
        b == is_whitespace(c),
{
    ('\u{9}' <= c && c <= '\u{d}') || c == ' ' || c == '\u{85}' || c == '\u{a0}' || c
        == '\u{1680}' || ('\u{2000}' <= c && c <= '\u{200a}') || c == '\u{2028}' || c
        == '\u{2029}' || c == '\u{202f}' || c == '\u{205f}' || c == '\u{3000}'
}

/// `String::push` appends one character to the end of the string.
pub assume_specification[ String::push ](s: &mut String, c: char)
    ensures
        final(s)@ == old(s)@.push(c),
;

/// Collapses every run of whitespace in `string` to a single space.
///
/// Returns `None` when the string is empty or holds whitespace only.
pub fn collapse_whitespace(string: String) -> (result: Option<String>)
    ensures
        result is None <==> all_whitespace(string@),
        result matches Some(t) ==> t@ == collapse(string@),
        option_text(result) == normalize(string@),
{
    collapse_str(string.as_str())
}

/// The view of an optional string.
pub open spec fn option_text(s: Option<String>) -> Option<Seq<char>> {
    match s {
        None => None,
        Some(t) => Some(t@),
    }
}

/// `collapse_whitespace` on a borrowed string.
pub fn collapse_str(s: &str) -> (result: Option<String>)
    ensures
        option_text(result) == normalize(s@),
{
    let mut out = String::new();
    let mut last_was_whitespace = false;
    let mut seen_other = false;
    for c in it: s.chars()
        invariant
            it.seq() == s@,
            out@ == collapse(s@.take(it.index() as int)),
            last_was_whitespace == (it.index() > 0 && is_whitespace(s@[it.index() - 1])),
            seen_other == !all_whitespace(s@.take(it.index() as int)),
    {
        let ghost i = it.index() as int;
        proof {
            let next = s@.take(i + 1);
            assert(next.drop_last() == s@.take(i));
            assert(next.last() == c);
            if all_whitespace(next) {
                assert forall|k: int| 0 <= k < i implies is_whitespace(
                    #[trigger] s@.take(i)[k],
                ) by {
                    assert(s@.take(i)[k] == next[k]);
                }
            }
            if !is_whitespace(c) {
                assert(next[i] == c);
            } else if all_whitespace(s@.take(i)) {
                assert forall|k: int| 0 <= k < i + 1 implies is_whitespace(
                    #[trigger] next[k],
                ) by {
                    if k < i {
                        assert(s@.take(i)[k] == next[k]);
                    }
                }
            }
        }
        if !char_is_whitespace(c) {
            out.push(c);
            last_was_whitespace = false;
            seen_other = true;
        } else {
            if !last_was_whitespace {
                out.push(' ');
            }
            last_was_whitespace = true;
        }
    }
    proof {
        assert(s@.take(s@.len() as int) == s@);
    }
    if seen_other {
        Some(out)
    } else {
        None
    }
}

/// The views of a sequence of strings.
pub open spec fn texts(v: Seq<String>) -> Seq<Seq<char>> {
    v.map_values(|s: String| s@)
}

/// `c` with an ASCII capital letter replaced by its small letter.
pub open spec fn ascii_lower(c: char) -> char {
    if 'A' <= c && c <= 'Z' {
        ((c as u8 + 32) as u8) as char
    } else {
        c
    }
}

/// `s` with every ASCII capital letter replaced by its small letter.
pub open spec fn lower(s: Seq<char>) -> Seq<char> {
    s.map_values(|c: char| ascii_lower(c))
}

/// The words of `s`: its maximal runs of characters that are not whitespace,
/// in order.
///
/// Read from the right: whitespace adds nothing, a character that follows a
/// character of a word extends the last word, any other character starts one.
pub open spec fn words(s: Seq<char>) -> Seq<Seq<char>>
    decreases s.len(),
{
    if s.len() == 0 {
        Seq::empty()
    } else if is_whitespace(s.last()) {
        words(s.drop_last())
    } else if s.len() >= 2 && !is_whitespace(s[s.len() - 2]) {
        let w = words(s.drop_last());
        w.drop_last().push(w.last().push(s.last()))
    } else {
        words(s.drop_last()).push(seq![s.last()])
    }
}

/// Lowers one character as `ascii_lower` says.
pub fn char_ascii_lower(c: char) -> (r: char)
    ensures
        r == ascii_lower(c),
{
    if 'A' <= c && c <= 'Z' {
        ((c as u8) + 32) as char
    } else {
        c
    }
}

/// The characters of `s`, in order.
pub fn chars_of(s: &str) -> (v: Vec<char>)
    ensures
        v@ == s@,
{
    let mut v: Vec<char> = Vec::new();
    for c in it: s.chars()
        invariant
            it.seq() == s@,
            v@ == s@.take(it.index() as int),
    {
        v.push(c);
    }
    proof {
        assert(s@.take(s@.len() as int) == s@);
    }
    v
}

/// Tells whether two string slices hold the same characters.
pub fn str_eq(a: &str, b: &str) -> (r: bool)
    ensures
        r == (a@ == b@),
{
    if a.len() != b.len() {
        return false;
    }
    let x = chars_of(a);
    let y = chars_of(b);
    if x.len() != y.len() {
        return false;
    }
    let mut i: usize = 0;
    while i < x.len()
        invariant
            i <= x.len(),
            x.len() == y.len(),
            x@ == a@,
            y@ == b@,
            forall|j: int| 0 <= j < i ==> x@[j] == y@[j],
        decreases x.len() - i,
    {
        if x[i] != y[i] {
            proof {
                assert(a@[i as int] != b@[i as int]);
            }
            return false;
        }
        i += 1;
    }
    proof {
        assert(x@ =~= y@);
    }
    true
}

/// The characters of `v` from position `from` up to `to`, as a string.
pub fn string_of_range(v: &Vec<char>, from: usize, to: usize) -> (s: String)
    requires
        from <= to <= v.len(),
    ensures
        s@ == v@.subrange(from as int, to as int),
{
    let mut s = String::new();
    let mut i: usize = from;
    while i < to
        invariant
            from <= i <= to <= v.len(),
            s@ == v@.subrange(from as int, i as int),
        decreases to - i,
    {
        s.push(v[i]);
        i += 1;
        proof {
            assert(v@.subrange(from as int, i as int) == v@.subrange(from as int, i - 1).push(
                v@[i - 1],
            ));
        }
    }
    s
}

/// `s` with its ASCII capital letters lowered.
pub fn lower_string(s: &str) -> (r: String)
    ensures
        r@ == lower(s@),
{
    let mut r = String::new();
    for c in it: s.chars()
        invariant
            it.seq() == s@,
            r@ == lower(s@.take(it.index() as int)),
    {
        proof {
            let i = it.index() as int;
            assert(lower(s@.take(i + 1)) == lower(s@.take(i)).push(ascii_lower(c)));
        }
        r.push(char_ascii_lower(c));
    }
    proof {
        assert(s@.take(s@.len() as int) == s@);
    }
    r
}

/// The words between positions `from` and `to` of `v`.
pub fn split_words(v: &Vec<char>, from: usize, to: usize) -> (r: Vec<String>)
    requires
        from <= to <= v.len(),
    ensures
        texts(r@) == words(v@.subrange(from as int, to as int)),
{
    let mut done: Vec<String> = Vec::new();
    let mut word = String::new();
    let mut in_word = false;
    let mut i: usize = from;
    while i < to
        invariant
            from <= i <= to <= v.len(),
            in_word == (i > from && !is_whitespace(v@[i - 1])),
            in_word ==> word@.len() > 0 && words(v@.subrange(from as int, i as int)) == texts(
                done@,
            ).push(word@),
            !in_word ==> word@.len() == 0 && words(v@.subrange(from as int, i as int)) == texts(
                done@,
            ),
        decreases to - i,
    {
        let c = v[i];
        let ghost before = v@.subrange(from as int, i as int);
        let ghost after = v@.subrange(from as int, i + 1);
        proof {
            assert(after.drop_last() == before);
            assert(after.last() == c);
            if i > from {
                assert(after[after.len() - 2] == v@[i - 1]);
            }
        }
        if char_is_whitespace(c) {
            if in_word {
                proof {
                    assert(texts(done@.push(word)) == texts(done@).push(word@));
                }
                done.push(word);
                word = String::new();
                in_word = false;
            }
        } else {
            proof {
                assert(!is_whitespace(after.last()));
                if in_word {
                    let w = texts(done@).push(word@);
                    assert(w.drop_last() == texts(done@));
                    assert(w.last() == word@);
                    assert(after.len() >= 2 && !is_whitespace(after[after.len() - 2]));
                    assert(words(after) == texts(done@).push(word@.push(c)));
                } else {
                    assert(word@.push(c) == seq![c]);
                    assert(!(after.len() >= 2 && !is_whitespace(after[after.len() - 2])));
                    assert(words(after) == texts(done@).push(word@.push(c)));
                }
            }
            word.push(c);
            in_word = true;
        }
        i += 1;
    }
    if in_word {
        proof {
            assert(texts(done@.push(word)) == texts(done@).push(word@));
        }
        done.push(word);
    }
    done
}

/// A collapsed text ends in whitespace exactly when the text itself does.
pub proof fn lemma_collapse_last(s: Seq<char>)
    requires
        s.len() > 0,
    ensures
        collapse(s).len() > 0,
        is_whitespace(collapse(s).last()) == is_whitespace(s.last()),
    decreases s.len(),
{
    if is_whitespace(s.last()) && s.len() >= 2 && is_whitespace(s[s.len() - 2]) {
        lemma_collapse_last(s.drop_last());
    }
}

/// Collapsing keeps a text free of anything but whitespace exactly when it
/// was so before.
pub proof fn lemma_collapse_all_whitespace(s: Seq<char>)
    ensures
        all_whitespace(collapse(s)) == all_whitespace(s),
    decreases s.len(),
{
    if s.len() > 0 {
        let init = s.drop_last();
        let t = collapse(init);
        lemma_collapse_all_whitespace(init);
        if all_whitespace(s) {
            assert forall|k: int| 0 <= k < init.len() implies is_whitespace(
                #[trigger] init[k],
            ) by {
                assert(init[k] == s[k]);
            }
        } else {
            let k = choose|k: int| 0 <= k < s.len() && !is_whitespace(#[trigger] s[k]);
            if k < init.len() {
                assert(init[k] == s[k]);
            }
        }
        if all_whitespace(init) && is_whitespace(s.last()) {
            assert forall|k: int| 0 <= k < s.len() implies is_whitespace(#[trigger] s[k]) by {
                if k < init.len() {
                    assert(init[k] == s[k]);
                }
            }
        }
        let r = collapse(s);
        if r != t {
            let c = r.last();
            assert(r == t.push(c));
            assert(r.drop_last() == t);
            if all_whitespace(r) {
                assert forall|k: int| 0 <= k < t.len() implies is_whitespace(
                    #[trigger] t[k],
                ) by {
                    assert(t[k] == r[k]);
                }
                assert(is_whitespace(r[r.len() - 1]));
            }
            if all_whitespace(t) && is_whitespace(c) {
                assert forall|k: int| 0 <= k < r.len() implies is_whitespace(
                    #[trigger] r[k],
                ) by {
                    if k < t.len() {
                        assert(t[k] == r[k]);
                    }
                }
            }
            if !is_whitespace(c) {
                assert(!is_whitespace(r[r.len() - 1]));
                assert(!is_whitespace(s[s.len() - 1]));
            }
        }
    }
}

/// In a collapsed text the only whitespace is the ASCII space, and no two
/// spaces stand side by side.
pub proof fn lemma_collapse_spaces(s: Seq<char>)
    ensures
        forall|i: int|
            0 <= i < collapse(s).len() && is_whitespace(#[trigger] collapse(s)[i]) ==> collapse(
                s,
            )[i] == ' ',
        forall|i: int|
            0 < i < collapse(s).len() && is_whitespace(#[trigger] collapse(s)[i])
                ==> !is_whitespace(collapse(s)[i - 1]),
    decreases s.len(),
{
    if s.len() > 0 {
        let init = s.drop_last();
        let t = collapse(init);
        let r = collapse(s);
        lemma_collapse_spaces(init);
        if init.len() > 0 {
            lemma_collapse_last(init);
        }
        assert forall|i: int| 0 <= i < r.len() && is_whitespace(#[trigger] r[i]) implies r[i]
            == ' ' by {
            if i < t.len() {
                assert(r[i] == t[i]);
            }
        }
        assert forall|i: int| 0 < i < r.len() && is_whitespace(#[trigger] r[i]) implies !is_whitespace(
            r[i - 1],
        ) by {
            if i < t.len() {
                assert(r[i] == t[i]);
                assert(r[i - 1] == t[i - 1]);
            } else {
                assert(r[i - 1] == t.last());
            }
        }
    }
}

/// The characters of `s` that are not whitespace, in order.
pub open spec fn solid(s: Seq<char>) -> Seq<char> {
    s.filter(|c: char| !is_whitespace(c))
}

/// Collapsing keeps every character that is not whitespace, in its place
/// among the others.
pub proof fn lemma_collapse_keeps_solid(s: Seq<char>)
    ensures
        solid(collapse(s)) == solid(s),
    decreases s.len(),
{
    reveal(Seq::filter);
    if s.len() > 0 {
        let init = s.drop_last();
        let t = collapse(init);
        lemma_collapse_keeps_solid(init);
        let r = collapse(s);
        if r != t {
            assert(r.drop_last() == t);
        }
    }
}

/// Collapsing is idempotent: a collapsed text is its own collapsed form.
pub proof fn lemma_collapse_idempotent(s: Seq<char>)
    ensures
        collapse(collapse(s)) == collapse(s),
    decreases s.len(),
{
    if s.len() > 0 {
        let init = s.drop_last();
        let t = collapse(init);
        lemma_collapse_idempotent(init);
        if !is_whitespace(s.last()) {
            assert(t.push(s.last()).drop_last() == t);
        } else if !(s.len() >= 2 && is_whitespace(s[s.len() - 2])) {
            let r = t.push(' ');
            assert(r.drop_last() == t);
            if init.len() > 0 {
                lemma_collapse_last(init);
                assert(r[r.len() - 2] == t.last());
            }
        }
    }
}

/// A text of whitespace only, the empty text among them, has no normal form.
pub proof fn lemma_normalize_whitespace_only(s: Seq<char>)
    requires
        all_whitespace(s),
    ensures
        normalize(s) is None,
{
}

/// Normalizing is idempotent: the normal form of a text that has one is its
/// own normal form.
pub proof fn lemma_normalize_idempotent(s: Seq<char>)
    requires
        !all_whitespace(s),
    ensures
        normalize(s) is Some,
        normalize(normalize(s)->0) == normalize(s),
{
    lemma_collapse_all_whitespace(s);
    lemma_collapse_idempotent(s);
}

/// Normalizing an optional text twice gives what normalizing it once gives.
pub proof fn lemma_normalize_opt_idempotent(s: Option<Seq<char>>)
    ensures
        normalize_opt(normalize_opt(s)) == normalize_opt(s),
{
    if let Some(t) = s {
        if !all_whitespace(t) {
            lemma_normalize_idempotent(t);
        }
    }
}

/// `w` is not empty and holds no whitespace.
pub open spec fn solid_word(w: Seq<char>) -> bool {
    w.len() > 0 && forall|j: int| 0 <= j < w.len() ==> !is_whitespace(#[trigger] w[j])
}

/// Every word of a text is not empty and holds no whitespace, and a text
/// that ends in a character of a word has a word.
pub proof fn lemma_words_are_solid(s: Seq<char>)
    ensures
        forall|i: int| 0 <= i < words(s).len() ==> solid_word(#[trigger] words(s)[i]),
        s.len() > 0 && !is_whitespace(s.last()) ==> words(s).len() > 0,
    decreases s.len(),
{
    if s.len() > 0 {
        let init = s.drop_last();
        let w = words(init);
        lemma_words_are_solid(init);
        if !is_whitespace(s.last()) {
            if s.len() >= 2 && !is_whitespace(s[s.len() - 2]) {
                assert(init.last() == s[s.len() - 2]);
                let grown = w.last().push(s.last());
                assert(solid_word(w.last()));
                assert forall|j: int| 0 <= j < grown.len() implies !is_whitespace(
                    #[trigger] grown[j],
                ) by {
                    if j < w.last().len() {
                        assert(grown[j] == w.last()[j]);
                    }
                }
                assert forall|i: int| 0 <= i < words(s).len() implies solid_word(
                    #[trigger] words(s)[i],
                ) by {
                    if i < w.len() - 1 {
                        assert(words(s)[i] == w[i]);
                    }
                }
            } else {
                let single = seq![s.last()];
                assert(solid_word(single));
                assert forall|i: int| 0 <= i < words(s).len() implies solid_word(
                    #[trigger] words(s)[i],
                ) by {
                    if i < w.len() {
                        assert(words(s)[i] == w[i]);
                    }
                }
            }
        }
    }
}

/// `c` is an ASCII capital letter.
pub open spec fn is_ascii_capital(c: char) -> bool {
    'A' <= c && c <= 'Z'
}

/// Lowering leaves no ASCII capital letter, and it keeps a word a word.
pub proof fn lemma_lower_has_no_capitals(s: Seq<char>)
    ensures
        lower(s).len() == s.len(),
        forall|j: int| 0 <= j < s.len() ==> !is_ascii_capital(#[trigger] lower(s)[j]),
        solid_word(s) ==> solid_word(lower(s)),
{
    assert forall|j: int| 0 <= j < s.len() implies !is_ascii_capital(#[trigger] lower(s)[j]) by {
        lemma_ascii_lower(s[j]);
    }
    if solid_word(s) {
        assert forall|j: int| 0 <= j < lower(s).len() implies !is_whitespace(
            #[trigger] lower(s)[j],
        ) by {
            lemma_ascii_lower(s[j]);
        }
    }
}

/// A lowered character is no ASCII capital letter; it is the character itself
/// unless that was one, and whitespace only if that was.
pub proof fn lemma_ascii_lower(c: char)
    ensures
        !is_ascii_capital(ascii_lower(c)),
        !is_ascii_capital(c) ==> ascii_lower(c) == c,
        is_ascii_capital(c) ==> 'a' <= ascii_lower(c) && ascii_lower(c) <= 'z',
        is_whitespace(ascii_lower(c)) ==> is_whitespace(c),
{
}

} // verus!
