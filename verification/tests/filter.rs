use page_markdown::filter::{filter_tags, is_ignored, ContentFilter};
use page_markdown::tag::{Door, Page, Tag};
use page_markdown::tokenizer::tokenize;

fn tag(name: &str, door: Door, content: Option<&str>, depth: usize) -> Tag {
    Tag {
        name: name.to_string(),
        door,
        attributes: Vec::new(),
        content: content.map(|c| c.to_string()),
        depth,
    }
}

#[test]
fn footer_ends_the_main_region() {
    let page = filter_tags(tokenize(
        "<main><p>A</p></main><footer><p>B</p></footer>",
    ));
    assert_eq!(
        page,
        Page {
            title: None,
            body: vec![
                tag("p", Door::Opening, None, 1),
                tag("p", Door::Closing, Some("A"), 0),
                tag("main", Door::Closing, None, 0),
            ],
        }
    );
    assert!(page.body.iter().any(|t| t.content.as_deref() == Some("A")));
    assert!(!page.body.iter().any(|t| t.content.as_deref() == Some("B")));
}

#[test]
fn nothing_is_kept_past_the_footer() {
    let mut f = ContentFilter::new();
    for t in tokenize("<main><p>A</p><footer>") {
        f.feed(t);
    }
    assert!(f.past_footer());
    assert!(!f.in_main());
    let depth = f.depth();
    for t in tokenize("x</footer><main><p>C</p></main><title>late</title>") {
        f.feed(t);
        assert!(f.past_footer());
        assert!(!f.in_main());
        assert_eq!(f.depth(), depth);
    }
    let page = f.finish();
    assert_eq!(page.title, None);
    assert_eq!(
        page.body,
        vec![
            tag("p", Door::Opening, None, 1),
            tag("p", Door::Closing, Some("A"), 0),
        ]
    );
}

#[test]
fn depth_counts_the_open_elements_of_the_region() {
    let page = filter_tags(tokenize(
        "<html><body><div><main><div><p>a<b>b</b></p><hr/></div></main></div></body></html>",
    ));
    let depths: Vec<(String, Door, usize)> = page
        .body
        .iter()
        .map(|t| (t.name.clone(), t.door, t.depth))
        .collect();
    assert_eq!(
        depths,
        vec![
            ("div".to_string(), Door::Opening, 1),
            ("p".to_string(), Door::Opening, 2),
            ("b".to_string(), Door::Opening, 3),
            ("b".to_string(), Door::Closing, 2),
            ("p".to_string(), Door::Closing, 1),
            ("hr".to_string(), Door::SelfClosing, 1),
            ("div".to_string(), Door::Closing, 0),
            ("main".to_string(), Door::Closing, 0),
            ("div".to_string(), Door::Closing, 0),
            ("body".to_string(), Door::Closing, 0),
            ("html".to_string(), Door::Closing, 0),
        ]
    );
}

#[test]
fn ignored_tags_are_dropped_and_do_not_count() {
    let page = filter_tags(tokenize(
        "<main><table><tr><td><p>in</p></td></tr></table><script>x</script><!-- c --><br><i>k</i></main>",
    ));
    let names: Vec<(String, usize)> = page
        .body
        .iter()
        .map(|t| (t.name.clone(), t.depth))
        .collect();
    assert_eq!(
        names,
        vec![
            ("p".to_string(), 1),
            ("p".to_string(), 0),
            ("i".to_string(), 1),
            ("i".to_string(), 0),
            ("main".to_string(), 0),
        ]
    );
    for t in &page.body {
        assert!(!is_ignored(&t.name));
    }
}

#[test]
fn ignore_list_holds_the_named_classes() {
    for name in [
        "meta", "link", "base", "script", "noscript", "style", "iframe", "embed", "object",
        "video", "audio", "source", "track", "canvas", "svg", "picture", "table", "caption",
        "colgroup", "col", "thead", "tbody", "tfoot", "tr", "th", "td", "br", "!--", "!doctype",
        "!",
    ] {
        assert!(is_ignored(name), "{}", name);
    }
    for name in [
        "main", "footer", "title", "p", "div", "a", "img", "hr", "em", "", "tablet", "b", "metal",
        "bra", "t",
    ] {
        assert!(!is_ignored(name), "{}", name);
    }
}

#[test]
fn title_is_the_first_content_of_a_title_tag() {
    let page = filter_tags(tokenize(
        "<head><title> My \n Page </title></head><main><title>Other</title><p>x</p></main>",
    ));
    assert_eq!(page.title, Some(" My Page ".to_string()));
    assert!(!page.body.iter().any(|t| t.name == "title"));
    assert_eq!(page.body.len(), 3);
}

#[test]
fn second_main_starts_anew() {
    let page = filter_tags(tokenize(
        "<main><p>first</p></main><main><i>second</i></main>",
    ));
    assert_eq!(
        page.body,
        vec![
            tag("i", Door::Opening, None, 1),
            tag("i", Door::Closing, Some("second"), 0),
            tag("main", Door::Closing, None, 0),
        ]
    );
}

#[test]
fn nothing_is_kept_before_main() {
    let page = filter_tags(tokenize("<div><p>a</p><footer>f</footer></div>"));
    assert_eq!(page, Page { title: None, body: Vec::new() });
    let mut f = ContentFilter::new();
    for t in tokenize("<footer>") {
        f.feed(t);
    }
    assert!(!f.past_footer());
    assert_eq!(f.depth(), 1);
}

#[test]
fn depth_never_goes_below_zero() {
    let mut f = ContentFilter::new();
    for t in tokenize("</p></div><main></b></b><p>") {
        f.feed(t);
        assert!(f.depth() <= 1);
    }
    assert_eq!(f.depth(), 1);
    let page = f.finish();
    assert_eq!(
        page.body,
        vec![
            tag("b", Door::Closing, None, 0),
            tag("b", Door::Closing, None, 0),
            tag("p", Door::Opening, None, 1),
        ]
    );
}

#[test]
fn kept_content_is_normalized() {
    let mut f = ContentFilter::new();
    f.feed(tag("main", Door::Opening, None, 0));
    f.feed(tag("p", Door::Opening, Some("  a \n\n b"), 7));
    f.feed(tag("p", Door::Closing, Some(" \t "), 7));
    let page = f.finish();
    assert_eq!(
        page.body,
        vec![
            tag("p", Door::Opening, Some(" a b"), 1),
            tag("p", Door::Closing, None, 0),
        ]
    );
}
