use page_markdown::{extract, markdown};
use page_markdown::stream::{render_page, render_tags, StreamRenderer};
use page_markdown::tag::{Door, Page, Tag};

fn tag(name: &str, door: Door, attributes: &[&str], content: Option<&str>, depth: usize) -> Tag {
    Tag {
        name: name.to_string(),
        door,
        attributes: attributes.iter().map(|a| a.to_string()).collect(),
        content: content.map(|c| c.to_string()),
        depth,
    }
}

#[test]
fn stream_of_paragraph_with_emphasis() {
    let tags = vec![
        tag("p", Door::Opening, &[], None, 1),
        tag("em", Door::Opening, &[], Some("Hello"), 2),
        tag("em", Door::Closing, &[], Some("world"), 1),
        tag("p", Door::Closing, &[], None, 0),
    ];
    assert_eq!(render_tags(&tags), "\n\nHello_world_\n\n".to_string());
}

#[test]
fn stream_anchor_takes_its_target_from_the_raw_token() {
    let tags = vec![
        tag("a", Door::Opening, &["class=k", "href=\"X\""], None, 1),
        tag("a", Door::Closing, &[], Some("click"), 0),
    ];
    assert_eq!(render_tags(&tags), "[click](X)".to_string());
}

#[test]
fn stream_image_needs_both_attributes() {
    let tags = vec![
        tag("img", Door::SelfClosing, &["alt=pic", "src=p.png"], Some("a"), 0),
        tag("img", Door::SelfClosing, &["src=p.png"], Some("b"), 0),
        tag("hr", Door::SelfClosing, &[], Some("c"), 0),
    ];
    assert_eq!(render_tags(&tags), "a![pic](p.png)bc\n\n".to_string());
}

#[test]
fn stream_skips_script_and_style() {
    let tags = vec![
        tag("script", Door::Opening, &[], Some("before"), 1),
        tag("p", Door::Opening, &[], Some("var x"), 2),
        tag("p", Door::Closing, &[], Some("inner"), 1),
        tag("style", Door::Closing, &[], Some("still inside"), 1),
        tag("script", Door::Closing, &[], Some("code"), 0),
        tag("style", Door::Opening, &[], Some(" between "), 1),
        tag("style", Door::Closing, &[], Some("p { }"), 0),
        tag("i", Door::Opening, &[], Some("after"), 1),
        tag("i", Door::Closing, &[], Some("x"), 0),
    ];
    assert_eq!(render_tags(&tags), "before between after_x_".to_string());
}

#[test]
fn unclosed_elements_close_when_a_sibling_opens() {
    let tags = vec![
        tag("ul", Door::Opening, &[], None, 1),
        tag("b", Door::Opening, &[], None, 2),
        tag("b", Door::Opening, &[], Some("one"), 2),
        tag("ul", Door::Closing, &[], Some("two"), 0),
    ];
    assert_eq!(render_tags(&tags), "**one****two**".to_string());
}

#[test]
fn suffixes_left_at_the_end_are_discharged() {
    let mut r = StreamRenderer::new();
    r.feed(&tag("p", Door::Opening, &[], None, 1));
    r.feed(&tag("a", Door::Opening, &["href=u"], Some("see "), 2));
    r.feed(&tag("em", Door::Opening, &[], Some("this"), 3));
    assert_eq!(r.finish(), "\n\nsee [this__](u)\n\n".to_string());
    assert_eq!(StreamRenderer::new().finish(), String::new());
    assert_eq!(render_tags(&Vec::new()), String::new());
}

#[test]
fn deepest_stamp_is_no_overflow() {
    let tags = vec![
        tag("b", Door::Opening, &[], None, usize::MAX),
        tag("b", Door::Closing, &[], Some("x"), usize::MAX),
        tag("hr", Door::SelfClosing, &[], None, usize::MAX),
        tag("i", Door::Closing, &[], Some("y"), 0),
    ];
    assert_eq!(render_tags(&tags), "**x\n\ny**".to_string());
}

#[test]
fn page_text_puts_the_title_first() {
    let body = vec![
        tag("p", Door::Opening, &[], None, 1),
        tag("p", Door::Closing, &[], Some("A"), 0),
    ];
    let with = Page { title: Some("T".to_string()), body: body.clone() };
    let without = Page { title: None, body };
    assert_eq!(render_page(&with), "T\n\n\nA\n\n".to_string());
    assert_eq!(render_page(&without), "\n\nA\n\n".to_string());
}

#[test]
fn markup_to_text_in_one_pass() {
    let html = "<html><head><title>T</title><meta charset=utf-8></head><body><nav>menu</nav>\
                <main><h1>Head</h1><p>Hello <em>world</em> and <a href=\"u\">link</a>.</p>\
                <script>var a = 1;</script></main><footer><p>legal</p></footer></body></html>";
    let page = extract(html);
    assert_eq!(page.title, Some("T".to_string()));
    assert_eq!(
        markdown(html),
        "T\n\n\n# Head\n\nHello _world_ and [link](u).\n\n".to_string()
    );
    assert_eq!(render_page(&page), markdown(html));
}

#[test]
fn markup_without_main_gives_no_body() {
    assert_eq!(markdown("<p>text</p>"), String::new());
    assert_eq!(markdown(""), String::new());
    assert_eq!(markdown("<title>only</title>"), "only\n".to_string());
}
