use page_markdown::dom::{Dom, NodeKind};
use page_markdown::links::{collect_links, collect_links_walk};
use page_markdown::markup::{
    classify, find_attribute, parse_attribute, parse_attributes, suffix_of, write_prefix,
    Attribute, Element,
};
use page_markdown::render::{wiki, walk_wiki};
use page_markdown::text::str_eq;

fn element(name: &str, attributes: &[(&str, &str)]) -> NodeKind {
    NodeKind::Element {
        name: name.to_string(),
        attributes: attributes
            .iter()
            .map(|(n, v)| Attribute { name: n.to_string(), value: v.to_string() })
            .collect(),
    }
}

fn text(t: &str) -> NodeKind {
    NodeKind::Text(t.to_string())
}

#[test]
fn paragraph_with_emphasis() {
    let mut dom = Dom::new();
    let p = dom.add_child(0, element("p", &[])).unwrap();
    dom.add_child(p, text("Hello")).unwrap();
    let em = dom.add_child(p, element("em", &[])).unwrap();
    dom.add_child(em, text("world")).unwrap();
    assert_eq!(wiki(&dom), "\n\nHello_world_\n\n".to_string());
    assert_eq!(walk_wiki(&dom, p), "\n\nHello_world_\n\n".to_string());
    assert_eq!(walk_wiki(&dom, em), "_world_".to_string());
}

#[test]
fn anchor_wraps_its_text() {
    let mut dom = Dom::new();
    let a = dom.add_child(0, element("a", &[("href", "X")])).unwrap();
    dom.add_child(a, text("click")).unwrap();
    assert_eq!(wiki(&dom), "[click](X)".to_string());
}

#[test]
fn anchor_without_target_is_plain() {
    let mut dom = Dom::new();
    let a = dom.add_child(0, element("a", &[("name", "n")])).unwrap();
    dom.add_child(a, text("click")).unwrap();
    assert_eq!(wiki(&dom), "click".to_string());
}

#[test]
fn script_and_style_are_left_out() {
    let mut dom = Dom::new();
    dom.add_child(0, text("a")).unwrap();
    let script = dom.add_child(0, element("script", &[])).unwrap();
    dom.add_child(script, text("var x;")).unwrap();
    let inner = dom.add_child(script, element("p", &[])).unwrap();
    dom.add_child(inner, text("deep")).unwrap();
    let style = dom.add_child(0, element("style", &[])).unwrap();
    dom.add_child(style, text("p { }")).unwrap();
    dom.add_child(0, text("b")).unwrap();
    assert_eq!(wiki(&dom), "ab".to_string());
    assert_eq!(walk_wiki(&dom, script), String::new());
    assert_eq!(walk_wiki(&dom, style), String::new());
    assert_eq!(walk_wiki(&dom, inner), "\n\ndeep\n\n".to_string());
}

#[test]
fn every_rule_of_the_table() {
    let mut dom = Dom::new();
    for (level, name) in ["h1", "h2", "h3", "h4", "h5", "h6"].iter().enumerate() {
        let h = dom.add_child(0, element(name, &[])).unwrap();
        dom.add_child(h, text(&format!("T{}", level + 1))).unwrap();
    }
    let quote = dom.add_child(0, element("blockquote", &[])).unwrap();
    dom.add_child(quote, text("q")).unwrap();
    let list = dom.add_child(0, element("ul", &[])).unwrap();
    for item in ["one", "two"] {
        let li = dom.add_child(list, element("li", &[])).unwrap();
        dom.add_child(li, text(item)).unwrap();
    }
    dom.add_child(0, element("hr", &[])).unwrap();
    let i = dom.add_child(0, element("i", &[])).unwrap();
    dom.add_child(i, text("i")).unwrap();
    let b = dom.add_child(0, element("b", &[])).unwrap();
    dom.add_child(b, text("b")).unwrap();
    let strong = dom.add_child(0, element("strong", &[])).unwrap();
    dom.add_child(strong, text("s")).unwrap();
    dom.add_child(0, element("br", &[])).unwrap();
    dom.add_child(0, element("img", &[("src", "p.png"), ("alt", "pic")])).unwrap();
    dom.add_child(0, element("img", &[("src", "no-alt.png")])).unwrap();
    dom.add_child(0, element("img", &[("alt", "no-src")])).unwrap();
    dom.add_child(0, NodeKind::Comment("not shown".to_string())).unwrap();
    assert_eq!(
        wiki(&dom),
        "\n\n# T1\n\n## T2\n\n### T3\n\n#### T4\n\n##### T5\n\n###### T6\n\n> q\n - one\n - two\n\n_i_**b****s**\n![pic](p.png)"
            .to_string()
    );
}

#[test]
fn suffixes_close_innermost_first() {
    let mut dom = Dom::new();
    let p = dom.add_child(0, element("p", &[])).unwrap();
    let a = dom.add_child(p, element("a", &[("href", "u")])).unwrap();
    let b = dom.add_child(a, element("b", &[])).unwrap();
    let em = dom.add_child(b, element("em", &[])).unwrap();
    dom.add_child(em, text("deep")).unwrap();
    dom.add_child(p, text(" next")).unwrap();
    let q = dom.add_child(0, element("p", &[])).unwrap();
    dom.add_child(q, text("second")).unwrap();
    assert_eq!(
        wiki(&dom),
        "\n\n[**_deep_**](u) next\n\n\n\nsecond\n\n".to_string()
    );
}

#[test]
fn text_nodes_are_normalized() {
    let mut dom = Dom::new();
    dom.add_child(0, text("  a \n b ")).unwrap();
    dom.add_child(0, text(" \n\t ")).unwrap();
    dom.add_child(0, text("c")).unwrap();
    assert_eq!(wiki(&dom), " a b c".to_string());
}

#[test]
fn empty_document_renders_empty() {
    let dom = Dom::new();
    assert_eq!(dom.len(), 1);
    assert_eq!(wiki(&dom), String::new());
    assert_eq!(walk_wiki(&dom, 5), String::new());
    assert_eq!(collect_links(&dom), Vec::<String>::new());
}

#[test]
fn children_go_under_their_parents() {
    let mut dom = Dom::new();
    assert_eq!(dom.add_child(1, text("x")), None);
    assert_eq!(dom.len(), 1);
    let a = dom.add_child(0, element("div", &[])).unwrap();
    let b = dom.add_child(0, element("div", &[])).unwrap();
    let c = dom.add_child(a, text("x")).unwrap();
    assert_eq!((a, b, c), (1, 2, 3));
    assert_eq!(dom.len(), 4);
    assert_eq!(dom.children(0), &vec![1, 2]);
    assert_eq!(dom.children(a), &vec![3]);
    assert_eq!(dom.children(b), &Vec::<usize>::new());
    assert_eq!(dom.kind(c), &text("x"));
    assert_eq!(dom.kind(0), &NodeKind::Document);
}

#[test]
fn deep_tree_needs_no_deep_stack() {
    let mut dom = Dom::new();
    let mut at = 0;
    for _ in 0..200_000 {
        at = dom.add_child(at, element("b", &[])).unwrap();
    }
    dom.add_child(at, text("x")).unwrap();
    let out = wiki(&dom);
    assert_eq!(out.len(), 2 * 2 * 200_000 + 1);
    assert!(out.starts_with("****"));
    assert!(out.ends_with("x****") || out.ends_with("****"));
    assert_eq!(&out[400_000..400_001], "x");
}

#[test]
fn links_come_in_document_order() {
    let mut dom = Dom::new();
    let p = dom.add_child(0, element("p", &[])).unwrap();
    let first = dom.add_child(p, element("a", &[("href", "one")])).unwrap();
    dom.add_child(first, text("1")).unwrap();
    let bare = dom.add_child(p, element("a", &[("name", "anchor")])).unwrap();
    dom.add_child(bare, text("2")).unwrap();
    let second = dom.add_child(0, element("a", &[("class", "k"), ("href", "two")])).unwrap();
    dom.add_child(second, text("3")).unwrap();
    assert_eq!(collect_links(&dom), vec!["one".to_string(), "two".to_string()]);
}

#[test]
fn repeated_links_are_kept() {
    let mut dom = Dom::new();
    for target in ["x", "y", "x", "x"] {
        let div = dom.add_child(0, element("div", &[])).unwrap();
        dom.add_child(div, element("a", &[("href", target)])).unwrap();
    }
    assert_eq!(
        collect_links(&dom),
        vec!["x".to_string(), "y".to_string(), "x".to_string(), "x".to_string()]
    );
}

#[test]
fn links_below_any_anchor_are_found() {
    let mut dom = Dom::new();
    let bare = dom.add_child(0, element("a", &[])).unwrap();
    dom.add_child(bare, element("a", &[("href", "inner")])).unwrap();
    let outer = dom.add_child(0, element("a", &[("href", "outer"), ("href", "again")])).unwrap();
    dom.add_child(outer, element("a", &[("href", "below")])).unwrap();
    let script = dom.add_child(0, element("script", &[])).unwrap();
    dom.add_child(script, element("a", &[("href", "scripted")])).unwrap();
    assert_eq!(
        collect_links(&dom),
        vec![
            "inner".to_string(),
            "outer".to_string(),
            "below".to_string(),
            "scripted".to_string()
        ]
    );
    let mut found = vec!["kept".to_string()];
    collect_links_walk(&dom, outer, &mut found);
    collect_links_walk(&dom, 99, &mut found);
    assert_eq!(
        found,
        vec!["kept".to_string(), "outer".to_string(), "below".to_string()]
    );
}

#[test]
fn anchor_in_anchor_gives_both_targets() {
    let mut dom = Dom::new();
    let out = dom.add_child(0, element("a", &[("href", "out")])).unwrap();
    dom.add_child(out, element("a", &[("href", "in")])).unwrap();
    assert_eq!(collect_links(&dom), vec!["out".to_string(), "in".to_string()]);
    let mut links = Vec::new();
    collect_links_walk(&dom, 0, &mut links);
    assert_eq!(links, vec!["out".to_string(), "in".to_string()]);
}

#[test]
fn deep_anchors_are_all_collected() {
    let mut dom = Dom::new();
    let mut at = 0;
    let mut expected = Vec::new();
    for i in 0..50_000 {
        let target = format!("t{}", i);
        at = dom.add_child(at, element("a", &[("href", &target)])).unwrap();
        expected.push(target);
    }
    assert_eq!(collect_links(&dom), expected);
}

#[test]
fn strings_compare_by_their_characters() {
    assert!(str_eq("", ""));
    assert!(str_eq("main", "main"));
    assert!(str_eq("caf\u{e9}", "caf\u{e9}"));
    assert!(!str_eq("main", "mainz"));
    assert!(!str_eq("main", "maim"));
    assert!(!str_eq("", "a"));
    assert!(!str_eq("\u{e9}", "ab"));
    assert!(!str_eq("ab", "ba"));
}

#[test]
fn names_map_to_elements() {
    assert_eq!(classify("p"), Element::Paragraph);
    assert_eq!(classify("br"), Element::LineBreak);
    assert_eq!(classify("h1"), Element::Heading(1));
    assert_eq!(classify("h6"), Element::Heading(6));
    assert_eq!(classify("h7"), Element::Other);
    assert_eq!(classify("blockquote"), Element::Blockquote);
    assert_eq!(classify("li"), Element::ListItem);
    assert_eq!(classify("hr"), Element::Rule);
    assert_eq!(classify("em"), Element::Emphasis);
    assert_eq!(classify("i"), Element::Emphasis);
    assert_eq!(classify("b"), Element::Strong);
    assert_eq!(classify("strong"), Element::Strong);
    assert_eq!(classify("img"), Element::Image);
    assert_eq!(classify("a"), Element::Anchor);
    assert_eq!(classify("style"), Element::Skipped);
    assert_eq!(classify("script"), Element::Skipped);
    assert_eq!(classify("div"), Element::Other);
    assert_eq!(classify("P"), Element::Other);
    assert_eq!(classify(""), Element::Other);
}

#[test]
fn prefixes_and_suffixes_of_the_table() {
    let none: Vec<Attribute> = Vec::new();
    let link = vec![Attribute { name: "href".to_string(), value: "u".to_string() }];
    let cases: Vec<(Element, &Vec<Attribute>, &str, &str)> = vec![
        (Element::Paragraph, &none, "\n\n", "\n\n"),
        (Element::LineBreak, &none, "\n", ""),
        (Element::Heading(3), &none, "\n\n### ", ""),
        (Element::Blockquote, &none, "\n\n> ", ""),
        (Element::ListItem, &none, "\n - ", ""),
        (Element::Rule, &none, "\n\n", ""),
        (Element::Emphasis, &none, "_", "_"),
        (Element::Strong, &none, "**", "**"),
        (Element::Image, &none, "", ""),
        (Element::Anchor, &none, "", ""),
        (Element::Anchor, &link, "[", "](u)"),
        (Element::Skipped, &none, "", ""),
        (Element::Other, &link, "", ""),
    ];
    for (element, attributes, prefix, suffix) in cases {
        let mut out = "x".to_string();
        write_prefix(&mut out, element, attributes);
        assert_eq!(out, format!("x{}", prefix));
        assert_eq!(suffix_of(element, attributes), suffix.to_string());
    }
}

#[test]
fn first_attribute_of_a_name_is_found() {
    let attributes = vec![
        Attribute { name: "a".to_string(), value: "1".to_string() },
        Attribute { name: "b".to_string(), value: "2".to_string() },
        Attribute { name: "a".to_string(), value: "3".to_string() },
    ];
    assert_eq!(find_attribute(&attributes, "a"), Some(0));
    assert_eq!(find_attribute(&attributes, "b"), Some(1));
    assert_eq!(find_attribute(&attributes, "c"), None);
    assert_eq!(find_attribute(&Vec::new(), "a"), None);
}

#[test]
fn raw_tokens_become_attributes() {
    let cases = [
        ("href=\"x\"", "href", "x"),
        ("href='x'", "href", "x"),
        ("href=x", "href", "x"),
        ("HREF=X", "href", "X"),
        ("disabled", "disabled", ""),
        ("a=", "a", ""),
        ("a=\"", "a", "\""),
        ("a=\"x'", "a", "\"x'"),
        ("a=b=c", "a", "b=c"),
        ("=v", "", "v"),
        ("", "", ""),
        ("k=\"\"", "k", ""),
    ];
    for (token, name, value) in cases {
        assert_eq!(
            parse_attribute(token),
            Attribute { name: name.to_string(), value: value.to_string() },
            "{}",
            token
        );
    }
    assert_eq!(
        parse_attributes(&vec!["a=1".to_string(), "b".to_string()]),
        vec![
            Attribute { name: "a".to_string(), value: "1".to_string() },
            Attribute { name: "b".to_string(), value: String::new() },
        ]
    );
}
