use page_markdown::tag::{Door, Tag};
use page_markdown::tokenizer::{tokenize, Tokenizer};

fn tag(name: &str, door: Door, attributes: &[&str], content: Option<&str>) -> Tag {
    Tag {
        name: name.to_string(),
        door,
        attributes: attributes.iter().map(|a| a.to_string()).collect(),
        content: content.map(|c| c.to_string()),
        depth: 0,
    }
}

#[test]
fn paragraph_gives_two_tags() {
    let tags = tokenize("<p>hi</p>");
    assert_eq!(
        tags,
        vec![
            tag("p", Door::Opening, &[], None),
            tag("p", Door::Closing, &[], Some("hi")),
        ]
    );
}

#[test]
fn feeding_by_character_is_feeding_the_string() {
    let input = "<div class=a>one <b>two</b></div>";
    let mut by_char = Tokenizer::new();
    for c in input.chars() {
        by_char.feed(c);
    }
    let mut whole = Tokenizer::new();
    whole.feed_str(input);
    assert_eq!(by_char.tag_count(), 4);
    assert_eq!(by_char.into_tags(), whole.into_tags());
}

#[test]
fn attributes_are_kept_as_raw_tokens() {
    let tags = tokenize("<a href=\"x\"  target=_blank\tdisabled>");
    assert_eq!(
        tags,
        vec![tag(
            "a",
            Door::Opening,
            &["href=\"x\"", "target=_blank", "disabled"],
            None
        )]
    );
}

#[test]
fn doors_follow_the_slashes() {
    let tags = tokenize("<br/><hr /><img src=a.png /></p>");
    assert_eq!(
        tags,
        vec![
            tag("br", Door::SelfClosing, &[], None),
            tag("hr", Door::SelfClosing, &[], None),
            tag("img", Door::SelfClosing, &["src=a.png"], None),
            tag("p", Door::Closing, &[], None),
        ]
    );
}

#[test]
fn closing_tags_carry_no_attributes() {
    let tags = tokenize("</p class=x>");
    assert_eq!(tags, vec![tag("p", Door::Closing, &[], None)]);
    let both = tokenize("</br/>");
    assert_eq!(both, vec![tag("br/", Door::Closing, &[], None)]);
}

#[test]
fn names_are_lowered() {
    let tags = tokenize("<DIV Class=Big>X</Div>");
    assert_eq!(
        tags,
        vec![
            tag("div", Door::Opening, &["Class=Big"], None),
            tag("div", Door::Closing, &[], Some("X")),
        ]
    );
}

#[test]
fn content_is_the_normalized_text_before_the_tag() {
    let tags = tokenize("  \n <p>  a \n b  <i> </i>c</p>");
    assert_eq!(
        tags,
        vec![
            tag("p", Door::Opening, &[], None),
            tag("i", Door::Opening, &[], Some(" a b ")),
            tag("i", Door::Closing, &[], None),
            tag("p", Door::Closing, &[], Some("c")),
        ]
    );
}

#[test]
fn orphaned_closer_is_absorbed() {
    let mut t = Tokenizer::new();
    t.feed_str("a > b");
    assert_eq!(t.tag_count(), 0);
    assert_eq!(t.pending_text(), "a > b".to_string());
    t.feed_str("<i>");
    assert_eq!(t.pending_text(), String::new());
    assert_eq!(
        t.into_tags(),
        vec![tag("i", Door::Opening, &[], Some("a > b"))]
    );
}

#[test]
fn body_without_a_name_is_absorbed() {
    let mut t = Tokenizer::new();
    t.feed_str("x<>");
    assert_eq!(t.tag_count(), 0);
    assert_eq!(t.pending_text(), "x<>".to_string());
    let mut u = Tokenizer::new();
    u.feed_str("</>< />");
    assert_eq!(u.tag_count(), 0);
    assert_eq!(u.pending_text(), "</>< />".to_string());
}

#[test]
fn last_opener_starts_the_tag() {
    let tags = tokenize("1 < 2 <b>");
    assert_eq!(tags, vec![tag("b", Door::Opening, &[], Some("1 < 2 "))]);
}

#[test]
fn text_after_the_last_tag_stays_pending() {
    let mut t = Tokenizer::new();
    t.feed_str("<p>tail");
    assert_eq!(t.tag_count(), 1);
    assert_eq!(t.pending_text(), "tail".to_string());
}

#[test]
fn empty_input_gives_no_tag() {
    assert_eq!(tokenize(""), Vec::<Tag>::new());
    let t = Tokenizer::new();
    assert_eq!(t.tag_count(), 0);
    assert_eq!(t.pending_text(), String::new());
}
