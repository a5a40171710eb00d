use page_markdown::collapse_whitespace;
use page_markdown::text::{
    char_ascii_lower, char_is_whitespace, chars_of, collapse_str, lower_string, split_words,
    string_of_range,
};

#[test]
fn collapses_runs_to_single_spaces() {
    assert_eq!(
        collapse_whitespace("a   b\n\tc".to_string()),
        Some("a b c".to_string())
    );
}

#[test]
fn whitespace_only_is_absent() {
    assert_eq!(collapse_whitespace(String::new()), None);
    assert_eq!(collapse_whitespace(" ".to_string()), None);
    assert_eq!(collapse_whitespace(" \n\t\r  ".to_string()), None);
    assert_eq!(collapse_whitespace("\u{a0}\u{3000}\u{2003}".to_string()), None);
}

#[test]
fn leading_and_trailing_runs_become_one_space_each() {
    assert_eq!(
        collapse_whitespace("  lead and trail \n".to_string()),
        Some(" lead and trail ".to_string())
    );
    assert_eq!(collapse_whitespace("x".to_string()), Some("x".to_string()));
    assert_eq!(
        collapse_whitespace("a\u{2003}\u{a0}b".to_string()),
        Some("a b".to_string())
    );
}

#[test]
fn collapsing_twice_is_collapsing_once() {
    for s in ["a   b\n\tc", "  x  ", "one", "\ta\t\tb\t", "tab\u{3000} wide"] {
        let once = collapse_whitespace(s.to_string());
        let twice = collapse_whitespace(once.clone().unwrap());
        assert_eq!(twice, once);
    }
}

#[test]
fn borrowed_and_owned_agree() {
    for s in ["", " ", "a  b", " a ", "\n"] {
        assert_eq!(collapse_str(s), collapse_whitespace(s.to_string()));
    }
}

#[test]
fn whitespace_class_is_that_of_unicode() {
    let mut code: u32 = 0;
    while code <= 0x10ffff {
        if let Some(c) = char::from_u32(code) {
            assert_eq!(char_is_whitespace(c), c.is_whitespace(), "U+{:04X}", code);
        }
        code += 1;
    }
}

#[test]
fn lowering_touches_ascii_capitals_only() {
    assert_eq!(char_ascii_lower('A'), 'a');
    assert_eq!(char_ascii_lower('Z'), 'z');
    assert_eq!(char_ascii_lower('q'), 'q');
    assert_eq!(char_ascii_lower('@'), '@');
    assert_eq!(char_ascii_lower('['), '[');
    assert_eq!(char_ascii_lower('É'), 'É');
    assert_eq!(lower_string("DiV-1É"), "div-1É".to_string());
    let mut code: u32 = 0;
    while code < 0x250 {
        if let Some(c) = char::from_u32(code) {
            assert_eq!(char_ascii_lower(c), c.to_ascii_lowercase());
        }
        code += 1;
    }
}

#[test]
fn words_are_the_runs_between_whitespace() {
    let v = chars_of("  a  href=\"x\"\tb \n");
    let all = split_words(&v, 0, v.len());
    assert_eq!(
        all,
        vec!["a".to_string(), "href=\"x\"".to_string(), "b".to_string()]
    );
    assert_eq!(split_words(&v, 0, 2), Vec::<String>::new());
    assert_eq!(split_words(&v, 3, 3), Vec::<String>::new());
    assert_eq!(split_words(&v, 5, 9), vec!["href".to_string()]);
}

#[test]
fn ranges_of_characters_become_strings() {
    let v = chars_of("héllo");
    assert_eq!(v, vec!['h', 'é', 'l', 'l', 'o']);
    assert_eq!(string_of_range(&v, 1, 4), "éll".to_string());
    assert_eq!(string_of_range(&v, 2, 2), String::new());
    assert_eq!(string_of_range(&v, 0, 5), "héllo".to_string());
}
