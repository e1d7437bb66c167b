use findupdate::context::Context;
use findupdate::text::{
    chain, chain3, ends_in, find_text, has_char, has_text, join, pad_both, pad_left, pad_right,
    same_text,
};

const SAMPLES: [&str; 7] = ["", "a", "ab", "ä", "Name", "Version", "a longer text than wide"];

#[test]
fn padding_is_that_of_the_standard_formats() {
    for text in SAMPLES {
        for width in 0..12 {
            assert_eq!(pad_right(text, width), format!("{text:<width$}"));
            assert_eq!(pad_left(text, width), format!("{text:>width$}"));
            assert_eq!(pad_both(text, width), format!("{text:^width$}"));
        }
    }
}

#[test]
fn searching_is_that_of_the_standard_library() {
    for text in ["", "a", "aab", "abab", "äöä", "%{x}"] {
        for pat in ["", "a", "ab", "b", "ö", "äö", "%{"] {
            assert_eq!(has_text(text, pat), text.contains(pat));
            assert_eq!(ends_in(text, pat), text.ends_with(pat));
            assert_eq!(same_text(text, pat), text == pat);
            let at = text.find(pat).map(|i| text[..i].chars().count());
            assert_eq!(find_text(text, pat), at);
        }
        for c in ['a', 'ö', '%'] {
            assert_eq!(has_char(text, c), text.contains(c));
        }
    }
}

#[test]
fn texts_are_put_together() {
    assert_eq!(chain("a", "b"), "ab");
    assert_eq!(chain3("a", "", "b"), "ab");
    assert_eq!(join(&vec![], ", "), "");
    assert_eq!(join(&vec!["a".to_string()], ", "), "a");
    let parts = vec!["a".to_string(), String::new(), "b".to_string()];
    assert_eq!(join(&parts, "; "), "a; ; b");
}

#[test]
fn a_context_keeps_one_value_for_each_key() {
    let mut context = Context::new();
    assert_eq!(context.get("a"), None);
    context.insert("a".to_string(), "1".to_string());
    context.insert("b".to_string(), "2".to_string());
    context.insert("a".to_string(), "3".to_string());
    assert_eq!(context.get("a"), Some("3"));
    assert_eq!(context.get("b"), Some("2"));
    assert_eq!(context.get(""), None);
    assert_eq!(context.entries().len(), 2);
}
