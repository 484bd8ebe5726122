use tokenizers::normalize::{normalize_line, split_words};

#[test]
fn normalize_drops_punctuation_and_lowercases() {
    assert_eq!(normalize_line("Hello, World!"), "hello world");
    assert_eq!(normalize_line("a!b"), "ab");
    assert_eq!(normalize_line("ABC"), "abc");
    assert_eq!(normalize_line("a b\tc"), "a b\tc");
    assert_eq!(normalize_line(""), "");
}

#[test]
fn normalize_is_idempotent() {
    for s in [
        "Hello, World!",
        "MiXeD CaSe 123",
        "tabs\tand\nnewlines",
        "déjà vu ÉTÉ",
        "!!!",
        "",
    ] {
        let once = normalize_line(s);
        let twice = normalize_line(&once);
        assert_eq!(twice, once);
    }
}

#[test]
fn normalize_lowercases_beyond_ascii() {
    // spec: all remaining letters are lower-cased, not only ASCII ones
    assert_eq!(normalize_line("\u{c9}T\u{c9}"), "\u{e9}t\u{e9}");
    assert_eq!(normalize_line("d\u{e9}j\u{e0} Vu"), "d\u{e9}j\u{e0} vu");
}

#[test]
fn split_words_discards_empty_fragments() {
    let words = split_words(&"  hello   world ".to_string());
    assert_eq!(words, vec!["hello".to_string(), "world".to_string()]);
    let none = split_words(&"   ".to_string());
    assert!(none.is_empty());
    let one = split_words(&"abc".to_string());
    assert_eq!(one, vec!["abc".to_string()]);
}
