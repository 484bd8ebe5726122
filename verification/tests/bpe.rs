use tokenizers::bpe::{most_frequent_pair, Tokenizer};
use tokenizers::counter::Counter;
use tokenizers::UNK;

fn strings(v: &[&str]) -> Vec<String> {
    v.iter().map(|s| s.to_string()).collect()
}

#[test]
fn classic_bpe_trace() {
    // one corpus line, vocabulary target 6: the initial vocabulary is
    // {a, b, d, c, space} and the most frequent pair ("a", "a") is merged
    // once, which ends training
    let t = Tokenizer::train(&strings(&["aaabdaaabac"]), 6);
    assert_eq!(t.merges.len(), 1);
    assert_eq!(t.merges[0].left, "a");
    assert_eq!(t.merges[0].right, "a");
    assert_eq!(t.tokens, strings(&[" ", "a", "aa", "b", "c", "d"]));
}

#[test]
fn vocabulary_within_requested_target() {
    let t = Tokenizer::train(&strings(&["aaabdaaabac"]), 6);
    assert!(t.tokens.len() <= 6);
}

#[test]
fn empty_corpus_yields_boundary_only() {
    let t = Tokenizer::train(&Vec::new(), 100);
    assert!(t.merges.is_empty());
    assert_eq!(t.tokens, strings(&[" "]));
}

#[test]
fn whitespace_only_corpus_yields_boundary_only() {
    let t = Tokenizer::train(&strings(&["   ", "\t"]), 100);
    assert_eq!(t.tokens, strings(&[" "]));
}

#[test]
fn tokenize_expands_characters_and_boundary() {
    // the target is below the initial alphabet, so no merge is learned and
    // every character maps through the sorted single-character table
    let t = Tokenizer::train(&strings(&["hello world"]), 1);
    assert!(t.merges.is_empty());
    assert_eq!(t.tokens, strings(&[" ", "d", "e", "h", "l", "o", "r", "w"]));
    let ids = t.tokenize("Hello, World!");
    assert_eq!(ids, vec![3, 2, 4, 4, 5, 0, 7, 5, 6, 4, 1, 0]);
}

#[test]
fn tokenize_is_deterministic() {
    let t = Tokenizer::train(&strings(&["the quick brown fox", "the lazy dog"]), 12);
    let a = t.tokenize("the quick fox");
    let b = t.tokenize("the quick fox");
    assert_eq!(a, b);
}

#[test]
fn tokenize_unknown_characters_become_unk() {
    let t = Tokenizer::train(&strings(&["aaabdaaabac"]), 6);
    let ids = t.tokenize("xyz");
    assert_eq!(ids, vec![UNK, UNK, UNK, 0]);
}

#[test]
fn tokenize_applies_merges_in_order() {
    let t = Tokenizer::train(&strings(&["aaabdaaabac"]), 6);
    // "aaab" splits to [a a a b space]; merging ("a","a") left to right
    // gives [aa a b space]
    let aa = t.tokens.iter().position(|s| s == "aa").unwrap();
    let a = t.tokens.iter().position(|s| s == "a").unwrap();
    let b = t.tokens.iter().position(|s| s == "b").unwrap();
    assert_eq!(t.tokenize("aaab"), vec![aa, a, b, 0]);
}

#[test]
fn tokenize_text_concatenates_lines() {
    let t = Tokenizer::train(&strings(&["hello world"]), 1);
    let mut expected = t.tokenize("hello");
    expected.extend(t.tokenize("world"));
    assert_eq!(t.tokenize_text("hello\nworld"), expected);
}

#[test]
fn tokens_as_string_maps_ids_back() {
    let t = Tokenizer::train(&strings(&["aaabdaaabac"]), 6);
    let ids = t.tokenize("aaab");
    let names = t.tokens_as_string(&ids);
    assert_eq!(names, strings(&["aa", "a", "b", " "]));
}

#[test]
fn tokens_as_string_unknown_ids_become_unk_string() {
    let t = Tokenizer::train(&strings(&["aaabdaaabac"]), 6);
    let names = t.tokens_as_string(&vec![UNK, 999_999, 0]);
    assert_eq!(names, strings(&["UNK", "UNK", " "]));
}

#[test]
fn most_frequent_pair_counts_weighted_adjacencies() {
    let mut word_freqs: Counter<String> = Counter::new();
    word_freqs.increment("ab".to_string(), 3);
    word_freqs.increment("cb".to_string(), 1);
    let splits = vec![
        strings(&["a", "b", " "]),
        strings(&["c", "b", " "]),
    ];
    // ("a","b") weighs 3, ("b"," ") weighs 4 and wins
    let p = most_frequent_pair(&splits, &word_freqs).unwrap();
    assert_eq!(p.left, "b");
    assert_eq!(p.right, " ");
}

#[test]
fn most_frequent_pair_none_when_no_split_has_two_tokens() {
    let mut word_freqs: Counter<String> = Counter::new();
    word_freqs.insert("a".to_string());
    let splits = vec![strings(&["a "])];
    assert!(most_frequent_pair(&splits, &word_freqs).is_none());
}
