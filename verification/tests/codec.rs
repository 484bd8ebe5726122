use tokenizers::bpe::Tokenizer;
use tokenizers::TokenizerError;

fn strings(v: &[&str]) -> Vec<String> {
    v.iter().map(|s| s.to_string()).collect()
}

#[test]
fn save_load_round_trip() {
    let t = Tokenizer::train(&strings(&["aaabdaaabac", "banana band"]), 12);
    let bytes = t.save();
    let u = Tokenizer::load(&bytes).unwrap();
    assert_eq!(u.tokens, t.tokens);
    assert_eq!(u.merges.len(), t.merges.len());
    for (a, b) in t.merges.iter().zip(u.merges.iter()) {
        assert_eq!(a.left, b.left);
        assert_eq!(a.right, b.right);
    }
}

#[test]
fn round_trip_preserves_tokenization() {
    let t = Tokenizer::train(&strings(&["the quick brown fox jumps"]), 15);
    let u = Tokenizer::load(&t.save()).unwrap();
    assert_eq!(u.tokenize("the quick fox"), t.tokenize("the quick fox"));
}

#[test]
fn load_of_empty_bytes_fails() {
    assert!(matches!(
        Tokenizer::load(&Vec::new()),
        Err(TokenizerError::SerializationFailure)
    ));
}

#[test]
fn load_of_garbage_fails() {
    assert!(matches!(
        Tokenizer::load(&vec![1u8, 2, 3]),
        Err(TokenizerError::SerializationFailure)
    ));
}

#[test]
fn load_of_truncated_blob_fails() {
    let t = Tokenizer::train(&strings(&["aaabdaaabac"]), 6);
    let mut bytes = t.save();
    bytes.pop();
    assert!(matches!(
        Tokenizer::load(&bytes),
        Err(TokenizerError::SerializationFailure)
    ));
}

#[test]
fn load_of_blob_with_trailing_bytes_fails() {
    let t = Tokenizer::train(&strings(&["aaabdaaabac"]), 6);
    let mut bytes = t.save();
    bytes.push(0);
    assert!(matches!(
        Tokenizer::load(&bytes),
        Err(TokenizerError::SerializationFailure)
    ));
}

#[test]
fn save_of_empty_corpus_model_round_trips() {
    let t = Tokenizer::train(&Vec::new(), 5);
    let u = Tokenizer::load(&t.save()).unwrap();
    assert_eq!(u.tokens, strings(&[" "]));
    assert!(u.merges.is_empty());
}
