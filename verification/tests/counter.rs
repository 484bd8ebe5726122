use tokenizers::counter::Counter;

#[test]
fn counts_accumulate() {
    let mut c: Counter<String> = Counter::new();
    c.insert("a".to_string());
    c.insert("b".to_string());
    c.insert("a".to_string());
    c.increment("b".to_string(), 3);
    let entries = c.iter();
    assert_eq!(entries.len(), 2);
    assert_eq!(entries[0], ("a".to_string(), 2));
    assert_eq!(entries[1], ("b".to_string(), 4));
}

#[test]
fn most_common_picks_maximum() {
    let mut c: Counter<String> = Counter::new();
    c.insert("x".to_string());
    c.increment("y".to_string(), 5);
    c.insert("x".to_string());
    assert_eq!(c.most_common(), Some(&"y".to_string()));
}

#[test]
fn most_common_tie_break_is_first_inserted() {
    let mut c: Counter<String> = Counter::new();
    c.insert("later".to_string());
    c.insert("first".to_string());
    // both counts are 1; the key counted first wins
    let mut c2: Counter<String> = Counter::new();
    c2.insert("first".to_string());
    c2.insert("later".to_string());
    assert_eq!(c.most_common(), Some(&"later".to_string()));
    assert_eq!(c2.most_common(), Some(&"first".to_string()));
}

#[test]
fn most_common_of_empty_is_none() {
    let c: Counter<String> = Counter::new();
    assert_eq!(c.most_common(), None);
}

#[test]
fn counts_saturate_instead_of_overflowing() {
    let mut c: Counter<String> = Counter::new();
    c.increment("k".to_string(), usize::MAX);
    c.increment("k".to_string(), 7);
    assert_eq!(c.iter()[0].1, usize::MAX);
}

#[test]
fn keys_in_first_insertion_order() {
    let mut c: Counter<String> = Counter::new();
    c.insert("b".to_string());
    c.insert("a".to_string());
    c.insert("b".to_string());
    assert_eq!(c.keys(), vec!["b".to_string(), "a".to_string()]);
}
