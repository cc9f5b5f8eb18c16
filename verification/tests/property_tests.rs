use inverted_index::inverted_index::InvertedIndex;
use inverted_index::serial::SerialValue;

fn tf(x: f64) -> u64 {
    x.to_bits()
}

fn lookup(v: &[(String, u64)], k: &str) -> Option<u64> {
    for (key, val) in v {
        if key == k {
            return Some(*val);
        }
    }
    None
}

#[test]
fn added_token_found_with_its_weight() {
    let mut idx = InvertedIndex::new();
    idx.add_token("doc-a", "query", tf(4.5));
    assert!(idx.has_token("query"));
    assert_eq!(idx.get_term_frequency("doc-a", "query"), tf(4.5));
}

#[test]
fn every_prefix_known_others_not() {
    let mut idx = InvertedIndex::new();
    idx.add_token("1", "abc", tf(1.));
    assert!(idx.has_token(""));
    assert!(idx.has_token("a"));
    assert!(idx.has_token("ab"));
    assert!(idx.has_token("abc"));
    assert!(!idx.has_token("abcd"));
    assert!(!idx.has_token("b"));
    assert!(!idx.has_token("ac"));
}

#[test]
fn readding_updates_weight_keeps_doc_frequency() {
    let mut idx = InvertedIndex::new();
    idx.add_token("d", "t", tf(1.5));
    let df_before = idx.get_doc_frequency("t");
    idx.add_token("d", "t", tf(9.25));
    assert_eq!(idx.get_term_frequency("d", "t"), tf(9.25));
    assert_eq!(idx.get_doc_frequency("t"), df_before);
    assert_eq!(idx.get_doc_frequency("t"), 1);
}

#[test]
fn two_documents_give_doc_frequency_two() {
    let mut idx = InvertedIndex::new();
    idx.add_token("d1", "t", tf(1.));
    idx.add_token("d2", "t", tf(2.));
    assert_eq!(idx.get_doc_frequency("t"), 2);
}

#[test]
fn removal_zeroes_weight_and_decrements() {
    let mut idx = InvertedIndex::new();
    idx.add_token("d1", "word", tf(1.));
    idx.add_token("d2", "word", tf(2.));
    idx.remove_token("d1", "word");
    assert_eq!(idx.get_term_frequency("d1", "word"), 0);
    assert_eq!(idx.get_doc_frequency("word"), 1);
    let docs = idx.get_docs("word").unwrap();
    assert_eq!(docs.len(), 1);
    assert_eq!(lookup(&docs, "d1"), None);
    assert_eq!(lookup(&docs, "d2"), Some(tf(2.)));
    assert!(idx.has_token("word"));
}

#[test]
fn removal_of_never_inserted_is_noop() {
    let mut idx = InvertedIndex::new();
    idx.add_token("d1", "kept", tf(3.));
    idx.remove_token("d2", "kept");
    idx.remove_token("d1", "other");
    assert_eq!(idx.get_term_frequency("d1", "kept"), tf(3.));
    assert_eq!(idx.get_doc_frequency("kept"), 1);
    assert!(!idx.has_token("other"));
}

#[test]
fn get_docs_not_found_versus_empty() {
    let mut idx = InvertedIndex::new();
    assert!(idx.get_docs("never").is_none());
    let root_docs = idx.get_docs("").unwrap();
    assert_eq!(root_docs.len(), 0);
    idx.add_token("d", "never", tf(1.));
    assert!(idx.get_docs("never").is_some());
    let root_docs = idx.get_docs("").unwrap();
    assert_eq!(root_docs.len(), 0);
}

#[test]
fn empty_token_changes_nothing() {
    let mut idx = InvertedIndex::new();
    idx.add_token("d", "", tf(5.));
    assert!(idx.has_token(""));
    assert_eq!(idx.get_docs("").unwrap().len(), 0);
    assert_eq!(idx.get_doc_frequency(""), 0);
    assert_eq!(idx.get_term_frequency("d", ""), 0);
    idx.remove_token("d", "");
    assert_eq!(idx.get_docs("").unwrap().len(), 0);
}

#[test]
fn multibyte_codepoints_are_single_edges() {
    let mut idx = InvertedIndex::new();
    idx.add_token("d", "日本", tf(2.));
    assert!(idx.has_token("日"));
    assert!(idx.has_token("日本"));
    assert!(!idx.has_token("本"));
    assert_eq!(idx.get_doc_frequency("日"), 0);
    assert_eq!(idx.get_doc_frequency("日本"), 1);
    assert_eq!(idx.get_docs("日").unwrap().len(), 0);
    assert_eq!(idx.get_term_frequency("d", "日本"), tf(2.));
}

#[test]
fn example_scenario() {
    let mut idx = InvertedIndex::new();
    idx.add_token("123", "foo", tf(1.));
    idx.add_token("234", "boo", tf(100.));
    idx.add_token("345", "too", tf(101.));

    let docs = idx.get_docs("foo").unwrap();
    assert_eq!(docs.len(), 1);
    assert_eq!(lookup(&docs, "123"), Some(tf(1.)));
    assert!(idx.get_docs("f").is_some());
    assert_eq!(idx.get_docs("f").unwrap().len(), 0);
    assert_eq!(idx.get_doc_frequency("foo"), 1);
    assert_eq!(idx.get_doc_frequency("fo"), 0);
    assert!(!idx.has_token("foo "));
}

#[test]
fn serialization_of_empty_index() {
    let idx = InvertedIndex::new();
    let value = idx.serialize();
    let expected = SerialValue::Object(vec![
        ("df".to_string(), SerialValue::Int(0)),
        ("docs".to_string(), SerialValue::Object(vec![])),
    ]);
    assert_eq!(value, expected);
}

#[test]
fn serialization_structure() {
    let mut idx = InvertedIndex::new();
    idx.add_token("123", "a", tf(2.));
    let value = idx.serialize();
    let expected = SerialValue::Object(vec![
        ("df".to_string(), SerialValue::Int(0)),
        ("docs".to_string(), SerialValue::Object(vec![])),
        (
            "a".to_string(),
            SerialValue::Object(vec![
                ("df".to_string(), SerialValue::Int(1)),
                (
                    "docs".to_string(),
                    SerialValue::Object(vec![(
                        "123".to_string(),
                        SerialValue::Object(vec![("tf".to_string(), SerialValue::Weight(tf(2.)))]),
                    )]),
                ),
            ]),
        ),
    ]);
    assert_eq!(value, expected);
}

#[test]
fn serialization_multibyte_child_key() {
    let mut idx = InvertedIndex::new();
    idx.add_token("9", "é", tf(3.));
    let value = idx.serialize();
    match value {
        SerialValue::Object(entries) => {
            assert_eq!(entries.len(), 3);
            assert_eq!(entries[0].0, "df");
            assert_eq!(entries[1].0, "docs");
            assert_eq!(entries[2].0, "é");
            match &entries[2].1 {
                SerialValue::Object(child) => {
                    assert_eq!(child[0], ("df".to_string(), SerialValue::Int(1)));
                }
                _ => panic!("child entry is not a map"),
            }
        }
        _ => panic!("root is not a map"),
    }
}

#[test]
fn serialization_after_removal_keeps_node() {
    let mut idx = InvertedIndex::new();
    idx.add_token("123", "a", tf(2.));
    idx.remove_token("123", "a");
    let value = idx.serialize();
    let expected = SerialValue::Object(vec![
        ("df".to_string(), SerialValue::Int(0)),
        ("docs".to_string(), SerialValue::Object(vec![])),
        (
            "a".to_string(),
            SerialValue::Object(vec![
                ("df".to_string(), SerialValue::Int(0)),
                ("docs".to_string(), SerialValue::Object(vec![])),
            ]),
        ),
    ]);
    assert_eq!(value, expected);
}
