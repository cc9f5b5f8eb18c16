use inverted_index::inverted_index::InvertedIndex;

fn tf(x: f64) -> u64 {
    x.to_bits()
}

fn lookup(v: &[(String, u64)], k: &str) -> Option<u64> {
    for (key, val) in v {
        if key == k {
            return Some(*val);
        }
    }
    None
}

#[test]
fn adding_token() {
    let mut inverted_index = InvertedIndex::new();
    let token = "foo";

    inverted_index.add_token("123", token, tf(1.));
    assert_eq!(inverted_index.get_doc_frequency("foo"), 1);
    assert_eq!(inverted_index.get_term_frequency("123", "foo"), tf(1.));
}

#[test]
fn has_token() {
    let mut inverted_index = InvertedIndex::new();
    let token = "foo";

    inverted_index.add_token("123", token, tf(1.));
    assert!(inverted_index.has_token(token));
    assert!(inverted_index.has_token("fo"));
    assert!(inverted_index.has_token("f"));

    assert!(!inverted_index.has_token("bar"));
    assert!(!inverted_index.has_token("foo "));
    assert!(!inverted_index.has_token("foo  "))
}

#[test]
fn adding_another_document_to_the_token() {
    let mut inverted_index = InvertedIndex::new();
    let token = "foo";

    inverted_index.add_token("123", token, tf(1.));
    inverted_index.add_token("456", token, tf(1.));

    assert_eq!(inverted_index.get_term_frequency("123", "foo"), tf(1.));
    assert_eq!(inverted_index.get_term_frequency("456", "foo"), tf(1.));
    assert_eq!(inverted_index.get_doc_frequency("foo"), 2);
}

#[test]
fn df_of_nonexistant_token() {
    let mut inverted_index = InvertedIndex::new();
    let token = "foo";

    inverted_index.add_token("123", token, tf(1.));
    inverted_index.add_token("456", token, tf(1.));

    assert_eq!(inverted_index.get_doc_frequency("foo"), 2);
    assert_eq!(inverted_index.get_doc_frequency("fox"), 0);
}

#[test]
fn adding_existing_doc() {
    let mut inverted_index = InvertedIndex::new();
    let token = "foo";

    inverted_index.add_token("123", token, tf(1.));
    inverted_index.add_token("456", token, tf(1.));
    inverted_index.add_token("456", token, tf(100.));

    assert_eq!(inverted_index.get_term_frequency("456", "foo"), tf(100.));
    assert_eq!(inverted_index.get_doc_frequency("foo"), 2);
}

#[test]
fn checking_token_exists_in() {
    let mut inverted_index = InvertedIndex::new();
    let token = "foo";

    inverted_index.add_token("123", token, tf(1.));

    assert!(inverted_index.has_token(token));
}

#[test]
fn checking_if_a_token_does_not_exist() {
    let mut inverted_index = InvertedIndex::new();
    let token = "foo";

    inverted_index.add_token("123", token, tf(1.));
    assert!(!inverted_index.has_token("fooo"));
    assert!(!inverted_index.has_token("bar"));
    assert!(!inverted_index.has_token("fof"));
}

#[test]
fn retrieving_items() {
    let mut inverted_index = InvertedIndex::new();
    let token = "foo";

    inverted_index.add_token("123", token, tf(1.));
    let docs = inverted_index.get_docs(token).unwrap();
    assert_eq!(docs.len(), 1);
    assert_eq!(lookup(&docs, "123"), Some(tf(1.)));

    let empty = inverted_index.get_docs("").unwrap();
    assert_eq!(empty.len(), 0);

    inverted_index.add_token("234", "boo", tf(100.));
    inverted_index.add_token("345", "too", tf(101.));

    let docs = inverted_index.get_docs(token).unwrap();
    assert_eq!(docs.len(), 1);
    assert_eq!(lookup(&docs, "123"), Some(tf(1.)));

    inverted_index.add_token("234", token, tf(100.));
    inverted_index.add_token("345", token, tf(101.));

    let docs = inverted_index.get_docs(token).unwrap();
    assert_eq!(docs.len(), 3);
    assert_eq!(lookup(&docs, "123"), Some(tf(1.)));
    assert_eq!(lookup(&docs, "234"), Some(tf(100.)));
    assert_eq!(lookup(&docs, "345"), Some(tf(101.)));
}

#[test]
fn retrieving_nonexistant_items() {
    let inverted_index = InvertedIndex::new();

    assert!(inverted_index.get_docs("foo").is_none());
    assert!(inverted_index.get_docs("fox").is_none());
}

#[test]
fn df_of_items() {
    let mut inverted_index = InvertedIndex::new();

    inverted_index.add_token("123", "foo", tf(1.));
    inverted_index.add_token("456", "foo", tf(1.));
    inverted_index.add_token("789", "bar", tf(1.));

    assert_eq!(inverted_index.get_doc_frequency("foo"), 2);
    assert_eq!(inverted_index.get_doc_frequency("bar"), 1);
    assert_eq!(inverted_index.get_doc_frequency("baz"), 0);
    assert_eq!(inverted_index.get_doc_frequency("ba"), 0);
    assert_eq!(inverted_index.get_doc_frequency("b"), 0);
    assert_eq!(inverted_index.get_doc_frequency("fo"), 0);
    assert_eq!(inverted_index.get_doc_frequency("f"), 0);
}

#[test]
fn removing_document_from_token() {
    let mut inverted_index = InvertedIndex::new();
    assert!(inverted_index.get_docs("foo").is_none());

    inverted_index.add_token("123", "foo", tf(1.));
    let docs = inverted_index.get_docs("foo").unwrap();
    assert_eq!(docs.len(), 1);
    assert_eq!(lookup(&docs, "123"), Some(tf(1.)));

    inverted_index.remove_token("123", "foo");
    let docs = inverted_index.get_docs("foo").unwrap();
    assert_eq!(docs.len(), 0);
    assert_eq!(inverted_index.get_doc_frequency("foo"), 0);
    assert_eq!(inverted_index.has_token("foo"), true);
}

#[test]
fn removing_nonexistant_document() {
    let mut inverted_index = InvertedIndex::new();

    inverted_index.add_token("123", "foo", tf(1.));
    inverted_index.add_token("567", "bar", tf(1.));
    inverted_index.remove_token("foo", "456");

    let docs = inverted_index.get_docs("foo").unwrap();
    assert_eq!(docs.len(), 1);
    assert_eq!(lookup(&docs, "123"), Some(tf(1.)));
    assert_eq!(inverted_index.get_doc_frequency("foo"), 1);
}

#[test]
fn removing_documet_nonexistant_key() {
    let mut inverted_index = InvertedIndex::new();

    inverted_index.remove_token("123", "foo");
    assert!(!inverted_index.has_token("foo"));
    assert_eq!(inverted_index.get_doc_frequency("foo"), 0);
}

#[test]
fn get_term_frequency() {
    let mut inverted_index = InvertedIndex::new();
    let token = "foo";

    inverted_index.add_token("123", token, tf(2.));
    inverted_index.add_token("456", token, tf(3.));

    assert_eq!(inverted_index.get_term_frequency("123", token), tf(2.));
    assert_eq!(inverted_index.get_term_frequency("456", token), tf(3.));
    assert_eq!(inverted_index.get_term_frequency("789", token), tf(0.));
}

#[test]
fn get_term_frequency_nonexistant_token() {
    let mut inverted_index = InvertedIndex::new();
    let token = "foo";

    inverted_index.add_token("123", token, tf(2.));
    inverted_index.add_token("456", token, tf(3.));

    assert_eq!(inverted_index.get_term_frequency("123", "ken"), tf(0.));
    assert_eq!(inverted_index.get_term_frequency("456", "ken"), tf(0.));
}

#[test]
fn get_term_frequency_nonexistant_docref() {
    let mut inverted_index = InvertedIndex::new();
    let token = "foo";

    inverted_index.add_token("123", token, tf(2.));
    inverted_index.add_token("456", token, tf(3.));

    assert_eq!(inverted_index.get_term_frequency(token, "12"), tf(0.));
    assert_eq!(inverted_index.get_term_frequency(token, "23"), tf(0.));
    assert_eq!(inverted_index.get_term_frequency(token, "45"), tf(0.));
}

#[test]
fn get_term_frequency_nonexistant_token_and_docref() {
    let mut inverted_index = InvertedIndex::new();
    let token = "foo";

    inverted_index.add_token("123", token, tf(2.));
    inverted_index.add_token("456", token, tf(3.));

    assert_eq!(inverted_index.get_term_frequency("token", "1"), tf(0.));
    assert_eq!(inverted_index.get_term_frequency("abc", "2"), tf(0.));
    assert_eq!(inverted_index.get_term_frequency("fo", "123"), tf(0.));
}
