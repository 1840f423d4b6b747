use ranked_search::document::{Document, Extractor, TermTable};
use ranked_search::terms::TermCollector;

#[test]
fn term_collector_yields_lowercased_unicode_words() {
    let terms = TermCollector::new("The quick (\"brown\") fox can't jump 32.3 feet, right?")
        .collect_terms();
    assert_eq!(
        terms,
        vec!["the", "quick", "brown", "fox", "can't", "jump", "32.3", "feet", "right"]
    );
}

#[test]
fn term_collector_hands_out_terms_one_at_a_time() {
    let mut c = TermCollector::new("Alpha BETA");
    assert_eq!(c.next_term(), Some("alpha".to_string()));
    assert_eq!(c.next_term(), Some("beta".to_string()));
    assert_eq!(c.next_term(), None);
    assert_eq!(c.next_term(), None);
}

#[test]
fn term_collector_on_empty_text() {
    assert!(TermCollector::new("").collect_terms().is_empty());
    assert!(TermCollector::new("  ... !!").collect_terms().is_empty());
}

#[test]
fn term_table_counts_occurrences() {
    let terms: Vec<String> = vec!["dog".to_string(), "cat".to_string(), "dog".to_string()];
    let table = TermTable::from_terms(&terms);
    assert_eq!(table.count("dog"), 2);
    assert_eq!(table.count("cat"), 1);
    assert_eq!(table.count("bird"), 0);
}

#[test]
fn document_accessors() {
    let terms: Vec<String> = vec!["cat".to_string(), "dog".to_string(), "dog".to_string()];
    let d = Document::new(Extractor::PlainText, "a.txt".to_string(), 3, TermTable::from_terms(&terms));
    assert_eq!(d.file_path(), "a.txt");
    assert_eq!(d.total_term_count(), 3);
    assert_eq!(d.term_frequency("dog"), 2);
    assert_eq!(d.term_frequency("cat"), 1);
    assert_eq!(d.term_frequency("bird"), 0);
    assert_eq!(d.extractor(), Extractor::PlainText);
}

#[test]
fn documents_with_the_same_path_are_equal() {
    let t1: Vec<String> = vec!["cat".to_string()];
    let t2: Vec<String> = vec!["dog".to_string(), "dog".to_string()];
    let a = Document::new(Extractor::PlainText, "a.txt".to_string(), 1, TermTable::from_terms(&t1));
    let b = Document::new(Extractor::Docx, "a.txt".to_string(), 2, TermTable::from_terms(&t2));
    let c = Document::new(Extractor::PlainText, "c.txt".to_string(), 1, TermTable::from_terms(&t1));
    assert!(a == b);
    assert!(a != c);
}

#[test]
fn term_collector_lowercases_beyond_ascii() {
    assert_eq!(TermCollector::new("ÉCOLE Ωmega").collect_terms(), vec!["école", "ωmega"]);
}
