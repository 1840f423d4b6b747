use ranked_search::document::{DocumentIndex, Extractor, ParsedResult};
use ranked_search::search::{RankedSearcher, Result as SearchResult};

fn parsed(path: &str, content: &str) -> ParsedResult {
    ParsedResult::new(content.to_string(), path.to_string(), Extractor::PlainText)
}

fn index_of(files: &[(&str, &str)]) -> DocumentIndex {
    let mut index = DocumentIndex::new("/corpus".to_string());
    for (path, content) in files {
        index.update_index(parsed(path, content));
    }
    index
}

fn rank(r: &SearchResult) -> f32 {
    let total = r.document.total_term_count() as f32;
    r.stats
        .iter()
        .map(|s| {
            let idf = (r.total_documents as f32 / s.document_freq as f32).log10();
            (s.term_freq as f32 / total) * idf
        })
        .sum()
}

fn query(words: &[&str]) -> Vec<String> {
    words.iter().map(|w| w.to_string()).collect()
}

fn paths_of(index: &DocumentIndex, term: &str) -> Vec<String> {
    let mut v: Vec<String> = index
        .documents(term)
        .map(|ds| ds.iter().map(|d| d.file_path().to_string()).collect())
        .unwrap_or_default();
    v.sort();
    v
}

fn ranked(results: &[SearchResult]) -> Vec<(String, f32)> {
    let mut v: Vec<(String, f32)> =
        results.iter().map(|r| (r.document.file_path().to_string(), rank(r))).collect();
    v.sort_by(|a, b| b.1.partial_cmp(&a.1).unwrap().then(a.0.cmp(&b.0)));
    v
}

#[test]
fn update_index_counts_documents_and_frequencies() {
    let index = index_of(&[("a.txt", "cat dog dog"), ("b.txt", "dog bird")]);
    assert_eq!(index.total_document_count(), 2);
    assert_eq!(index.document_frequency("dog"), 2);
    assert_eq!(index.document_frequency("cat"), 1);
    assert_eq!(index.document_frequency("bird"), 1);
    assert_eq!(index.document_frequency("fish"), 1);
    assert_eq!(paths_of(&index, "dog"), vec!["a.txt", "b.txt"]);
    assert_eq!(paths_of(&index, "cat"), vec!["a.txt"]);
    assert!(index.documents("fish").is_none());
    assert_eq!(index.work_dir(), "/corpus");
}

#[test]
fn index_parsed_merges_in_order() {
    let mut index = DocumentIndex::new("/corpus".to_string());
    index.index_parsed(vec![parsed("a.txt", "cat dog dog"), parsed("b.txt", "dog bird")]);
    assert_eq!(index.total_document_count(), 2);
    assert_eq!(index.document_frequency("dog"), 2);
    let docs = index.documents("dog").unwrap();
    assert_eq!(docs[0].term_frequency("dog"), 2);
    assert_eq!(docs[0].total_term_count(), 3);
    assert_eq!(docs[1].term_frequency("dog"), 1);
}

#[test]
fn same_path_is_indexed_once() {
    let mut index = index_of(&[("a.txt", "cat dog dog")]);
    index.update_index(parsed("a.txt", "dog dog dog fish"));
    assert_eq!(index.total_document_count(), 1);
    assert_eq!(index.document_frequency("dog"), 1);
    assert_eq!(paths_of(&index, "dog"), vec!["a.txt"]);
    assert!(index.documents("fish").is_none());
    assert_eq!(index.documents("dog").unwrap()[0].term_frequency("dog"), 2);
}

#[test]
fn merge_order_does_not_change_the_index() {
    let files = [("a.txt", "cat dog dog"), ("b.txt", "dog bird"), ("c.txt", "bird bird fish")];
    let forward = index_of(&files);
    let backward = index_of(&[files[2], files[0], files[1]]);
    assert_eq!(forward.total_document_count(), backward.total_document_count());
    for term in ["cat", "dog", "bird", "fish", "absent"] {
        assert_eq!(forward.document_frequency(term), backward.document_frequency(term));
        assert_eq!(paths_of(&forward, term), paths_of(&backward, term));
    }
}

#[test]
fn ranking_does_not_depend_on_merge_order() {
    let files = [("a.txt", "cat dog dog"), ("b.txt", "dog bird"), ("c.txt", "bird bird fish")];
    let forward = index_of(&files);
    let backward = index_of(&[files[1], files[2], files[0]]);
    let q = query(&["dog", "bird"]);
    let r1 = RankedSearcher::new(&forward).search(&q);
    let r2 = RankedSearcher::new(&backward).search(&q);
    assert_eq!(ranked(&r1), ranked(&r2));
    assert_eq!(ranked(&r1), ranked(&RankedSearcher::new(&forward).search(&q)));
}

#[test]
fn tf_idf_of_a_single_term() {
    let mut files: Vec<(String, String)> = Vec::new();
    files.push(("target.txt".to_string(), "x x x y y y y y y y".to_string()));
    for i in 0..4 {
        files.push((format!("x{}.txt", i), "x z".to_string()));
    }
    for i in 0..95 {
        files.push((format!("other{}.txt", i), "z w".to_string()));
    }
    let mut index = DocumentIndex::new("/corpus".to_string());
    for (p, c) in &files {
        index.update_index(parsed(p, c));
    }
    assert_eq!(index.total_document_count(), 100);
    let results = RankedSearcher::new(&index).search(&query(&["x"]));
    assert_eq!(results.len(), 5);
    let target = results.iter().find(|r| r.document.file_path() == "target.txt").unwrap();
    assert_eq!(target.total_documents, 100);
    assert_eq!(target.document.total_term_count(), 10);
    assert_eq!(target.stats.len(), 1);
    assert_eq!(target.stats[0].query_term, "x");
    assert_eq!(target.stats[0].term_freq, 3);
    assert_eq!(target.stats[0].document_freq, 5);
    let expected = (3.0f32 / 10.0) * (100.0f32 / 5.0).log10();
    assert!((rank(target) - expected).abs() < 1e-6);
}

#[test]
fn absent_query_term_uses_frequency_one() {
    let index = index_of(&[("a.txt", "cat dog dog"), ("b.txt", "dog bird")]);
    let results = RankedSearcher::new(&index).search(&query(&["zebra", "cat"]));
    assert_eq!(results.len(), 1);
    let r = &results[0];
    assert_eq!(r.document.file_path(), "a.txt");
    let zebra = r.stats.iter().find(|s| s.query_term == "zebra").unwrap();
    assert_eq!(zebra.term_freq, 0);
    assert_eq!(zebra.document_freq, 1);
    let value = rank(r);
    assert!(value.is_finite());
    let expected = (1.0f32 / 3.0) * (2.0f32).log10();
    assert!((value - expected).abs() < 1e-6);
}

#[test]
fn only_absent_terms_give_no_results() {
    let index = index_of(&[("a.txt", "cat dog dog")]);
    assert!(RankedSearcher::new(&index).search(&query(&["zebra"])).is_empty());
}

#[test]
fn empty_corpus_and_empty_query_give_no_results() {
    let empty = DocumentIndex::new("/corpus".to_string());
    assert_eq!(empty.total_document_count(), 0);
    assert!(RankedSearcher::new(&empty).search(&query(&["dog"])).is_empty());
    let index = index_of(&[("a.txt", "cat dog dog"), ("b.txt", "dog bird")]);
    assert!(RankedSearcher::new(&index).search(&Vec::new()).is_empty());
}

#[test]
fn repeated_query_terms_count_once() {
    let index = index_of(&[("a.txt", "cat dog dog"), ("b.txt", "dog bird"), ("c.txt", "fish")]);
    let once = RankedSearcher::new(&index).search(&query(&["dog"]));
    let twice = RankedSearcher::new(&index).search(&query(&["dog", "dog"]));
    assert_eq!(twice[0].stats.len(), 1);
    assert_eq!(ranked(&once), ranked(&twice));
}

#[test]
fn end_to_end_two_files() {
    let index = index_of(&[("a.txt", "cat dog dog"), ("b.txt", "dog bird")]);
    let results = RankedSearcher::new(&index).search(&query(&["dog"]));
    assert_eq!(results.len(), 2);
    let a = results.iter().find(|r| r.document.file_path() == "a.txt").unwrap();
    let b = results.iter().find(|r| r.document.file_path() == "b.txt").unwrap();
    assert_eq!(a.stats[0].term_freq, 2);
    assert_eq!(a.document.total_term_count(), 3);
    assert_eq!(b.stats[0].term_freq, 1);
    assert_eq!(b.document.total_term_count(), 2);
    assert_eq!(a.stats[0].document_freq, 2);
    assert_eq!(b.stats[0].document_freq, 2);
    let tf_a = a.stats[0].term_freq as f32 / a.document.total_term_count() as f32;
    let tf_b = b.stats[0].term_freq as f32 / b.document.total_term_count() as f32;
    assert!(tf_a > tf_b);
    // Both files hold "dog", so its inverse document frequency is log10(2 / 2) = 0
    // and the two ranks tie; the stable sort keeps indexing order.
    assert_eq!(rank(a), 0.0);
    assert_eq!(rank(b), 0.0);
    let mut order: Vec<&SearchResult> = results.iter().collect();
    order.sort_by(|x, y| rank(y).partial_cmp(&rank(x)).unwrap());
    assert_eq!(order[0].document.file_path(), "a.txt");
}
