use ranked_search::highlight::{highlight_lines, highlight_pattern, matching_lines};

#[test]
fn pattern_escapes_and_joins_terms() {
    let terms = vec!["a.b".to_string(), "c".to_string()];
    assert_eq!(highlight_pattern(&terms), "(?i)\\b(a\\.b|c)\\b");
    assert_eq!(highlight_pattern(&vec!["dog".to_string()]), "(?i)\\b(dog)\\b");
}

#[test]
fn highlight_finds_whole_words_in_any_case() {
    let content = "Dog here\nno match, hotdog\nthe DOG dog";
    let lines = highlight_lines(content, &vec!["dog".to_string()]).unwrap();
    assert_eq!(lines.len(), 2);
    assert_eq!(lines[0].number, 1);
    assert_eq!(lines[0].text, "Dog here");
    assert_eq!(lines[0].spans, vec![(0, 3)]);
    assert_eq!(lines[1].number, 3);
    assert_eq!(lines[1].text, "the DOG dog");
    assert_eq!(lines[1].spans, vec![(4, 7), (8, 11)]);
}

#[test]
fn highlight_takes_terms_literally() {
    let content = "a.b here\naxb there";
    let lines = highlight_lines(content, &vec!["a.b".to_string()]).unwrap();
    assert_eq!(lines.len(), 1);
    assert_eq!(lines[0].number, 1);
}

#[test]
fn highlight_of_empty_content() {
    assert!(highlight_lines("", &vec!["dog".to_string()]).unwrap().is_empty());
}

#[test]
fn matching_lines_keeps_lines_with_spans() {
    let lines = vec!["one".to_string(), "two".to_string(), "three".to_string()];
    let spans = vec![vec![], vec![(0, 3)], vec![(1, 2), (3, 4)]];
    let m = matching_lines(&lines, spans);
    assert_eq!(m.len(), 2);
    assert_eq!((m[0].number, m[0].text.as_str()), (2, "two"));
    assert_eq!((m[1].number, m[1].text.as_str()), (3, "three"));
    assert_eq!(m[1].spans, vec![(1, 2), (3, 4)]);
}
