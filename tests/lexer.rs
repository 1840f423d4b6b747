use ranked_search::lexer::Lexer;

#[test]
fn test_stemmed_iterator() {
    let content = "Running runners quickly run".chars().collect::<Vec<char>>();
    let mut lexer = Lexer::new(&content);
    let mut index = 0;
    while let Some(word) = lexer.next_word_stemmed() {
        match index {
            0 => assert_eq!(word, "run"),
            1 => assert_eq!(word, "runner"),
            2 => assert_eq!(word, "quick"),
            3 => assert_eq!(word, "run"),
            _ => panic!("did not expect value at index 4"),
        }
        index += 1;
    }
    assert_eq!(index, 4);
}

#[test]
fn next_word_splits_digit_runs_from_words_and_folds_case() {
    let content = "Hello, WORLD 42abc x9y!".chars().collect::<Vec<char>>();
    let mut lexer = Lexer::new(&content);
    assert_eq!(lexer.next_word(), Some("hello".to_string()));
    assert_eq!(lexer.next_word(), Some("world".to_string()));
    assert_eq!(lexer.next_word(), Some("42".to_string()));
    assert_eq!(lexer.next_word(), Some("abc".to_string()));
    assert_eq!(lexer.next_word(), Some("x9y".to_string()));
    assert_eq!(lexer.next_word(), None);
    assert_eq!(lexer.next_word(), None);
}

#[test]
fn empty_and_separator_only_input_yield_nothing() {
    let empty: Vec<char> = Vec::new();
    assert_eq!(Lexer::new(&empty).next_word(), None);
    let seps = " \t,.;!? ".chars().collect::<Vec<char>>();
    assert_eq!(Lexer::new(&seps).next_word_stemmed(), None);
}

#[test]
fn stemming_collapses_variants() {
    let content = "connected connecting connection".chars().collect::<Vec<char>>();
    let mut lexer = Lexer::new(&content);
    assert_eq!(lexer.next_word_stemmed(), Some("connect".to_string()));
    assert_eq!(lexer.next_word_stemmed(), Some("connect".to_string()));
    assert_eq!(lexer.next_word_stemmed(), Some("connect".to_string()));
    assert_eq!(lexer.next_word_stemmed(), None);
}

#[test]
fn words_are_lowercased_beyond_ascii() {
    let content = "ÉCOLE Straße".chars().collect::<Vec<char>>();
    let mut lexer = Lexer::new(&content);
    assert_eq!(lexer.next_word(), Some("école".to_string()));
    assert_eq!(lexer.next_word(), Some("straße".to_string()));
    assert_eq!(lexer.next_word(), None);
}
