use embedding_network::table::{parse_line, parse_tokens, EmbeddingTable, LoadError};

fn parse_f64(s: &str) -> Option<f64> {
    s.parse::<f64>().ok()
}

fn lines(text: &[&str]) -> Vec<String> {
    text.iter().map(|l| l.to_string()).collect()
}

#[test]
fn loads_words_and_vectors_in_order() {
    let table = EmbeddingTable::from_lines(&lines(&["cat 1.5 -2", "dog\t0 3e2"]), parse_f64).unwrap();
    assert_eq!(table.len(), 2);
    assert_eq!(table.dimension(), 2);
    assert_eq!(table.word(0), "cat");
    assert_eq!(table.word(1), "dog");
    assert_eq!(table.vector(0), &vec![1.5, -2.0]);
    assert_eq!(table.vector(1), &vec![0.0, 300.0]);
    assert_eq!(table.words(), &vec!["cat".to_string(), "dog".to_string()]);
}

#[test]
fn repeated_word_keeps_last_vector_at_first_position() {
    let table =
        EmbeddingTable::from_lines(&lines(&["a 1 1", "b 2 2", "a 3 3"]), parse_f64).unwrap();
    assert_eq!(table.len(), 2);
    assert_eq!(table.word(0), "a");
    assert_eq!(table.vector(0), &vec![3.0, 3.0]);
    assert_eq!(table.word(1), "b");
    assert_eq!(table.vector(1), &vec![2.0, 2.0]);
}

#[test]
fn empty_input_gives_empty_table() {
    let table = EmbeddingTable::from_lines(&Vec::new(), parse_f64).unwrap();
    assert_eq!(table.len(), 0);
    assert_eq!(table.dimension(), 0);
}

#[test]
fn blank_line_gives_empty_word_with_empty_vector() {
    let table = EmbeddingTable::from_lines(&lines(&["   "]), parse_f64).unwrap();
    assert_eq!(table.len(), 1);
    assert_eq!(table.word(0), "");
    assert!(table.vector(0).is_empty());
}

#[test]
fn word_without_coordinates_has_empty_vector() {
    let table = EmbeddingTable::from_lines(&lines(&["lonely"]), parse_f64).unwrap();
    assert_eq!(table.word(0), "lonely");
    assert_eq!(table.dimension(), 0);
}

#[test]
fn malformed_coordinate_fails_with_parse_error() {
    let r = EmbeddingTable::from_lines(&lines(&["a 1 0", "b 0 x1", "c 1 1"]), parse_f64);
    assert_eq!(
        r.err(),
        Some(LoadError::InvalidCoordinate { line: 1, token: "x1".to_string() })
    );
}

#[test]
fn malformed_coordinate_on_overwritten_line_still_fails() {
    let r = EmbeddingTable::from_lines(&lines(&["a 1 oops", "a 1 0"]), parse_f64);
    assert_eq!(
        r.err(),
        Some(LoadError::InvalidCoordinate { line: 0, token: "oops".to_string() })
    );
}

#[test]
fn differing_vector_length_fails() {
    let r = EmbeddingTable::from_lines(&lines(&["a 1 0", "b 0 1 2"]), parse_f64);
    assert_eq!(
        r.err(),
        Some(LoadError::DimensionMismatch {
            line: 1,
            word: "b".to_string(),
            expected: 2,
            found: 3
        })
    );
}

#[test]
fn insert_replaces_and_refuses_other_lengths() {
    let mut table: EmbeddingTable<i32> = EmbeddingTable::new();
    assert_eq!(table.insert("x".to_string(), vec![1, 2]), Ok(()));
    assert_eq!(table.insert("y".to_string(), vec![3, 4]), Ok(()));
    assert_eq!(table.insert("x".to_string(), vec![5, 6]), Ok(()));
    assert_eq!(table.insert("z".to_string(), vec![7]), Err(2));
    assert_eq!(table.len(), 2);
    assert_eq!(table.vector(0), &vec![5, 6]);
    assert_eq!(table.vector(1), &vec![3, 4]);
}

#[test]
fn parse_line_splits_on_any_whitespace() {
    let (word, vector) = parse_line("  king \t 0.25   -1\r", &parse_f64).unwrap();
    assert_eq!(word, "king");
    assert_eq!(vector, vec![0.25, -1.0]);
}

#[test]
fn parse_line_reports_first_bad_token() {
    assert_eq!(parse_line("w 1 nan? bad", &parse_f64), Err("nan?".to_string()));
}

#[test]
fn parse_tokens_takes_first_token_as_word() {
    let tokens = vec!["q".to_string(), "4".to_string()];
    assert_eq!(parse_tokens(&tokens, &parse_f64), Ok(("q".to_string(), vec![4.0])));
    assert_eq!(parse_tokens(&Vec::new(), &parse_f64), Ok((String::new(), Vec::new())));
}

#[test]
fn parse_line_splits_on_unicode_white_space() {
    let (word, vector) = parse_line("sea\u{3000}1\u{a0}2\u{2003}3", &parse_f64).unwrap();
    assert_eq!(word, "sea");
    assert_eq!(vector, vec![1.0, 2.0, 3.0]);
}
