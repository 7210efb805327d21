use embedding_network::network::{create_network, distance_matrix};
use embedding_network::table::EmbeddingTable;

fn parse_f64(s: &str) -> Option<f64> {
    s.parse::<f64>().ok()
}

fn cosine(a: &Vec<f64>, b: &Vec<f64>) -> f64 {
    let mut dot = 0.0;
    let mut ma = 0.0;
    let mut mb = 0.0;
    for i in 0..a.len() {
        dot += a[i] * b[i];
        ma += a[i] * a[i];
        mb += b[i] * b[i];
    }
    1.0 - dot / (ma.sqrt() * mb.sqrt())
}

fn abc() -> EmbeddingTable<f64> {
    let lines: Vec<String> = vec!["a 1 0".to_string(), "b 0 1".to_string(), "c 1 0".to_string()];
    EmbeddingTable::from_lines(&lines, parse_f64).unwrap()
}

fn sorted(mut edges: Vec<(usize, usize)>) -> Vec<(usize, usize)> {
    edges.sort();
    edges
}

#[test]
fn graph_at_half_links_orthogonal_pairs_both_ways() {
    let (words, edges) = create_network(&abc(), |x: &Vec<f64>, y: &Vec<f64>| cosine(x, y) >= 0.5);
    assert_eq!(words, vec!["a".to_string(), "b".to_string(), "c".to_string()]);
    assert_eq!(sorted(edges), vec![(0, 1), (1, 0), (1, 2), (2, 1)]);
}

#[test]
fn graph_at_zero_holds_every_ordered_pair() {
    let (_, edges) = create_network(&abc(), |x: &Vec<f64>, y: &Vec<f64>| cosine(x, y) >= 0.0);
    assert_eq!(edges.len(), 9);
    let mut all = Vec::new();
    for i in 0..3 {
        for j in 0..3 {
            all.push((i, j));
        }
    }
    assert_eq!(sorted(edges), all);
}

#[test]
fn graph_at_one_and_a_half_is_empty() {
    let (_, edges) = create_network(&abc(), |x: &Vec<f64>, y: &Vec<f64>| cosine(x, y) >= 1.5);
    assert!(edges.is_empty());
}

#[test]
fn graph_above_two_is_empty() {
    let (_, edges) = create_network(&abc(), |x: &Vec<f64>, y: &Vec<f64>| cosine(x, y) >= 2.5);
    assert!(edges.is_empty());
}

#[test]
fn graph_of_empty_table_is_empty() {
    let table: EmbeddingTable<f64> = EmbeddingTable::new();
    let (words, edges) = create_network(&table, |_: &Vec<f64>, _: &Vec<f64>| true);
    assert!(words.is_empty());
    assert!(edges.is_empty());
}

#[test]
fn matrix_has_square_count_in_nested_order() {
    let m = distance_matrix(&abc(), |x: &Vec<f64>, y: &Vec<f64>| cosine(x, y));
    assert_eq!(m.len(), 9);
    let expected = [0.0, 1.0, 0.0, 1.0, 0.0, 1.0, 0.0, 1.0, 0.0];
    for k in 0..9 {
        assert!((m[k] - expected[k]).abs() < 1e-12);
    }
}

#[test]
fn matrix_position_names_row_then_column() {
    let lines: Vec<String> = vec!["p 1".to_string(), "q 2".to_string()];
    let table = EmbeddingTable::from_lines(&lines, |s: &str| s.parse::<i64>().ok()).unwrap();
    let m = distance_matrix(&table, |x: &Vec<i64>, y: &Vec<i64>| 10 * x[0] + y[0]);
    assert_eq!(m, vec![11, 12, 21, 22]);
}
