use rsomics_silhouette::{
    cluster_sizes, encode_labels, parse_integer, row_bands, text_rows, valid_label_count, Metric,
    MetricArg,
};

fn chars(s: &str) -> Vec<char> {
    s.chars().collect()
}

fn tokens(ts: &[&str]) -> Vec<Vec<char>> {
    ts.iter().map(|t| chars(t)).collect()
}

#[test]
fn integers_parse_as_rust_does() {
    for s in ["0", "-0", "+0", "007", "-42", "+17", "9223372036854775807", "-9223372036854775808"] {
        assert_eq!(parse_integer(&chars(s)), s.parse::<i64>().ok(), "{s}");
    }
    for s in ["", "+", "-", "+-1", "1.0", "1e3", " 1", "9223372036854775808", "-9223372036854775809", "99999999999999999999999", "٣"] {
        assert_eq!(parse_integer(&chars(s)), None, "{s}");
        assert!(s.parse::<i64>().is_err(), "{s}");
    }
}

#[test]
fn numeric_labels_rank_by_value() {
    let (l, k) = encode_labels(&tokens(&["5", "-3", "+5", "0", "-0", "100"]));
    assert_eq!(l, [2, 0, 2, 1, 1, 3]);
    assert_eq!(k, 4);
}

#[test]
fn one_text_label_makes_all_labels_text() {
    let (l, k) = encode_labels(&tokens(&["5", "x", "10"]));
    assert_eq!(l, [1, 2, 0]);
    assert_eq!(k, 3);
}

#[test]
fn text_labels_order_by_code_point() {
    let (l, k) = encode_labels(&tokens(&["é", "z", "Z", "ab", "a"]));
    assert_eq!(l, [4, 3, 0, 2, 1]);
    assert_eq!(k, 5);
}

#[test]
fn no_labels_no_clusters() {
    let (l, k) = encode_labels(&Vec::new());
    assert!(l.is_empty());
    assert_eq!(k, 0);
}

#[test]
fn cluster_sizes_count_each_label() {
    let s = cluster_sizes(&[0, 2, 2, 1, 2, 0], 4);
    assert_eq!(s, [2, 1, 3, 0]);
    assert_eq!(s.iter().sum::<usize>(), 6);
}

#[test]
fn label_count_bounds() {
    assert!(!valid_label_count(1, 3));
    assert!(valid_label_count(2, 3));
    assert!(!valid_label_count(3, 3));
    assert!(!valid_label_count(0, 0));
    assert!(valid_label_count(5, 100));
}

#[test]
fn bands_cover_rows_once() {
    assert_eq!(row_bands(10, 4), [(0, 3), (3, 6), (6, 9), (9, 10)]);
    assert_eq!(row_bands(10, 1), [(0, 10)]);
    assert_eq!(row_bands(3, 8), [(0, 1), (1, 2), (2, 3)]);
    assert_eq!(row_bands(5, 0), [(0, 5)]);
    assert!(row_bands(0, 4).is_empty());
}

#[test]
fn manhattan_is_cityblock() {
    assert_eq!(Metric::from(MetricArg::Manhattan), Metric::Cityblock);
    assert_eq!(Metric::from(MetricArg::Cityblock), Metric::Cityblock);
    assert_eq!(Metric::from(MetricArg::Euclidean), Metric::Euclidean);
    assert_eq!(Metric::from(MetricArg::Cosine), Metric::Cosine);
    assert_eq!(Metric::from(MetricArg::Sqeuclidean), Metric::Sqeuclidean);
}

#[test]
fn rows_split_like_lines_and_split_whitespace() {
    let s = "a b\r\n\n c\t d \u{85}e\nf\u{200b}g\n";
    let got: Vec<Vec<String>> = text_rows(s)
        .iter()
        .map(|r| r.iter().map(|t| t.iter().collect()).collect())
        .collect();
    let want: Vec<Vec<String>> = s
        .lines()
        .filter(|l| !l.trim().is_empty())
        .map(|l| l.split_whitespace().map(String::from).collect())
        .collect();
    assert_eq!(got, want);
    assert_eq!(got.len(), 3);
}
