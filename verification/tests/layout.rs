use rsomics_silhouette::{parse_layout, InputError, Layout};

fn text(t: &Vec<char>) -> String {
    t.iter().collect()
}

fn floats(l: &Layout, row: usize) -> Vec<f64> {
    l.features[row]
        .iter()
        .map(|t| text(t).parse::<f64>().unwrap())
        .collect()
}

#[test]
fn last_column_is_label() {
    let d = parse_layout("1.0 2.0 0\n3.0 4.0 1\n5.0 6.0 0\n", None).unwrap();
    assert!(d.ragged.is_none());
    assert_eq!(d.features.len(), 3);
    assert_eq!(d.cols, 2);
    assert_eq!(d.labels, [0, 1, 0]);
    assert_eq!(d.n_clusters, 2);
    assert_eq!(floats(&d, 1), [3.0, 4.0]);
}

#[test]
fn separate_label_file() {
    let d = parse_layout("1.0 2.0\n3.0 4.0\n", Some("a\nb\n")).unwrap();
    assert_eq!(d.cols, 2);
    assert_eq!(d.labels, [0, 1]);
}

#[test]
fn integer_labels_sort_numerically() {
    let d = parse_layout("0 10\n0 2\n0 3\n", None).unwrap();
    assert_eq!(d.labels, [2, 0, 1]);
}

#[test]
fn label_count_mismatch_fails() {
    assert!(parse_layout("1.0\n2.0\n", Some("a\n")).is_err());
}

#[test]
fn ragged_matrix_fails() {
    let refused = match parse_layout("1.0 2.0 0\n3.0 1\n", None) {
        Ok(l) => l.ragged.is_some(),
        Err(_) => true,
    };
    assert!(refused);
}

#[test]
fn int_labels_dedup_by_value_not_text() {
    let d = parse_layout("1.0 0\n2.0 -0\n8.0 2\n9.0 2\n", None).unwrap();
    assert_eq!(d.labels, [0, 0, 1, 1]);
    assert_eq!(d.n_clusters, 2);
}

#[test]
fn int_labels_dedup_leading_zero_and_plus() {
    let d = parse_layout("1.0 01\n2.0 1\n8.0 +2\n9.0 2\n", None).unwrap();
    assert_eq!(d.labels, [0, 0, 1, 1]);
    assert_eq!(d.n_clusters, 2);
}

#[test]
fn empty_matrix_is_refused() {
    assert_eq!(parse_layout("", None).err(), Some(InputError::EmptyMatrix));
    assert_eq!(parse_layout(" \n\t\n\r\n", None).err(), Some(InputError::EmptyMatrix));
}

#[test]
fn label_count_mismatch_reports_both_counts() {
    assert_eq!(
        parse_layout("1.0\n2.0\n", Some("a\n")).err(),
        Some(InputError::LabelCountMismatch { rows: 2, labels: 1 })
    );
}

#[test]
fn label_column_alone_is_refused() {
    assert_eq!(
        parse_layout("0\n1 2\n", None).err(),
        Some(InputError::NoFeatureColumn)
    );
}

#[test]
fn ragged_row_is_reported_after_the_rows_before_it() {
    let d = parse_layout("1 2 0\n3 4 1\n5 1\n7 8 0\n", None).unwrap();
    assert_eq!(d.features.len(), 2);
    let r = d.ragged.unwrap();
    assert_eq!((r.row, r.found, r.expected), (3, 2, 3));
    assert_eq!(floats(&d, 1), [3.0, 4.0]);
}

#[test]
fn blank_lines_and_crlf_are_ignored() {
    let d = parse_layout("\r\n1\t2 a\r\n\n  \n3 4   b\r\n", None).unwrap();
    assert_eq!(d.features.len(), 2);
    assert_eq!(d.cols, 2);
    assert_eq!(d.labels, [0, 1]);
    assert_eq!(text(&d.features[1][0]), "3");
}

#[test]
fn unicode_whitespace_separates_columns() {
    let d = parse_layout("1\u{a0}2\u{3000}x\n3\u{2003}4 y\n", None).unwrap();
    assert!(d.ragged.is_none());
    assert_eq!(d.cols, 2);
    assert_eq!(floats(&d, 0), [1.0, 2.0]);
}

#[test]
fn text_labels_sort_lexicographically() {
    let d = parse_layout("1\n2\n3\n4\n", Some("b\n10\n9\na b\n")).unwrap();
    // "10" < "9" < "a" < "b" as text
    assert_eq!(d.labels, [3, 0, 1, 2]);
    assert_eq!(d.n_clusters, 4);
}

#[test]
fn float_labels_are_text() {
    let d = parse_layout("1 1.0\n2 10\n3 1\n", None).unwrap();
    // "1" < "1.0" < "10" as text
    assert_eq!(d.labels, [1, 2, 0]);
}

#[test]
fn labels_from_last_column_match_separate_labels() {
    let a = parse_layout("1 2 x\n3 4 y\n5 6 x\n", None).unwrap();
    let b = parse_layout("1 2\n3 4\n5 6\n", Some("x\ny\nx\n")).unwrap();
    assert_eq!(a.cols, b.cols);
    assert_eq!(a.features, b.features);
    assert_eq!(a.labels, b.labels);
    assert_eq!(a.n_clusters, b.n_clusters);
}
