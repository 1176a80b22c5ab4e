//! The shape of a feature table: rows of feature tokens, the label of each
//! row, and where the table is refused.
//!
//! The feature matrix is a whitespace-separated text of `n` rows; the labels
//! are either the last column of every row or, from a separate text, the
//! first word of each of its lines that has one. Every row must have as many
//! columns as the first one. The feature tokens themselves are numbers to be
//! read by the caller, row by row, before the first row of the wrong width.
use vstd::prelude::*;
use crate::text::{table_rows, text_rows};
use crate::labels::{encode_labels, is_dense_rank, label_keys, lemma_dense_rank_unique};

verus! {

/// Why a table is refused before any feature value is read.
#[derive(Debug, Clone, Copy, PartialEq, Eq, Structural)]
pub enum InputError {
    /// The matrix text has no row with a word.
    EmptyMatrix,
    /// The number of labels differs from the number of feature rows.
    LabelCountMismatch { rows: usize, labels: usize },
    /// The labels are the last column, and the first row has no column besides it.
    NoFeatureColumn,
}

/// A row, counted from 1, whose number of columns differs from the first row's.
#[derive(Debug, Clone, Copy, PartialEq, Eq, Structural)]
pub struct RaggedRow {
    pub row: usize,
    pub found: usize,
    pub expected: usize,
}

/// The shape of an accepted table.
pub struct Layout {
    /// The feature tokens of each row, in order, for the rows before the
    /// first row of the wrong width (all rows when there is none).
    pub features: Vec<Vec<Vec<char>>>,
    /// The number of feature columns.
    pub cols: usize,
    /// The first row of the wrong width, if any.
    pub ragged: Option<RaggedRow>,
    /// The cluster index of each row.
    pub labels: Vec<usize>,
    /// The number of distinct labels.
    pub n_clusters: usize,
}

/// The label text, if labels come from a text of their own.
pub open spec fn label_text(labels: Option<&str>) -> Option<Seq<char>> {
    match labels {
        Some(t) => Some(t@),
        None => None,
    }
}

/// The first word of each row.
pub open spec fn first_words(rows: Seq<Seq<Seq<char>>>) -> Seq<Seq<char>> {
    rows.map_values(|r: Seq<Seq<char>>| r[0])
}

/// The last word of each row.
pub open spec fn last_words(rows: Seq<Seq<Seq<char>>>) -> Seq<Seq<char>> {
    rows.map_values(|r: Seq<Seq<char>>| r.last())
}

/// The label token of each row: the first word of each line of the label
/// text, or the last column of the matrix.
pub open spec fn label_tokens(matrix: Seq<char>, labels: Option<Seq<char>>) -> Seq<Seq<char>> {
    match labels {
        Some(t) => first_words(table_rows(t)),
        None => last_words(table_rows(matrix)),
    }
}

/// The error a table is refused with before its values are read, if any.
pub open spec fn layout_error(matrix: Seq<char>, labels: Option<Seq<char>>) -> Option<InputError> {
    let rows = table_rows(matrix);
    let n_labels = label_tokens(matrix, labels).len();
    if rows.len() == 0 {
        Some(InputError::EmptyMatrix)
    } else if n_labels != rows.len() {
        Some(InputError::LabelCountMismatch { rows: rows.len() as usize, labels: n_labels as usize })
    } else if labels is None && rows[0].len() < 2 {
        Some(InputError::NoFeatureColumn)
    } else {
        None
    }
}

/// The number of feature columns: every column of the first row, but the
/// last when it holds the labels.
pub open spec fn feature_cols(matrix: Seq<char>, labels: Option<Seq<char>>) -> int {
    let rows = table_rows(matrix);
    if labels is Some {
        rows[0].len() as int
    } else {
        rows[0].len() - 1
    }
}

/// What `parse_layout` yields for an accepted table.
pub open spec fn layout_matches(l: Layout, matrix: Seq<char>, labels: Option<Seq<char>>) -> bool {
    let rows = table_rows(matrix);
    let width = rows[0].len();
    let k = l.features@.len();
    &&& l.cols == feature_cols(matrix, labels)
    &&& k <= rows.len()
    &&& forall|i: int| 0 <= i < k ==> (#[trigger] rows[i]).len() == width
    &&& forall|i: int|
        0 <= i < k ==> (#[trigger] l.features@[i]).deep_view() == rows[i].take(l.cols as int)
    &&& (l.ragged is Some <==> k < rows.len())
    &&& (l.ragged matches Some(r) ==> r.row == k + 1 && r.found == rows[k as int].len() && r.expected
        == width && r.found != r.expected)
    &&& is_dense_rank(label_keys(label_tokens(matrix, labels)), l.labels@, l.n_clusters as nat)
}

/// A copy of `v`.
fn copy_chars(v: &Vec<char>) -> (r: Vec<char>)
    ensures
        r@ == v@,
{
    let mut r: Vec<char> = Vec::new();
    let mut i: usize = 0;
    while i < v.len()
        invariant
            i <= v@.len(),
            r@ == v@.take(i as int),
        decreases v@.len() - i,
    {
        r.push(v[i]);
        i = i + 1;
        proof {
            assert(r@ =~= v@.take(i as int));
        }
    }
    proof {
        assert(v@.take(i as int) =~= v@);
    }
    r
}

/// The first word of each row of a label text.
fn first_words_of(rows: &Vec<Vec<Vec<char>>>) -> (r: Vec<Vec<char>>)
    requires
        forall|i: int|
            0 <= i < rows.deep_view().len() ==> (#[trigger] rows.deep_view()[i]).len() > 0,
    ensures
        r.deep_view() == first_words(rows.deep_view()),
{
    let mut r: Vec<Vec<char>> = Vec::new();
    let mut i: usize = 0;
    while i < rows.len()
        invariant
            i <= rows@.len(),
            forall|j: int|
                0 <= j < rows.deep_view().len() ==> (#[trigger] rows.deep_view()[j]).len() > 0,
            r@.len() == i,
            forall|j: int| 0 <= j < i ==> (#[trigger] r@[j])@ == rows@[j]@[0]@,
        decreases rows@.len() - i,
    {
        proof {
            assert(rows.deep_view()[i as int].len() == rows@[i as int]@.len());
        }
        let w = copy_chars(&rows[i][0]);
        r.push(w);
        i = i + 1;
    }
    proof {
        assert(r.deep_view() =~= first_words(rows.deep_view()));
    }
    r
}

/// The last word of each row of a matrix text.
fn last_words_of(rows: &Vec<Vec<Vec<char>>>) -> (r: Vec<Vec<char>>)
    requires
        forall|i: int|
            0 <= i < rows.deep_view().len() ==> (#[trigger] rows.deep_view()[i]).len() > 0,
    ensures
        r.deep_view() == last_words(rows.deep_view()),
{
    let mut r: Vec<Vec<char>> = Vec::new();
    let mut i: usize = 0;
    while i < rows.len()
        invariant
            i <= rows@.len(),
            forall|j: int|
                0 <= j < rows.deep_view().len() ==> (#[trigger] rows.deep_view()[j]).len() > 0,
            r@.len() == i,
            forall|j: int| 0 <= j < i ==> (#[trigger] r@[j])@ == rows@[j]@.last()@,
        decreases rows@.len() - i,
    {
        proof {
            assert(rows.deep_view()[i as int].len() == rows@[i as int]@.len());
        }
        let row = &rows[i];
        let w = copy_chars(&row[row.len() - 1]);
        r.push(w);
        i = i + 1;
    }
    proof {
        assert(r.deep_view() =~= last_words(rows.deep_view()));
    }
    r
}

/// The first `cols` tokens of `row`.
fn leading_tokens(row: &Vec<Vec<char>>, cols: usize) -> (r: Vec<Vec<char>>)
    requires
        cols <= row@.len(),
    ensures
        r.deep_view() == row.deep_view().take(cols as int),
{
    let mut r: Vec<Vec<char>> = Vec::new();
    let mut i: usize = 0;
    while i < cols
        invariant
            cols <= row@.len(),
            i <= cols,
            r@.len() == i,
            forall|j: int| 0 <= j < i ==> (#[trigger] r@[j])@ == row@[j]@,
        decreases cols - i,
    {
        r.push(copy_chars(&row[i]));
        i = i + 1;
    }
    proof {
        assert(r.deep_view() =~= row.deep_view().take(cols as int));
    }
    r
}

/// Reads the shape of a feature table from the matrix text and, if given, a
/// separate label text. The table is refused exactly when `layout_error`
/// names a reason; otherwise the result holds the feature tokens of the rows
/// up to the first row of the wrong width, that row, and the dense encoding
/// of the labels.
pub fn parse_layout(matrix: &str, labels: Option<&str>) -> (res: Result<Layout, InputError>)
    ensures
        match layout_error(matrix@, label_text(labels)) {
            Some(e) => res == Err::<Layout, InputError>(e),
            None => res matches Ok(l) && layout_matches(l, matrix@, label_text(labels)),
        },
        res matches Ok(l) ==> l.labels@.len() == table_rows(matrix@).len(),
        res matches Ok(l) ==> (l.ragged is None <==> forall|i: int|
            0 <= i < table_rows(matrix@).len() ==> (#[trigger] table_rows(matrix@)[i]).len()
                == table_rows(matrix@)[0].len()),
        res matches Ok(l) ==> (l.ragged matches Some(r) ==> 1 <= r.row <= table_rows(matrix@).len()
            && table_rows(matrix@)[r.row - 1].len() != table_rows(matrix@)[0].len()),
{
    let ghost lt = label_text(labels);
    let rows = text_rows(matrix);
    let ghost rs = table_rows(matrix@);
    proof {
        table_rows_nonempty(matrix@);
    }
    let n = rows.len();
    if n == 0 {
        return Err(InputError::EmptyMatrix);
    }
    proof {
        assert(rows@[0]@.len() == rs[0].len());
    }
    let tokens = match labels {
        Some(t) => {
            let lrows = text_rows(t);
            proof {
                table_rows_nonempty(t@);
            }
            first_words_of(&lrows)
        },
        None => last_words_of(&rows),
    };
    proof {
        assert(tokens.deep_view() == label_tokens(matrix@, lt));
    }
    if tokens.len() != n {
        return Err(InputError::LabelCountMismatch { rows: n, labels: tokens.len() });
    }
    let width = rows[0].len();
    let cols = match labels {
        Some(_) => width,
        None => {
            if width < 2 {
                return Err(InputError::NoFeatureColumn);
            }
            width - 1
        },
    };
    let mut features: Vec<Vec<Vec<char>>> = Vec::new();
    let mut ragged: Option<RaggedRow> = None;
    let mut i: usize = 0;
    while i < n
        invariant_except_break
            ragged is None,
        invariant
            n == rows@.len(),
            rs == rows.deep_view(),
            width == rs[0].len(),
            cols <= width,
            i <= n,
            features@.len() == i,
            forall|j: int| 0 <= j < i ==> (#[trigger] rs[j]).len() == width,
            forall|j: int| 0 <= j < i ==> (#[trigger] features@[j]).deep_view() == rs[j].take(
                cols as int,
            ),
        ensures
            ragged is Some <==> i < n,
            ragged matches Some(r) ==> r.row == i + 1 && r.found == rs[i as int].len() && r.expected
                == width && r.found != r.expected,
        decreases n - i,
    {
        let row = &rows[i];
        proof {
            assert(row@.len() == rs[i as int].len());
        }
        if row.len() != width {
            ragged = Some(RaggedRow { row: i + 1, found: row.len(), expected: width });
            break;
        }
        let f = leading_tokens(row, cols);
        proof {
            assert(row.deep_view() == rs[i as int]);
        }
        features.push(f);
        i = i + 1;
    }
    let (codes, k) = encode_labels(&tokens);
    let l = Layout { features, cols, ragged, labels: codes, n_clusters: k };
    proof {
        lemma_one_label_per_row(matrix@, lt, l);
        lemma_first_wrong_width(matrix@, lt, l);
    }
    Ok(l)
}

/// One label per row: with a label text whose number of rows with a word
/// differs from the matrix's number of rows, more or fewer, a non-empty table
/// is refused for that, and an accepted table has exactly one label per
/// matrix row.
pub proof fn lemma_one_label_per_row(matrix: Seq<char>, labels: Option<Seq<char>>, l: Layout)
    ensures
        (table_rows(matrix).len() > 0 && labels is Some && table_rows(labels->0).len()
            != table_rows(matrix).len()) ==> layout_error(matrix, labels) == Some(
            InputError::LabelCountMismatch {
                rows: table_rows(matrix).len() as usize,
                labels: table_rows(labels->0).len() as usize,
            },
        ),
        layout_error(matrix, labels) is None ==> label_tokens(matrix, labels).len() == table_rows(
            matrix,
        ).len(),
        layout_error(matrix, labels) is None && layout_matches(l, matrix, labels)
            ==> l.labels@.len() == table_rows(matrix).len(),
{
}

/// An accepted table reports no row of the wrong width exactly when every
/// row has as many words as the first, longer and shorter rows alike, and it
/// then holds the features of every row; otherwise it reports the first row
/// whose number of words differs from the first row's.
pub proof fn lemma_first_wrong_width(matrix: Seq<char>, labels: Option<Seq<char>>, l: Layout)
    requires
        layout_error(matrix, labels) is None,
        layout_matches(l, matrix, labels),
    ensures
        l.ragged is None <==> forall|i: int|
            0 <= i < table_rows(matrix).len() ==> (#[trigger] table_rows(matrix)[i]).len()
                == table_rows(matrix)[0].len(),
        l.ragged is None ==> l.features@.len() == table_rows(matrix).len(),
        l.ragged matches Some(r) ==> {
            &&& 1 <= r.row <= table_rows(matrix).len()
            &&& table_rows(matrix)[r.row - 1].len() != table_rows(matrix)[0].len()
            &&& forall|i: int|
                0 <= i < r.row - 1 ==> (#[trigger] table_rows(matrix)[i]).len() == table_rows(
                    matrix,
                )[0].len()
            &&& r.found == table_rows(matrix)[r.row - 1].len()
            &&& r.expected == table_rows(matrix)[0].len()
        },
{
    let rows = table_rows(matrix);
    if l.ragged is Some {
        let k = l.features@.len() as int;
        assert(rows[k].len() != rows[0].len());
    }
}

/// The rows of a table without their last word.
pub open spec fn without_last_words(rows: Seq<Seq<Seq<char>>>) -> Seq<Seq<Seq<char>>> {
    rows.map_values(|r: Seq<Seq<char>>| r.drop_last())
}

/// Labels in the last column of the matrix and the same labels in a text of
/// their own make the same table. When the rows of `features` are the rows of
/// `with_labels` without their last word, and the lines of `labels` start
/// with those last words, both readings are refused alike or both accepted,
/// and then they agree on the feature tokens, the columns, the row of the
/// wrong width, and the labels.
pub proof fn lemma_label_sources_agree(
    with_labels: Seq<char>,
    features: Seq<char>,
    labels: Seq<char>,
    a: Layout,
    b: Layout,
)
    requires
        table_rows(features) == without_last_words(table_rows(with_labels)),
        first_words(table_rows(labels)) == last_words(table_rows(with_labels)),
    ensures
        layout_error(with_labels, None) == layout_error(features, Some(labels)),
        layout_error(with_labels, None) is None && layout_matches(a, with_labels, None)
            && layout_matches(b, features, Some(labels)) ==> {
            &&& a.cols == b.cols
            &&& a.features.deep_view() == b.features.deep_view()
            &&& (a.ragged is Some <==> b.ragged is Some)
            &&& (a.ragged matches Some(ra) ==> b.ragged matches Some(rb) && ra.row == rb.row)
            &&& a.labels@ == b.labels@
            &&& a.n_clusters == b.n_clusters
        },
{
    let ra = table_rows(with_labels);
    let rb = table_rows(features);
    table_rows_nonempty(features);
    table_rows_nonempty(with_labels);
    assert(rb.len() == ra.len());
    assert forall|i: int| 0 <= i < ra.len() implies (#[trigger] ra[i]).len() >= 2 by {
        assert(rb[i] == ra[i].drop_last());
    }
    assert(label_tokens(with_labels, None) == label_tokens(features, Some(labels)));
    if layout_error(with_labels, None) is None && layout_matches(a, with_labels, None)
        && layout_matches(b, features, Some(labels)) {
        let ka = a.features@.len();
        let kb = b.features@.len();
        assert forall|i: int| 0 <= i < ra.len() implies ((#[trigger] ra[i]).len() == ra[0].len()
            <==> rb[i].len() == rb[0].len()) by {
            assert(rb[i] == ra[i].drop_last());
            assert(rb[0] == ra[0].drop_last());
        }
        if ka < kb {
            assert(rb[ka as int].len() == rb[0].len());
        }
        if kb < ka {
            assert(ra[kb as int].len() == ra[0].len());
        }
        assert(ka == kb);
        assert forall|i: int| 0 <= i < ka implies a.features.deep_view()[i]
            == b.features.deep_view()[i] by {
            assert(a.features@[i].deep_view() == ra[i].take(a.cols as int));
            assert(b.features@[i].deep_view() == rb[i].take(b.cols as int));
            assert(rb[i] == ra[i].drop_last());
            assert(ra[i].take(a.cols as int) =~= ra[i].drop_last());
            assert(rb[i].take(b.cols as int) =~= rb[i]);
        }
        assert(a.features.deep_view() =~= b.features.deep_view());
        lemma_dense_rank_unique(
            label_keys(label_tokens(with_labels, None)),
            a.labels@,
            a.n_clusters as nat,
            b.labels@,
            b.n_clusters as nat,
        );
    }
}

/// Every row of a text has a word.
proof fn table_rows_nonempty(text: Seq<char>)
    ensures
        forall|i: int|
            0 <= i < table_rows(text).len() ==> (#[trigger] table_rows(text)[i]).len() > 0,
{
    broadcast use vstd::seq_lib::group_filter_ensures;

    let m = crate::text::pieces(text, true).map_values(crate::text::words_of_line());
    assert forall|i: int|
        0 <= i < table_rows(text).len() implies (#[trigger] table_rows(text)[i]).len() > 0 by {
        m.lemma_filter_pred(crate::text::nonempty_row(), i);
    }
}

} // verus!
