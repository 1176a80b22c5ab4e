# rsomics-silhouette

Silhouette clustering-quality coefficient (`silhouette_score`, the mean over
all samples, and `silhouette_samples`, the per-sample coefficient), matching
scikit-learn's `sklearn.metrics.silhouette_score` / `silhouette_samples`.

## Layout

- `src/` — the library, verified with Verus: everything the computation
  stands on that is not floating point.
  - `text.rs` — a text as rows of whitespace-separated words (`str::lines`
    and `str::split_whitespace`, blank lines dropped).
  - `number.rs` — integers as `str::parse::<i64>` reads them.
  - `labels.rs` — the dense label encoding of scikit-learn's `LabelEncoder`
    (integers by value, other labels by text), and its uniqueness.
  - `layout.rs` — the shape of a feature table: feature tokens, label
    column or label text, the row of the wrong width, the errors.
  - `silhouette.rs` — the valid number of clusters, cluster sizes, and the
    bands of rows handed to the workers.
  - `metric.rs` — the metrics and their command-line names.
- `app/` — the command-line tool: file and stdin reading, the
  floating-point feature values (`fast-float2`), distances, per-cluster sums,
  the coefficient, NumPy's pairwise mean, and output.
- `tests/` — tests of the library.
