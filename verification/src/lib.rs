//! Silhouette clustering quality: the verified integer and text side.
//!
//! The silhouette of a sample compares its mean distance to its own cluster
//! with its mean distance to the nearest other cluster. This crate holds what
//! that computation stands on besides floating point: reading the shape of a
//! whitespace-separated feature table, encoding cluster labels densely the
//! way scikit-learn's `LabelEncoder` does, counting cluster sizes, checking
//! the number of clusters, and splitting the rows into bands of work.
pub mod labels;
pub mod layout;
pub mod metric;
pub mod number;
pub mod silhouette;
pub mod text;

pub use labels::encode_labels;
pub use layout::{parse_layout, InputError, Layout, RaggedRow};
pub use metric::{Metric, MetricArg};
pub use number::parse_integer;
pub use silhouette::{cluster_sizes, row_bands, valid_label_count};
pub use text::text_rows;
