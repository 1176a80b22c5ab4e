//! The distance metrics, and the names the command line accepts for them.
use vstd::prelude::*;

verus! {

/// A pairwise distance, as scikit-learn's `pairwise_distances` names them.
#[derive(Debug, Clone, Copy, PartialEq, Eq, Structural)]
pub enum Metric {
    Euclidean,
    Cosine,
    Cityblock,
    Sqeuclidean,
}

/// A metric as named on the command line: `manhattan` is another name for
/// `cityblock`.
#[derive(Debug, Clone, Copy, PartialEq, Eq, Structural)]
pub enum MetricArg {
    Euclidean,
    Cosine,
    Cityblock,
    Manhattan,
    Sqeuclidean,
}

/// The metric a command-line name stands for.
pub open spec fn metric_of(m: MetricArg) -> Metric {
    match m {
        MetricArg::Euclidean => Metric::Euclidean,
        MetricArg::Cosine => Metric::Cosine,
        MetricArg::Cityblock => Metric::Cityblock,
        MetricArg::Manhattan => Metric::Cityblock,
        MetricArg::Sqeuclidean => Metric::Sqeuclidean,
    }
}

impl From<MetricArg> for Metric {
    fn from(m: MetricArg) -> (r: Metric) {
        match m {
            MetricArg::Euclidean => Metric::Euclidean,
            MetricArg::Cosine => Metric::Cosine,
            MetricArg::Cityblock => Metric::Cityblock,
            MetricArg::Manhattan => Metric::Cityblock,
            MetricArg::Sqeuclidean => Metric::Sqeuclidean,
        }
    }
}

impl vstd::std_specs::convert::FromSpecImpl<MetricArg> for Metric {
    open spec fn obeys_from_spec() -> bool {
        true
    }

    open spec fn from_spec(m: MetricArg) -> Metric {
        metric_of(m)
    }
}

} // verus!
