use petalcluster::error::MarshalError;
use petalcluster::metric::{parse_metric, Metric};

#[test]
fn known_metrics_parse() {
    assert_eq!(parse_metric("euclidean"), Ok(Metric::Euclidean));
    assert_eq!(parse_metric("cosine"), Ok(Metric::Cosine));
}

#[test]
fn unknown_metric_faults() {
    // No normalization, no fuzzy matching, no partial result.
    assert_eq!(parse_metric("manhattan"), Err(MarshalError::UnknownMetric));
    assert_eq!(parse_metric(""), Err(MarshalError::UnknownMetric));
}

#[test]
fn metric_match_is_case_sensitive() {
    assert_eq!(parse_metric("Euclidean"), Err(MarshalError::UnknownMetric));
    assert_eq!(parse_metric("COSINE"), Err(MarshalError::UnknownMetric));
}
