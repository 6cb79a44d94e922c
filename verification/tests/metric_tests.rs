use hnsw_ann::metrics::{metric, Metric};
use hnsw_ann::AnnError;

#[test]
fn manhattan_exact_value() {
    let a: Vec<i64> = vec![1, -2, 3];
    let b: Vec<i64> = vec![4, 2, 3];
    assert_eq!(metric(&a, &b, Metric::Manhattan), Ok(7));
}

#[test]
fn euclidean_is_the_exact_squared_distance() {
    let a: Vec<i64> = vec![0, 0];
    let b: Vec<i64> = vec![3, 4];
    assert_eq!(metric(&a, &b, Metric::Euclidean), Ok(25));
    assert_eq!(metric(&a, &a, Metric::Euclidean), Ok(0));
}

#[test]
fn dot_product_is_negated_so_smaller_means_closer() {
    let a: Vec<i64> = vec![1, 2, 3];
    let b: Vec<i64> = vec![4, 5, 6];
    assert_eq!(metric(&a, &b, Metric::DotProduct), Ok(-32));
}

#[test]
fn unknown_metric_is_rejected() {
    let a: Vec<i64> = vec![1, 2];
    let b: Vec<i64> = vec![3, 4];
    assert_eq!(metric(&a, &b, Metric::Unknown), Err(AnnError::UnknownMetric));
}

#[test]
fn float_only_metrics_are_rejected() {
    let a: Vec<i64> = vec![1, 2];
    let b: Vec<i64> = vec![3, 4];
    assert_eq!(
        metric(&a, &b, Metric::CosineSimilarity),
        Err(AnnError::UnknownMetric)
    );
    assert_eq!(metric(&a, &b, Metric::Angular), Err(AnnError::UnknownMetric));
}

#[test]
fn mismatched_lengths_are_rejected() {
    let a: Vec<i64> = vec![1, 2];
    let b: Vec<i64> = vec![1, 2, 3];
    assert_eq!(
        metric(&a, &b, Metric::Euclidean),
        Err(AnnError::DimensionMismatch)
    );
}

#[test]
fn default_metric_is_the_unset_variant() {
    assert_eq!(Metric::default(), Metric::Unknown);
}
