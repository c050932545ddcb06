//! Deterministic behaviour of the fitting engine: tie-breaking, truncated
//! means, empty-cluster drops, pass counting, and shape validation.

use kmeans::engine::fit_clusters;
use kmeans::engine::get_dist_mean;
use kmeans::engine::get_labels;
use kmeans::engine::init_labels;
use kmeans::engine::ShapeMismatch;
use kmeans::matrix::Matrix;

fn make_matrix(rows: Vec<Vec<i64>>) -> Matrix {
    Matrix::new(rows).unwrap()
}

// A point exactly equidistant from two centroids goes to the lower index,
// on every evaluation.
#[test]
fn tie_break_prefers_lower_index() {
    let train = make_matrix(vec![vec![0], vec![4]]);
    let (_, centroids, _) = fit_clusters(&train, vec![0, 1], 2, 10).unwrap();
    assert_eq!(centroids.rows(), 2);
    assert_eq!(centroids.get(0, 0), 0);
    assert_eq!(centroids.get(1, 0), 4);

    let midpoint = make_matrix(vec![vec![2]]);
    for _ in 0..5 {
        let labels = get_labels(&midpoint, &centroids).unwrap();
        assert_eq!(labels, vec![0]);
    }
}

// Centroid coordinates are the truncated (toward zero) integer means of the
// member rows, for either sign.
#[test]
fn centroid_mean_truncates_toward_zero() {
    let pos = make_matrix(vec![vec![1], vec![2]]);
    let (labels, centroids, _) = fit_clusters(&pos, vec![1, 1], 2, 10).unwrap();
    assert_eq!(labels, vec![0, 0]);
    assert_eq!(centroids.rows(), 1);
    assert_eq!(centroids.get(0, 0), 1); // 3 / 2 truncated

    let neg = make_matrix(vec![vec![-1], vec![-2]]);
    let (labels, centroids, _) = fit_clusters(&neg, vec![1, 1], 2, 10).unwrap();
    assert_eq!(labels, vec![0, 0]);
    assert_eq!(centroids.rows(), 1);
    assert_eq!(centroids.get(0, 0), -1); // -3 / 2 truncated, not floored
}

// Squared Euclidean distances, one row per centroid, one column per
// observation.
#[test]
fn distance_matrix_holds_squared_distances() {
    let x = make_matrix(vec![vec![0, 0], vec![3, 4]]);
    let centroids = make_matrix(vec![vec![0, 0], vec![6, 8]]);
    let dist = get_dist_mean(&x, &centroids).unwrap();
    assert_eq!(dist, vec![vec![0, 25], vec![100, 25]]);
}

#[test]
fn distance_matrix_rejects_mismatched_columns() {
    let x = make_matrix(vec![vec![0, 0]]);
    let centroids = make_matrix(vec![vec![1, 2, 3]]);
    assert_eq!(get_dist_mean(&x, &centroids), Err(ShapeMismatch));
    assert_eq!(get_labels(&x, &centroids), Err(ShapeMismatch));
}

#[test]
fn labels_with_no_centroids_are_zero() {
    let x = make_matrix(vec![vec![5], vec![7]]);
    let centroids = Matrix::empty(1);
    assert_eq!(get_labels(&x, &centroids), Ok(vec![0, 0]));
}

// An already-stable assignment converges after a single reassignment pass.
#[test]
fn stable_assignment_converges_within_two_passes() {
    let x = make_matrix(vec![vec![0], vec![100]]);
    let (labels, centroids, passes) = fit_clusters(&x, vec![0, 1], 2, 50).unwrap();
    assert_eq!(labels, vec![0, 1]);
    assert_eq!(centroids.rows(), 2);
    assert!(passes <= 2);
}

// The pass count never exceeds the iteration budget.
#[test]
fn passes_respect_max_iter() {
    let x = make_matrix(vec![vec![0], vec![3], vec![100]]);
    let (_, _, passes) = fit_clusters(&x, vec![2, 0, 1], 3, 1).unwrap();
    assert!(passes <= 1);
    let (_, _, passes) = fit_clusters(&x, vec![2, 0, 1], 3, 7).unwrap();
    assert!(passes <= 7);
}

// A cluster that ends an iteration empty contributes no centroid row, so
// the centroid matrix can have fewer rows than the configured cluster count
// and later clusters' labels shift down.
#[test]
fn empty_cluster_drops_centroid_row() {
    let x = make_matrix(vec![vec![0], vec![0], vec![100]]);
    let (labels, centroids, _) = fit_clusters(&x, vec![0, 0, 2], 3, 20).unwrap();
    assert_eq!(centroids.rows(), 2);
    assert_eq!(labels, vec![0, 0, 1]);
    assert_eq!(centroids.get(0, 0), 0);
    assert_eq!(centroids.get(1, 0), 100);
}

// An all-zero initial labelling matches the engine's reference labelling
// immediately: no pass runs and no centroid is ever produced.
#[test]
fn all_zero_init_converges_without_centroids() {
    let x = make_matrix(vec![vec![5], vec![7]]);
    let (labels, centroids, passes) = fit_clusters(&x, vec![0, 0], 2, 10).unwrap();
    assert_eq!(labels, vec![0, 0]);
    assert_eq!(centroids.rows(), 0);
    assert_eq!(passes, 0);
}

#[test]
fn fit_clusters_on_empty_data() {
    let x = Matrix::empty(3);
    let (labels, centroids, passes) = fit_clusters(&x, vec![], 4, 10).unwrap();
    assert_eq!(labels.len(), 0);
    assert_eq!(centroids.rows(), 0);
    assert_eq!(centroids.cols(), 3);
    assert_eq!(passes, 0);
}

// Every drawn label stays below the cluster count; with a single cluster
// the draw can only be zero.
#[test]
fn initial_labels_stay_below_cluster_count() {
    let x = make_matrix(vec![vec![1], vec![2], vec![3], vec![4], vec![5]]);
    let ones = init_labels(&x, 1);
    assert_eq!(ones, vec![0, 0, 0, 0, 0]);
    let threes = init_labels(&x, 3);
    assert_eq!(threes.len(), 5);
    for l in threes {
        assert!(l < 3);
    }
}

#[test]
fn matrix_rejects_ragged_rows() {
    assert!(Matrix::new(vec![vec![1, 2], vec![3]]).is_none());
}

#[test]
fn matrix_rejects_out_of_range_entries() {
    assert!(Matrix::new(vec![vec![2_000_000_000]]).is_none());
    assert!(Matrix::new(vec![vec![-2_000_000_000]]).is_none());
    assert!(Matrix::new(vec![vec![1_000_000_000], vec![-1_000_000_000]]).is_some());
}

#[test]
fn matrix_reports_shape_and_entries() {
    let m = make_matrix(vec![vec![1, 2, 3], vec![4, 5, 6]]);
    assert_eq!(m.rows(), 2);
    assert_eq!(m.cols(), 3);
    assert_eq!(m.get(1, 2), 6);
    let r = m.row(0);
    assert_eq!(r, vec![1, 2, 3]);
    let copy = m.clone_matrix();
    assert_eq!(copy.rows(), 2);
    assert_eq!(copy.cols(), 3);
    assert_eq!(copy.get(0, 1), 2);
}
