//! End-to-end behaviour of the model: training on well-separated Gaussian
//! blobs, prediction, and dimensionality validation. Coordinates are scaled
//! by 1000 into the library's fixed-point representation.

use kmeans::matrix::Matrix;
use kmeans::model::KMeans;
use kmeans::model::KMeansModel;
use kmeans::model::PredictError;

use rand::Rng;

const SCALE: f64 = 1000.0;

fn gauss(rng: &mut rand::rngs::ThreadRng, mean: f64, sd: f64) -> f64 {
    let u1: f64 = 1.0 - rng.gen::<f64>();
    let u2: f64 = rng.gen::<f64>();
    let z = (-2.0 * u1.ln()).sqrt() * (2.0 * std::f64::consts::PI * u2).cos();
    mean + sd * z
}

fn blob(rng: &mut rand::rngs::ThreadRng, n: usize, mean: f64, sd: f64, dim: usize) -> Vec<Vec<i64>> {
    let mut rows = Vec::new();
    for _ in 0..n {
        let mut row = Vec::new();
        for _ in 0..dim {
            row.push((gauss(rng, mean, sd) * SCALE).round() as i64);
        }
        rows.push(row);
    }
    rows
}

// Four well-separated blobs, mirroring the centers (2, -2, 12, -20) scaled
// from the base mean and standard deviation.
fn make_train_data(data_num: usize, mean: f64, std_dev: f64, dim: usize) -> Matrix {
    let clusters_num: usize = 4;
    let mut rng = rand::thread_rng();
    let mut rows = Vec::new();
    rows.extend(blob(&mut rng, data_num / clusters_num, mean * 0.3 + 2.0, std_dev * 0.3, dim));
    rows.extend(blob(&mut rng, data_num / clusters_num, mean * 0.5 - 2.0, std_dev * 0.5, dim));
    rows.extend(blob(&mut rng, data_num / clusters_num, mean * 0.1 + 12.0, std_dev * 0.1, dim));
    rows.extend(blob(&mut rng, data_num / clusters_num, mean * 0.2 - 20.0, std_dev * 0.3, dim));
    Matrix::new(rows).unwrap()
}

fn make_matrix(rows: Vec<Vec<i64>>) -> Matrix {
    Matrix::new(rows).unwrap()
}

#[test]
fn fit_test() {
    let mean: f64 = 0.0; // mean
    let std_dev: f64 = 1.0; // standard deviation
    let dim = 2; // dimension
    let data_num = 200;

    let train_data = make_train_data(data_num, mean, std_dev, dim);

    let mut km = KMeans::new(4, 50);
    let labels = km.fit(&train_data).unwrap();
    println!("train_data:{:?}", labels);
    assert_eq!(labels.len(), data_num);
}

#[test]
fn predict_test() {
    let mean: f64 = 0.0; // mean
    let std_dev: f64 = 1.0; // standard deviation
    let dim = 2; // dimension
    let data_num = 2000;

    let train_data = make_train_data(data_num, mean, std_dev, dim);
    let mut km = KMeans::new(4, 50);
    let train_labels = km.fit(&train_data).unwrap();
    println!("train_data for predict:{:?}", train_labels);
    assert_eq!(train_labels.len(), data_num);

    let test_labels = match km.predict(&train_data) {
        Ok(r) => r,
        Err(e) => {
            panic!("Error: {:?}", e);
        },
    };

    println!("test_data for predict:{:?}", test_labels);
    assert_eq!(test_labels.len(), data_num);

    assert_eq!(train_labels, test_labels);
}

// Four 200-point blobs: fit returns one label per row and predicting on the
// training data reproduces fit's own labels exactly.
#[test]
fn blob_scenario_predict_matches_fit() {
    let train_data = make_train_data(200, 0.0, 1.0, 2);
    let mut km = KMeans::new(4, 50);
    let fit_labels = km.fit(&train_data).unwrap();
    assert_eq!(fit_labels.len(), 200);
    let predicted = km.predict(&train_data).unwrap();
    assert_eq!(fit_labels, predicted);
}

// Every label returned by fit indexes a row of the centroid matrix the same
// fit stored, even when empty clusters shrank that matrix.
#[test]
fn fit_labels_index_stored_centroids() {
    let train_data = make_train_data(40, 0.0, 1.0, 2);
    let mut km = KMeans::new(6, 30);
    let labels = km.fit(&train_data).unwrap();
    let centroids = km.get_mean_points();
    assert!(centroids.rows() <= 6);
    for l in labels {
        if centroids.rows() > 0 {
            assert!(l < centroids.rows());
        } else {
            assert_eq!(l, 0);
        }
    }
}

#[test]
fn predict_dimension_mismatch_carries_count() {
    let train_data = make_matrix(vec![vec![0, 0], vec![1000, 1000]]);
    let mut km = KMeans::new(2, 10);
    km.fit(&train_data).unwrap();
    assert_eq!(km.get_dim(), 2);

    let three_cols = make_matrix(vec![vec![0, 0, 0]]);
    assert_eq!(km.predict(&three_cols), Err(PredictError::DimNumError(3)));

    let one_col = make_matrix(vec![vec![0]]);
    assert_eq!(km.predict(&one_col), Err(PredictError::DimNumError(1)));
}

#[test]
fn predict_before_fit_rejects_nonempty_input() {
    let mut km = KMeans::new(3, 10);
    assert_eq!(km.get_dim(), 0);
    let x = make_matrix(vec![vec![1, 2]]);
    assert_eq!(km.predict(&x), Err(PredictError::DimNumError(2)));
}

#[test]
fn predict_is_deterministic() {
    let train_data = make_train_data(80, 0.0, 1.0, 3);
    let mut km = KMeans::new(4, 50);
    km.fit(&train_data).unwrap();
    let first = km.predict(&train_data).unwrap();
    let second = km.predict(&train_data).unwrap();
    let third = km.predict(&train_data).unwrap();
    assert_eq!(first, second);
    assert_eq!(second, third);
}

// With a single cluster every draw of an initial label is 0, so the initial
// labelling matches the all-zero reference and fit stops before producing
// any centroid; every label is 0.
#[test]
fn single_cluster_labels_all_zero() {
    let train_data = make_matrix(vec![vec![1], vec![2], vec![3], vec![6]]);
    let mut km = KMeans::new(1, 10);
    let labels = km.fit(&train_data).unwrap();
    assert_eq!(labels, vec![0, 0, 0, 0]);
    let centroids = km.get_mean_points();
    assert_eq!(centroids.rows(), 0);
    let predicted = km.predict(&train_data).unwrap();
    assert_eq!(predicted, labels);
}

#[test]
fn get_mean_points_matches_trained_dimensionality() {
    let train_data = make_train_data(40, 0.0, 1.0, 2);
    let mut km = KMeans::new(4, 50);
    km.fit(&train_data).unwrap();
    let centroids = km.get_mean_points();
    assert_eq!(centroids.cols(), 2);
    assert_eq!(km.get_dim(), 2);
    assert!(centroids.rows() >= 1);
    assert!(centroids.rows() <= 4);
}
