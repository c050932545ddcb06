//! Verified K-means clustering over fixed-point observations.
//!
//! Observations are rows of a [`matrix::Matrix`]: two-dimensional,
//! runtime-sized collections of bounded `i64` coordinates (a fixed-point
//! representation chosen by the caller). The engine in [`engine`] runs
//! Lloyd's iteration: it repeatedly recomputes cluster centroids as
//! column-wise means and reassigns every row to its nearest centroid,
//! until the assignment stabilises or an iteration budget is exhausted.
//! The model in [`model`] wraps the engine behind `fit` / `predict`.

pub mod engine;
pub mod matrix;
pub mod model;
