//! The model: configuration and trained state behind `fit` / `predict`.

use vstd::prelude::*;

use crate::engine::{
    assign, dims_compatible, fit_clusters, get_labels, init_labels, lemma_assign_range,
    lemma_fit_labels_in_range, lemma_fit_labels_len, lemma_fit_predict_agree, lloyd_outcome,
    range_ok, ShapeMismatch,
};
use crate::matrix::Matrix;

verus! {

/// Why a prediction failed.
#[derive(Debug, PartialEq, Eq)]
pub enum PredictError {
    /// An internal array construction met inconsistent dimensions.
    ShapeError,
    /// The input's column count, carried here, differs from the trained
    /// dimensionality.
    DimNumError(usize),
}

/// A clustering model: fixed configuration, trained centroids, and the two
/// operations end users invoke. Implementations may differ in how `fit`
/// draws its initial labelling; `predict` is provided once for all of them.
pub trait KMeansModel: Sized {
    /// The model's internal consistency: established by `new`, kept by `fit`.
    spec fn inv(&self) -> bool;

    /// The configured cluster count.
    spec fn clusters(&self) -> int;

    /// The configured iteration budget.
    spec fn iter_cap(&self) -> int;

    /// The trained dimensionality: the column count of the most recent
    /// `fit`'s data, `0` before any `fit`.
    spec fn dim(&self) -> int;

    /// The trained centroid matrix, as rows of integer coordinates.
    spec fn centroids(&self) -> Seq<Seq<int>>;

    /// A fresh, untrained model with the given positive cluster count and
    /// positive iteration budget.
    fn new(n_clusters: usize, max_iter: usize) -> (m: Self)
        requires
            1 <= n_clusters,
            1 <= max_iter,
        ensures
            m.inv(),
            m.clusters() == n_clusters,
            m.iter_cap() == max_iter,
            m.dim() == 0,
            m.centroids() == Seq::<Seq<int>>::empty(),
    ;

    /// Trains on `x`: records `x`'s column count as the trained
    /// dimensionality, draws a fresh initial labelling with every label
    /// below the cluster count, runs Lloyd's iteration, stores the
    /// resulting centroid matrix, and returns the resulting labels — one
    /// per row, each a row index of the stored centroid matrix (zero when
    /// that matrix has no rows).
    fn fit(&mut self, x: &Matrix) -> (r: Result<Vec<usize>, ShapeMismatch>)
        requires
            old(self).inv(),
            x.wf(),
        ensures
            final(self).inv(),
            final(self).clusters() == old(self).clusters(),
            final(self).iter_cap() == old(self).iter_cap(),
            final(self).dim() == x.spec_cols(),
            final(self).centroids().len() <= old(self).clusters(),
            r is Ok,
            r->Ok_0@.len() == x@.len(),
            range_ok(r->Ok_0@, final(self).centroids()),
            r->Ok_0@ == assign(x@, final(self).centroids()),
            exists|init: Seq<usize>|
                #[trigger] lloyd_outcome(
                    x@,
                    init,
                    old(self).clusters(),
                    old(self).iter_cap() as nat,
                    r->Ok_0@,
                    final(self).centroids(),
                ),
    ;

    /// Labels each row of `x` with the index of the nearest stored
    /// centroid, lowest index first on exact ties. Fails with
    /// `DimNumError`, carrying `x`'s column count, exactly when that count
    /// differs from the trained dimensionality; the model itself is never
    /// changed. Given fixed centroids the result is a function of `x`
    /// alone, so repeated calls return identical labels.
    fn predict(&mut self, x: &Matrix) -> (r: Result<Vec<usize>, PredictError>)
        requires
            old(self).inv(),
            x.wf(),
        ensures
            *final(self) == *old(self),
            x.spec_cols() != old(self).dim() ==> r == Err::<Vec<usize>, PredictError>(
                PredictError::DimNumError(x.spec_cols() as usize),
            ),
            x.spec_cols() == old(self).dim() ==> {
                &&& r is Ok
                &&& r->Ok_0@ == assign(x@, old(self).centroids())
                &&& r->Ok_0@.len() == x@.len()
                &&& range_ok(r->Ok_0@, old(self).centroids())
            },
    {
        if self.get_dim() != x.cols() {
            return Err(PredictError::DimNumError(x.cols()));
        }
        let mean_points = self.get_mean_points();
        let n_c = mean_points.rows();
        match get_labels(x, &mean_points) {
            Ok(r) => {
                proof {
                    assert(mean_points@.len() == n_c as int);
                    lemma_assign_range(x@, mean_points@);
                }
                Ok(r)
            },
            Err(_) => {
                proof {
                    assert(dims_compatible(*x, mean_points));
                    assert(false);
                }
                Err(PredictError::ShapeError)
            },
        }
    }

    /// The trained dimensionality.
    fn get_dim(&self) -> (d: usize)
        requires
            self.inv(),
        ensures
            d == self.dim(),
    ;

    /// A copy of the trained centroid matrix; the model's own copy cannot
    /// be reached, let alone changed, through the returned value.
    fn get_mean_points(&self) -> (m: Matrix)
        requires
            self.inv(),
        ensures
            m@ == self.centroids(),
            m.wf(),
            m.spec_cols() == self.dim(),
    ;
}

/// The standard model: uniform random initial labelling.
pub struct KMeans {
    n_clusters: usize,
    max_iter: usize,
    dim: usize,
    mean_points: Matrix,
}

impl KMeansModel for KMeans {
    closed spec fn inv(&self) -> bool {
        &&& 1 <= self.n_clusters
        &&& 1 <= self.max_iter
        &&& self.mean_points.wf()
        &&& self.mean_points.spec_cols() == self.dim
        &&& self.mean_points@.len() <= self.n_clusters
    }

    closed spec fn clusters(&self) -> int {
        self.n_clusters as int
    }

    closed spec fn iter_cap(&self) -> int {
        self.max_iter as int
    }

    closed spec fn dim(&self) -> int {
        self.dim as int
    }

    closed spec fn centroids(&self) -> Seq<Seq<int>> {
        self.mean_points@
    }

    fn new(n_clusters: usize, max_iter: usize) -> (m: Self) {
        KMeans { n_clusters, max_iter, dim: 0, mean_points: Matrix::empty(0) }
    }

    fn fit(&mut self, x: &Matrix) -> (r: Result<Vec<usize>, ShapeMismatch>) {
        let init = init_labels(x, self.n_clusters);
        let ghost init0 = init@;
        match fit_clusters(x, init, self.n_clusters, self.max_iter) {
            Ok(res) => {
                let (labels, cents, _passes) = res;
                self.dim = x.cols();
                self.mean_points = cents;
                proof {
                    let k = self.n_clusters as int;
                    let cap = self.max_iter as nat;
                    lemma_fit_labels_len(x@, init0, k, cap);
                    lemma_fit_labels_in_range(x@, init0, k, cap);
                    lemma_fit_predict_agree(x@, init0, k, cap);
                    assert(self.iter_cap() as nat == cap);
                    assert(lloyd_outcome(x@, init0, self.clusters(), self.iter_cap() as nat,
                        labels@, self.centroids()));
                    assert(exists|init: Seq<usize>|
                        #[trigger] lloyd_outcome(x@, init, self.clusters(),
                            self.iter_cap() as nat, labels@, self.centroids()));
                }
                Ok(labels)
            },
            Err(e) => {
                proof {
                    assert(false);
                }
                Err(e)
            },
        }
    }

    fn get_dim(&self) -> (d: usize) {
        self.dim
    }

    fn get_mean_points(&self) -> (m: Matrix) {
        self.mean_points.clone_matrix()
    }
}

} // verus!
