//! Plans and decisions of GPU-accelerated machine-learning operators.

pub mod bytes;
pub mod dbscan;
pub mod float;
pub mod gmm;
pub mod kmeans;
pub mod knn;
pub mod lasso;
pub mod lda;
pub mod least_squares;
pub mod linear_regression;
pub mod logistic_regression;
pub mod matrix;
pub mod metal;
pub mod naive_bayes;
pub mod nmf;
pub mod pca;
pub mod pipeline;
pub mod rng;
pub mod seeding;
pub mod select;
pub mod shape;
pub mod svm;
pub mod svr;
pub mod tally;
pub mod tsne;
pub mod union_find;
