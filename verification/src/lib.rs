//! Fraud scoring of card transactions by nearest-neighbour search.

use vstd::prelude::*;

pub mod agree;
pub mod bytes;
pub mod clock;
pub mod clusters;
pub mod complete;
pub mod dataset;
pub mod encode;
pub mod eval;
pub mod exact;
pub mod http;
pub mod ivf;
pub mod json;
pub mod kmeans;
pub mod knn;
pub mod layout;
pub mod lb;
pub mod listed;
pub mod members;
pub mod partitions;
pub mod render;
pub mod responses;
pub mod server;
pub mod tree;
pub mod vectorizer;
pub mod wire;
pub mod write;

verus! {

/// Number of features in a transaction vector.
pub const DIM: usize = 14;

} // verus!
