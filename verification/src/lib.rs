//! An index for approximate nearest-neighbour search: a hierarchical graph of
//! small worlds over a store of vectors.
pub mod best_first;
pub mod bounded;
pub mod builder;
pub mod calls;
pub mod faiss;
pub mod graph;
pub mod growth;
pub mod insertion;
pub mod laws;
pub mod layer;
pub mod layer_search;
pub mod listing;
pub mod options;
pub mod search;
pub mod shape;
pub mod stats;
pub mod store;
pub mod trace;
pub mod vec_set;
pub mod vector;
pub mod walk;
pub mod wider;
