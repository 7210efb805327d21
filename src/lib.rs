//! Word-embedding tables and the pairwise computations over them: a full
//! distance matrix and a thresholded relatedness graph.
//!
//! The library is generic over the coordinate type and over the distance
//! computation, which callers hand in as closures.
pub mod network;
pub mod table;
