//! Optimal pairwise contraction order for a tensor network.
//!
//! Tensors are abstract: each is a list of labeled legs with integer
//! dimensions. Legs shared by two tensors are contracted; legs appearing on a
//! single tensor stay open. The library encodes tensors as bitmasks, searches
//! the lattice of contracted-leg subsets for the cheapest sequence of pairwise
//! contractions, and decodes the winning sequence back into leg labels.

pub mod bits;
pub mod network;
pub mod connectivity;
pub mod greedy;
pub mod table;
pub mod exhaustive;
pub mod decode;
pub mod encoder;
