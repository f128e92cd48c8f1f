//! An interleaved-dimension spatial tree: coordinate comparators, the node
//! model, the builder, local queries, merging and the byte layout.

pub mod coord;
pub mod tree;
pub mod query;
pub mod place;
pub mod range;
pub mod order;
pub mod span;
pub mod search;
pub mod setup;
pub mod shape;
pub mod pivots;
pub mod segment;
pub mod forest;
pub mod content;
pub mod cover;
pub mod split;
pub mod builder;
pub mod tree_file;
pub mod error;
pub mod remove;
pub mod delete;
pub mod merge;
pub mod stream;
pub mod sums;
pub mod wire;
pub mod codec;
pub mod laws;
pub mod layout;
pub mod links;
pub mod writer;
pub mod reader;
pub mod roundtrip;
pub mod bytes;
