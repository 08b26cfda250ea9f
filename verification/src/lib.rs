//! An order book and the ordered index that is to carry its prices.
//!
//! The index is a search tree over 32-bit keys whose nodes are blocks of one
//! flat arena: `node` holds the work within one block (rank, insertion,
//! split), `tree` the index itself. The proofs of the index read the arena as
//! a tree in `shape`, follow a key down and a split up in `route`, and count
//! the leaves in `census`.
//!
//! `book` holds the book, orders queued by price, and `feed` the reader of
//! the commands that change it.

pub mod book;
pub mod census;
pub mod feed;
pub mod node;
pub mod route;
pub mod shape;
pub mod tree;
