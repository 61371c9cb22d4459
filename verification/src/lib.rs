//! Storage core of a small relational database: a paged file image, a table
//! catalog with slotted row pages, and B+-tree indexes over column values.
//!
//! Every proof runs in a prover of its own, so that none depends on what was
//! proved before it.

pub mod layout;
pub mod schema;
pub mod error;
pub mod meta;
pub mod table;
pub mod data;
pub mod key;
pub mod node;
pub mod shape;
pub mod db;
pub mod frames;
pub mod heap;
pub mod catalog;
pub mod plan;
pub mod create;
pub mod release;
pub mod drop;
pub mod search;
pub mod tree;
pub mod scan;
pub mod insert;
pub mod split;
pub mod grow;
pub mod cap;
pub mod laws;
pub mod delete;
pub mod shift;
pub mod merge;
pub mod shrink;
pub mod remove;
