//! A skip list: a probabilistic ordered map from totally ordered keys to
//! values, with point lookup, upsert and a size query.
//!
//! Nodes live in an arena and refer to each other by index; every node owns
//! a tower of forward links sized to its randomly drawn height.

pub mod order;
pub mod level;
pub mod list;
pub mod laws;

pub use crate::level::{rand_lvl, MAX_LEVEL};
pub use crate::list::{Node, SkipList};
pub use crate::order::OrderedKey;
