//! Finite partial orders, built one declared fact at a time.
//!
//! [`FinPartOrd`] is the contract of a representation. Two representations
//! meet it: [`PairPartOrd`] keeps the declared facts in a list and answers
//! a query by chasing them, [`DagPartOrd`] keeps them as the edges of a
//! directed acyclic graph and answers a query by searching it.
//!
//! The module `relation` says what order a set of facts denotes, `laws`
//! holds what is proved of every representation, and `graph` states what is
//! taken on trust from the graph library.

pub mod dag;
pub mod graph;
pub mod laws;
pub mod order;
pub mod pairs;
pub mod relation;

pub use dag::{CycleError, DagPartOrd};
pub use order::FinPartOrd;
pub use pairs::{AntisymmetryError, PairPartOrd};
