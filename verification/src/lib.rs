//! Creative-affinity search over a catalog of works.
//!
//! Given one or more root works, the library classifies every credited
//! person's jobs into a weighted role taxonomy, hydrates full credit
//! records for each work, discovers candidate works through the roots'
//! stylistic personnel, and ranks the candidates by how much weighted
//! creative personnel they share with the roots.

pub mod compare;
pub mod loading;
pub mod search;
pub mod show_tree;
pub mod store;
pub mod strutil;

use vstd::prelude::*;

verus! {

/// A failure that ends a search, or one candidate's part in it.
pub enum SearchError {
    /// A supplied or derived work identifier has no matching row.
    WorkNotFound(u64),
    /// The store failed to answer a query; never retried.
    StoreUnavailable,
    /// An input identifier cannot be parsed into its numeric form;
    /// reported before any store access.
    MalformedIdentifier(String),
}

} // verus!
