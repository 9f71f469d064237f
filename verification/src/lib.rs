//! An undirected weighted match graph: entity names are interned into dense
//! integer ids, repeated pairings aggregate into a single weighted edge, and
//! two analyses run over the finished graph: a two-pass weighted depth-first
//! search that approximates the most mutually isolated entities, and simple
//! degree statistics.

use vstd::prelude::*;

pub mod isolatedteams;
pub mod matchtree;

verus! {

/// Errors surfaced by graph construction and the analyses over it.
#[derive(Clone, Copy, Debug, PartialEq, Eq, Structural)]
pub enum AnalysisError {
    /// An input record is missing one of its two entity names, or a name is empty.
    MalformedRecord,
    /// An analysis was asked of a graph with no nodes.
    EmptyGraph,
}

} // verus!
