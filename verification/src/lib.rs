//! Hypergraph containment and maximum bipartite matching.
//!
//! The crate holds three pieces: an incidence-keyed hypergraph store, a
//! single-augmenting-path bipartite matching primitive (the building block
//! of Hopcroft–Karp), and a backtracking search that decides whether one
//! hypergraph's structure embeds into another.
pub mod containment;
pub mod generate;
pub mod hypergraph;
pub mod incidence;
pub mod matching;
pub mod parse;
pub mod vecs;


