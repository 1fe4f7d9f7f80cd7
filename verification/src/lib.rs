//! Mining of version-control history: per-file ownership, co-change
//! coupling, and knowledge-decay scores, computed as pure, verified
//! aggregations over an in-memory sequence of commit records.

pub mod analysis;
pub mod cli;
pub mod order;
pub mod repo;
pub mod strmap;

pub use order::lex_lt;
pub use order::lex_leq;
