//! The metrics engine: pure aggregations over the commit sequence.

pub mod coupling;
pub mod decay;
pub mod derived;
pub mod metrics;
pub mod ownership;
