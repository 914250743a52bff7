//! Multi-pattern keyword search that reports each matching line together
//! with a fixed-radius window of surrounding context lines.

pub mod model;
pub mod matcher;
pub mod extractor;
pub mod laws;

pub use extractor::ContextExtractor;
pub use matcher::{ACMatcher, MatchError, MatchInfo};
