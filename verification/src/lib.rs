//! Verified log-analysis engine: pattern matching, boundary-safe chunk
//! splitting, per-line extraction and filtering, and a deterministic merge
//! algebra over per-chunk aggregates.
use vstd::prelude::*;

pub mod accelerated;
pub mod analyzer;
pub mod cli;
pub mod counts;
pub mod driver;
pub mod extract;
pub mod laws;
pub mod parser;
pub mod text;

pub use analyzer::AnalysisResult;
pub use analyzer::LogAnalyzer;
pub use cli::Args;
pub use parser::LogFormat;
pub use parser::LogParser;
pub use parser::ParserRegistry;

verus! {

/// Maximum number of distinct matched lines kept for display.
pub const MAX_UNIQUE_LINES: usize = 10000;

} // verus!
