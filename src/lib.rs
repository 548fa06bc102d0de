//! Scans lines of text against a nested set of named regular expressions and
//! reports, per pattern, either the number of matching lines or a frequency
//! table of the matched texts, keeping the nesting of the pattern groups.
pub mod config;
pub mod counter;
pub mod group;
pub mod matcher;
pub mod number;
pub mod pattern;

pub use crate::group::GroupTree;
pub use crate::pattern::{Analyzer, Pattern};
pub use crate::counter::PatternCounter;
pub use crate::matcher::PatternMatcher;
