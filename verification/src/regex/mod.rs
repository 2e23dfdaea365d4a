pub mod agree;
pub mod api;
pub mod arch;
pub mod fast;
pub mod laws;
pub mod replace;
pub mod slots;

pub use crate::regexset::string::{RegexSet, RegexSetBuilder, SetMatches, SetMatchesIter};
pub use api::{
    CaptureMatches, CaptureNames, Captures, FindMatches, Match, Regex, RegexBuilder, Replacer,
    Split,
};
