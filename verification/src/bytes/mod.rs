pub mod api;
pub mod matcher;
pub mod laws;
pub mod replace;

pub use api::{
    CaptureMatches, Captures, FindMatches, Match, Regex, RegexBuilder, Replacer, Split,
};
pub use crate::regex::api::CaptureNames;
pub use crate::regexset::bytes::{RegexSet, RegexSetBuilder, SetMatches, SetMatchesIter};
