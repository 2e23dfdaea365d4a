mod unicode;
mod text;
mod grammar;
pub mod ast;
pub mod error;
pub mod matcher;
pub mod parser;
pub mod regex;
pub mod bytes;
pub mod regexset;

pub use error::Error;
pub use regex::api::{
    CaptureMatches, CaptureNames, Captures, FindMatches, Match, Regex, RegexBuilder, Replacer,
    Split,
};
pub use regexset::string::{RegexSet, RegexSetBuilder, SetMatches, SetMatchesIter};
