pub mod bytes_util;
pub mod url;
pub mod pattern;
pub mod keywords;
pub mod rx;
pub mod request;
pub mod filter;
pub mod parser;
pub mod index;
pub mod engine;
pub mod laws;

pub use crate::engine::{FilterEngine, MatchResult};
pub use crate::request::MatchError;
