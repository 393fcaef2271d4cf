pub mod canon;
pub mod json;
pub mod liveness;
pub mod parse;
pub mod stats;
pub mod strutil;
pub mod utils;
pub mod walker;
