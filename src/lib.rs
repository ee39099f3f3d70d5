//! An in-memory key-value server core: a codec for a line-delimited,
//! length-prefixed wire format, and a keyed store of lists.

pub mod text;
pub mod list;
pub mod resp;
