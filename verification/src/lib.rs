//! The core of a forensic log viewer: parsers that make one timeline of many kinds
//! of logs, rules that tag its entries, and the sessions and cases it is kept in.
//!
//! Every function states in its contract what it returns, over the views of its
//! arguments. Files, databases and the network are left to the caller, who hands
//! in bytes, texts and rows and gets values back.

pub mod bytes;
pub mod digest;
pub mod documents;
pub mod double;
pub mod json;
pub mod model;
pub mod order;
pub mod parsers;
pub mod paths;
pub mod pattern;
pub mod plain_toml;
pub mod selection;
pub mod session;
pub mod stored;
pub mod tagging;
pub mod text;
pub mod text_laws;
pub mod time;
pub mod toml_doc;
pub mod toml_write;
pub mod value_laws;
