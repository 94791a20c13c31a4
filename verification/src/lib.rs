//! Collects the files under a path and encodes them as one document in
//! JSON, plain text, XML, YAML or CSV.

pub mod base64;
pub mod cli;
pub mod decode;
pub mod formatter;
pub mod json;
pub mod parse;
pub mod reader;
pub mod text;
pub mod types;
pub mod writer;
