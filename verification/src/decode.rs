//! The decoding rules of the formats, and the laws that tie them to the
//! encoder: what a document says of each file is what the encoder was
//! given. The library itself never decodes; the rules are stated to say
//! what its documents mean.

pub mod csv;
pub mod json;
pub mod text;
pub mod xml;
pub mod yaml;
