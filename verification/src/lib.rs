//! Turns an opaque payload and a set of source files into a single program
//! text for a chosen target language.
//!
//! A per-language template is validated and split into five regions
//! ([`template`]); a corpus of templates becomes a closed, sorted language
//! enumeration ([`corpus`]); rendering splices an annotated source listing
//! and the compressed, base64-encoded payload into the regions ([`render`]).

pub mod corpus;
pub mod encode;
pub mod lang;
pub mod order;
pub mod render;
pub mod source;
pub mod template;
pub mod text;
