//! What the operations of the library are for, stated over their inputs and results.

pub mod recovery;
pub mod cmap;
pub mod page_map;
pub mod syntax;
pub mod filters;
pub mod xref;
pub mod object_stream;
pub mod resolve;
pub mod page_content;
pub mod cache;
pub mod security;
pub mod content;
pub mod lexical;
pub mod dictionary;
pub mod access;
pub mod streams;
pub mod allowance;
pub mod framer;
pub mod framing;
pub mod figures;
pub mod truncation;
pub mod weights;
pub mod limits;
pub mod failures;
