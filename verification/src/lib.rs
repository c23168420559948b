//! Bounded, read-only access to PDF documents through their cross-reference index.

pub mod lex;
pub mod framer;
pub mod object;
pub mod parser;
pub mod errors;
pub mod streams;
pub mod source;
pub mod options;
pub mod framing;
pub mod locations;
pub mod ascii;
pub mod filters;
pub mod text;
pub mod xref;
pub mod open;
pub mod recovery;
pub mod object_stream;
pub mod security;
pub mod resolve;
pub mod reader;
pub mod batch;
pub mod page_content;
pub mod page_map;
pub mod cache;
pub mod memory;
pub mod message;
pub mod writer;
pub mod content;
pub mod cmap;
pub mod budget;
pub mod predictor;
pub mod preflight;
pub mod shared;
pub mod bounded_cache;
pub mod stats;
pub mod laws;
