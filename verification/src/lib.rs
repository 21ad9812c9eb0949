//! Full-text inverted index over a corpus of short documents.
pub mod analyzer;
pub mod by_id;
pub mod chunker;
pub mod codec;
pub mod documents;
pub mod index;
pub mod indexers;
pub mod indexing;
pub mod parser;
pub mod pipeline;
pub mod search;
pub mod shared;
pub mod table;
pub mod text;
