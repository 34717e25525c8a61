//! A persistent inverted index: words of documents mapped to the paths of
//! the documents that hold them, one record of lines per lower-cased word.
//!
//! The library decides what is read and written; reading files, walking
//! directories and appending lines to records is left to its caller.

mod index;
pub mod laws;
mod store;
mod strings;
mod tokenizer;

pub use index::{Document, WordPosting};
pub use store::{is_valid_name, Append, PersistentMultiMap, PostingError, TermRecord};
pub use tokenizer::{distinct_words, tokenize};
