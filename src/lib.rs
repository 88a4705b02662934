//! A streaming, columnar data frame over CSV bytes: a quote-aware tokenizer,
//! a per-column word accumulator, sample-based type inference, typed columns
//! with rendering, sums, equality masks and distinct values, and a frame that
//! stitches chunks of a byte stream into one table.
pub mod csv_parser;
pub mod text;
pub mod parsed_bytes;
pub mod type_parser;
pub mod cells;
pub mod series;
pub mod column;
pub mod utils;
pub mod frame;
pub mod filter;
pub mod suggestion_tree;
pub mod laws;
pub mod command;

pub use parsed_bytes::{ParsedBytes, ParsedBytesIter};
