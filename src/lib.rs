//! A small geocoding client library.
//!
//! This crate holds the table-driven percent encoder used to build query
//! strings (`url_encoder`), the table it reads (`table`), the escape-code
//! formatting (`hex`), character helpers (`text`), and the records of
//! geocoding results with the rules applied to them (`location`).

pub mod hex;
pub mod location;
pub mod table;
pub mod text;
pub mod url_encoder;

pub use location::{filter_named, search_url, Address, Location};
pub use table::EncodingTable;
pub use url_encoder::{encode_str, table_from_text, EncodeError};
