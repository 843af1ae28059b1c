//! A read-only query engine over the page format of an embedded SQL database
//! file.  The file is handed in as a byte buffer; every layer above the bytes
//! (varint codec, record and page decoding, B-tree traversal, catalog, query
//! execution) is verified against spec-level decoders over `Seq<u8>`.

pub mod db;
pub mod error;
pub mod text;
pub mod page;
pub mod query;
pub mod util;
