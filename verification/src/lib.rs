//! Decoding of bencoded metainfo documents.
//!
//! A document is decoded in two steps. The decoder turns a byte buffer into a
//! tree of values and records, for every dictionary, the span of the buffer
//! that it was read from. The mapping step reads the named fields of the tree
//! into a [`bencode::Torrent`] and hashes the bytes of the `info` dictionary
//! exactly as they stand in the buffer.
//!
//! Every executable function carries a contract over a mathematical model of
//! the data:
//!
//! - [`value`] holds the tree of values and its model,
//! - [`syntax`] the grammar of bencode,
//! - [`decoder`] the decoder, which is proved to follow the grammar,
//! - [`schema`] the meaning of the fields of a document,
//! - [`bencode`] the torrents and the functions that read them,
//! - [`text`] and [`digest`] what is needed of UTF-8 and SHA-1,
//! - [`error`] the errors,
//! - [`locality`], [`encoding`] and [`laws`] what is proved of every value and
//!   of every document.

pub mod error;
pub mod value;
pub mod syntax;
pub mod decoder;
pub mod digest;
pub mod text;
pub mod schema;
pub mod bencode;
pub mod locality;
pub mod encoding;
pub mod laws;
