//! Incremental reading of a server-sent event stream: bytes arriving in
//! chunks are decoded to text without splitting a character, and the text is
//! read into events without splitting a line.
pub mod grammar;
pub mod parser;
pub mod utf8_stream;
