//! A batch integrity and extraction pipeline for XML invoice documents.
//!
//! Each connecting client triggers one batch over a watched directory: every
//! regular `.xml` file is hashed, its `totalAmount` is taken from the
//! document, and the results are sent as one message. Only the files named in
//! a message that was delivered leave the directory.
//!
//! - `hash_calculator`: SHA-256 content hashes, streamed or in one piece.
//! - `extractor`: the total amount of an invoice document.
//! - `processing_result`: the mapping from file name to `hash|amount`.
//! - `file_handler`: which entries are candidates, what a batch records, and
//!   which files a delivery removes.
//! - `server`: the guard around the pipeline, the states of a connection,
//!   and the encoded response.
//!
//! The library works on plain values. Reading directories, files and sockets
//! is left to the program around it.

pub mod extractor;
pub mod file_handler;
pub mod hash_calculator;
pub mod processing_result;
pub mod server;
