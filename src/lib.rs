//! Converts a directory of still images into one PDF document, one image per
//! page, in an order derived from the numbers in the file names.

pub mod codec;
pub mod converter;
pub mod decoded;
pub mod document;
pub mod error;
pub mod pdf_writer_api;
pub mod sequencer;
pub mod sort_key;
