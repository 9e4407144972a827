//! Decoder for the QOI image format: header, chunk stream and pixel
//! reconstruction, each with a contract stated over byte sequences.
pub mod decode;
