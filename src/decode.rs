//! The three stages of decoding: the fixed header, the chunk stream and the
//! replay of chunks into pixels.
pub mod chunk;
pub mod error;
pub mod header;
pub mod qoi;

pub use self::qoi::QOI;
