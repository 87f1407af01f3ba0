//! Splits an H.264 Annex-B byte stream into NAL units.
//!
//! The scanner is fed bytes in chunks of any size and keeps, between
//! chunks, only the not yet delimited tail of the stream and the length of
//! the current run of zero bytes. Every behaviour is stated over the
//! byte-level model in [`model`].

pub mod model;
pub mod nal_unit;
pub mod stream;

pub use nal_unit::H264NalUnit;
pub use stream::H264Stream;
