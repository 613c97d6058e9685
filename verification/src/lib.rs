//! A single-file container format that bundles named byte streams into one
//! seekable archive, with an encoder and an indexed random-access decoder.
//!
//! [`Encoder`] collects named members and writes header, file table and
//! member data in one pass. [`Decoder`] validates the header, builds an index
//! from the file table and extracts members by name. [`layout`] holds the
//! shape of the format that both share, and [`roundtrip`] the theorems that
//! tie writing to reading.

pub mod decoder;
pub mod encoder;
pub mod error;
pub mod layout;
pub mod roundtrip;

pub use decoder::Decoder;
pub use encoder::{BufferInfo, Encoder};
pub use error::ErrorKind;
