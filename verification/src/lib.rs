//! A reversible binary-to-text codec that writes every 10 bits of input as one
//! pictograph out of an alphabet of 1024 symbols: five bytes become four
//! symbols, and padding scalars close a last group of fewer than five bytes.
//!
//! [`emojis::Version`] holds the alphabet of one version. Its methods encode
//! bytes ([`encode`]) and decode them again ([`decode`]), with a second
//! alphabet to fall back to. [`chars`] turns scalars into UTF-8 and back, and
//! [`roundtrip`] proves that decoding undoes encoding.

pub mod chars;
pub mod decode;
pub mod emojis;
pub mod encode;
pub mod error;
pub mod roundtrip;
