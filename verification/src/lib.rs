//! A streaming codec for a length-delimited binary frame protocol.
//!
//! The crate turns raw bytes, delivered in arbitrary chunks, into typed
//! frames and back.  [`frame`] holds the value model, [`codec`] the verified
//! encoder and decoder together with the laws they obey, and [`connection`]
//! the accumulation buffer that feeds the decoder one complete frame at a
//! time.  All I/O stays outside this crate: callers hand in the chunks a
//! transport produced and write out the bytes the encoder returns.

pub mod buffer;
pub mod codec;
pub mod connection;
pub mod frame;
