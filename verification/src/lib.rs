//! Incremental decoder for NMEA 0183 sentences arriving on a byte stream.
//!
//! A [`Context`] takes the stream one byte at a time and hands out a
//! [`Nmea0183Msg`] or an error whenever a sentence ends. A [`Nmea0183Codec`]
//! does the same over a buffer to which the transport appends what it receives,
//! and takes each sentence off the buffer as it ends.
//!
//! The modules `stream`, `sentence`, `framing` and `consistency` hold no code
//! that runs: they state and prove what the decoder does with whole streams.

pub mod buffer;
pub mod consistency;
pub mod context;
pub mod framing;
pub mod msg;
pub mod nmea0183_codec;
pub mod sentence;
pub mod state;
pub mod stream;
pub mod text;

pub use context::Context;
pub use msg::Nmea0183Msg;
pub use nmea0183_codec::Nmea0183Codec;
