//! The streaming core of a live WebM relay: an EBML codec, a WebM schema, an
//! event source over a rolling buffer, a chunker, timecode and starting-point
//! fixers, a lossy broadcast channel and a pacing throttle.
pub mod ebml;
pub mod webm;
pub mod chunk;
pub mod error;
pub mod fixers;
pub mod stream_parser;
pub mod channel;
pub mod throttle;
