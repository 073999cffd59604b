//! Decoding of Standard MIDI File byte streams into events and note
//! intervals.
//!
//! The modules, from the bytes up:
//!
//! - [`cursor`]: a reader over a byte source that counts what it consumes;
//! - [`vlq`]: variable-length quantities, in which delta times are written;
//! - [`event`] and [`decode`]: track events and their decoding, running
//!   status included;
//! - [`notes`]: the pairing of Note-On and Note-Off events of a track into
//!   note intervals;
//! - [`file`]: header and track chunks, and whole files.
//!
//! Each executable function comes with a specification function that says
//! what it computes on a sequence of bytes or events, and is proved to
//! compute just that on every input. Decoding fails with one of the three
//! [`error::MidiError`] values and never panics.

pub mod bits;
pub mod cursor;
pub mod decode;
pub mod error;
pub mod event;
pub mod file;
pub mod notes;
pub mod vlq;
