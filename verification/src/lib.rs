//! Decoder for Standard MIDI Files (SMF): a byte-stream cursor, primitive
//! big-endian and variable-length-quantity readers, and the event, track and
//! file decoders built on them.
//!
//! Every decoding function states exactly which inputs it accepts and what it
//! returns, over spec-level decoders on plain byte sequences.

pub mod cursor;
pub mod errors;
pub mod event;
pub mod midifile;
pub mod track;
pub mod utils;
