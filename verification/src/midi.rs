//! Exchange of sequences with Standard MIDI files.
//!
//! A lane is not something that a MIDI file knows. Every lane is written as a
//! track of its own whose name tells which lane of which track it was, so that
//! reading the file back puts everything where it came from.

pub mod content;
pub mod export;
pub mod import;
pub mod layout;
pub mod names;
pub mod roundtrip;

pub use export::to_bytes;
pub use import::{from_bytes, Imported};
