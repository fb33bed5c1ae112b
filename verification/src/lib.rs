//! The logic of a small CLAP / VST3 host with a lane-based sequence editor:
//! the sequence model and its editing operations, undo history, MIDI file
//! exchange, project files, the plugin library and its scan, Opus framing, and
//! the bookkeeping behind the level meters.
//!
//! Positions and lengths of notes are whole ticks, [`time::TICKS_PER_QUARTER`]
//! to a quarter note. Drawing, audio and file access live outside this crate.

pub mod bars;
pub mod canvas;
pub mod edit;
pub mod geometry;
pub mod gestures;
pub mod gutter;
pub mod history;
pub mod labels;
pub mod lanes;
pub mod launch;
pub mod levels;
pub mod library;
pub mod meter;
pub mod metrics;
pub mod midi;
pub mod opus;
pub mod params;
pub mod paths;
pub mod playback;
pub mod project;
pub mod scan;
pub mod sequencer;
pub mod shortcuts;
pub mod smf;
pub mod sorting;
pub mod state;
pub mod swap;
pub mod text;
pub mod time;
pub mod toolbar;
pub mod window;
pub mod zoom;
