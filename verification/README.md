# egui_clap_host

The logic of a small multi-track host for CLAP and VST3 plugins, written in Rust
and verified with Verus: a lane-based sequence editor with undo, exchange with
MIDI files, project files, the list of plugins and its scan, the framing of Opus
files, and the bookkeeping behind the level meters.

- `src/` is the library. Everything in it has a contract, and the proof functions
  in it state what holds of several operations together.
- `tests/` runs the library, with the outside crates that it calls.
- `app/` is the program around it: the window, the files, and the plugins. It
  converts between floating-point numbers and the library's units.

## Units

- A position or length in time is a whole number of ticks, 33600 to a quarter
  note. All grid widths and tuplets divide it without a remainder.
- A length on the screen is a whole number of subpixels, 1024 to a pixel.
- Amplitudes and ratios are carried as the bit patterns of floating-point numbers.

## What is trusted

Calls into other crates stand behind small functions whose contracts are stated
and not proved. Each has a comment that names the call and says what is claimed of
it. They are in `smf.rs` (midly), `opus.rs` (ogg), `project.rs` (base64),
`library.rs`, `params.rs` and `text.rs` (the standard library).
