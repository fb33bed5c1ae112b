//! What is written and drawn on the grid besides the notes.


use crate::sequencer::{EditorView, LaneKind, MidiEditor, Note};
use crate::state::EditorState;
use crate::text::{decimal, decimal_text, signed_decimal, signed_text};
use vstd::prelude::*;
use vstd::string::StringExecFns;

verus! {

/// A value held to the range of MIDI.
pub open spec fn midi_value(value: u8) -> u8 {
    if value > 127 {
        127
    } else {
        value
    }
}

/// What is written on a note: its step and octave. On control lanes these say
/// nothing, and the value is written instead, on a ramp with both ends.
pub open spec fn label_of(note: Note, kind: LaneKind) -> Seq<char> {
    match kind {
        LaneKind::Cc(number) => "CC"@ + decimal(number as nat) + "="@ + decimal(
            midi_value(note.velocity) as nat,
        ),
        LaneKind::Velocity => {
            if note.velocity == note.velocity_to {
                "V "@ + decimal(midi_value(note.velocity) as nat)
            } else {
                "V "@ + decimal(midi_value(note.velocity) as nat) + "→"@ + decimal(
                    midi_value(note.velocity_to) as nat,
                )
            }
        },
        LaneKind::Note => "("@ + signed_decimal(note.semitone as int) + ","@ + signed_decimal(
            note.octave as int,
        ) + ")"@,
    }
}

fn value_text(value: u8) -> (text: String)
    ensures
        text@ == decimal(midi_value(value) as nat),
{
    decimal_text(
        if value > 127 {
            127
        } else {
            value as u64
        },
    )
}

/// What is written on a note.
pub fn note_label(note: &Note, kind: LaneKind) -> (label: String)
    ensures
        label@ == label_of(*note, kind),
{
    match kind {
        LaneKind::Cc(number) => {
            let mut label = String::from_str("CC");
            label.append(decimal_text(number as u64).as_str());
            label.append("=");
            label.append(value_text(note.velocity).as_str());
            label
        },
        LaneKind::Velocity => {
            let mut label = String::from_str("V ");
            label.append(value_text(note.velocity).as_str());
            if note.velocity != note.velocity_to {
                label.append("→");
                label.append(value_text(note.velocity_to).as_str());
            }
            label
        },
        LaneKind::Note => {
            let mut label = String::from_str("(");
            label.append(signed_text(note.semitone as i64).as_str());
            label.append(",");
            label.append(signed_text(note.octave as i64).as_str());
            label.append(")");
            label
        },
    }
}

/// A line across the lanes at a beat. At a bar it has the bar's number.
#[derive(Clone, Copy, PartialEq, Eq, Structural, Debug)]
pub struct BeatLine {
    pub tick: i64,
    pub bar: Option<i64>,
}

impl EditorView {
    /// The beats in a bar; at least one.
    pub open spec fn bar_beats(self) -> int {
        if self.beats == 0 {
            1
        } else {
            self.beats as int
        }
    }

    /// The line at a beat, counted from 0. Bars are counted from 1.
    pub open spec fn beat_line(self, beat: int) -> BeatLine {
        BeatLine {
            tick: (beat * self.beat()) as i64,
            bar: if beat % self.bar_beats() == 0 {
                Some((beat / self.bar_beats() + 1) as i64)
            } else {
                None
            },
        }
    }
}

impl MidiEditor {
    /// The lines at all beats up to the end of what is shown.
    pub fn beat_lines(&self) -> (lines: Vec<BeatLine>)
        requires
            self@.beat() > 1,
        ensures
            lines@.len() == self@.shown() as int / self@.beat() + 1,
            forall|k: int| 0 <= k < lines@.len() ==> #[trigger] lines@[k] == self@.beat_line(k),
    {
        let beat: i64 = self.ticks_per_beat();
        let end: i64 = self.shown_length();
        let beats: i64 = if self.beats == 0 {
            1
        } else {
            self.beats as i64
        };
        let ghost bar = self@.bar();
        proof {
            assert(bar >= 0) by (nonlinear_arith)
                requires
                    bar == beat * beats,
                    beat > 0,
                    beats >= 1,
            ;
            assert(end >= 0) by {
                if self@.whole_bars() + 2 * bar < 8 * bar {
                } else {
                    assert(self@.whole_bars() + 2 * bar >= 0);
                }
            }
        }
        let count: i64 = end / beat;
        proof {
            assert(count * beat <= end && 0 <= 2 * count <= end) by (nonlinear_arith)
                requires
                    count == end as int / beat as int,
                    end >= 0,
                    beat > 1,
            ;
        }
        let mut lines: Vec<BeatLine> = Vec::new();
        let mut at: i64 = 0;
        while at <= count
            invariant
                0 <= at <= count + 1,
                count < i64::MAX,
                count * beat <= end,
                beat == self@.beat(),
                beat > 0,
                beats == self@.bar_beats(),
                beats >= 1,
                lines@.len() == at,
                forall|k: int| 0 <= k < at ==> #[trigger] lines@[k] == self@.beat_line(k),
            decreases count + 1 - at,
        {
            proof {
                assert(0 <= at * beat <= end) by (nonlinear_arith)
                    requires
                        0 <= at <= count,
                        count * beat <= end,
                        beat > 0,
                ;
                assert(0 <= at as int / beats as int <= at) by (nonlinear_arith)
                    requires
                        at >= 0,
                        beats >= 1,
                ;
            }
            let bar: Option<i64> = if at % beats == 0 {
                Some(at / beats + 1)
            } else {
                None
            };
            lines.push(BeatLine { tick: at * beat, bar });
            at += 1;
        }
        lines
    }
}

impl EditorState {
    /// The helping lines of a tuplet up to the end of what is shown, where they
    /// are far enough apart, at least six pixels.
    pub fn tuplet_lines(&self) -> (ticks: Vec<i64>)
        requires
            self@.is_laid_out(),
        ensures
            ({
                let unit = self@.grid();
                if self@.tuplet > 1 && unit > 0 && unit * self@.ppq >= 6 * 1024 * 33600 {
                    &&& ticks@.len() == (if self@.editor.shown() < 0 {
                        0
                    } else {
                        self@.editor.shown() as int / unit
                    })
                    &&& forall|k: int|
                        0 <= k < ticks@.len() ==> #[trigger] ticks@[k] == (k + 1) * unit
                } else {
                    ticks@.len() == 0
                }
            }),
    {
        let unit: i64 = self.snap_unit();
        let mut ticks: Vec<i64> = Vec::new();
        proof {
            let ppq = self.ppq;
            assert(-0x4000_0000_0000_0000_0000_0000 <= unit * ppq
                <= 0x4000_0000_0000_0000_0000_0000) by (nonlinear_arith)
                requires
                    -0x8000_0000_0000_0000 <= unit <= 0x8000_0000_0000_0000,
                    -0x8000_0000 <= ppq <= 0x8000_0000,
            ;
        }
        if self.tuplet <= 1 || unit <= 0 || (unit as i128 * self.ppq as i128) < 206438400 {
            return ticks;
        }
        let end: i64 = self.editor.shown_length();
        if end < 0 {
            return ticks;
        }
        let count: i64 = end / unit;
        proof {
            assert(count * unit <= end && 0 <= count <= end) by (nonlinear_arith)
                requires
                    count == end as int / unit as int,
                    end >= 0,
                    unit > 0,
            ;
        }
        let mut at: i64 = 0;
        while at < count
            invariant
                0 <= at <= count,
                count * unit <= end,
                unit == self@.grid(),
                unit > 0,
                ticks@.len() == at,
                forall|k: int| 0 <= k < at ==> #[trigger] ticks@[k] == (k + 1) * unit,
            decreases count - at,
        {
            proof {
                assert(0 <= (at + 1) * unit <= end) by (nonlinear_arith)
                    requires
                        0 <= at < count,
                        count * unit <= end,
                        unit > 0,
                ;
            }
            ticks.push((at + 1) * unit);
            at += 1;
        }
        ticks
    }
}

/// Whether a position can be seen: between the edges, and not too near to the
/// right one.
pub fn is_in_view(left: i64, right: i64, x: i64) -> (yes: bool)
    ensures
        yes == (left <= x <= right - 40960),
{
    left <= x && x as i128 <= right as i128 - 40960
}

/// The lines of the beats are one beat apart, from the start on. Those at which a
/// bar begins have its number: the first bar is 1, and every bar is one more than
/// the one before.
pub proof fn bars_are_numbered_from_one(editor: EditorView, bar: int, beat: int)
    requires
        editor.beats > 0,
        0 <= bar,
        0 <= beat < editor.beats,
        (bar * editor.beats + beat) * editor.beat() <= i64::MAX,
        0 <= editor.beat(),
        bar < i64::MAX,
    ensures
        ({
            let line = editor.beat_line(bar * editor.beats + beat);
            &&& line.tick == bar * editor.bar() + beat * editor.beat()
            &&& beat == 0 ==> line.bar == Some((bar + 1) as i64)
            &&& beat > 0 ==> line.bar is None
        }),
{
    let beats = editor.beats as int;
    let width = editor.beat();
    let at = bar * beats + beat;
    assert(at * width == bar * (width * beats) + beat * width) by (nonlinear_arith)
        requires
            at == bar * beats + beat,
    ;
    assert(at * width >= 0) by (nonlinear_arith)
        requires
            at == bar * beats + beat,
            bar >= 0,
            beats > 0,
            beat >= 0,
            width >= 0,
    ;
    assert(beats * bar == bar * beats) by (nonlinear_arith);
    vstd::arithmetic::div_mod::lemma_fundamental_div_mod_converse(at, beats, bar, beat);
}

/// A label says what stands on the lane: the step and the octave of a note, the
/// number and the value of a controller, and the velocity, or both ends of a
/// ramp. Values are those of MIDI.
pub proof fn a_label_says_what_the_note_is(note: Note, number: u8)
    requires
        note.velocity <= 127,
        note.velocity_to <= 127,
    ensures
        label_of(note, LaneKind::Note) == "("@ + signed_decimal(note.semitone as int) + ","@
            + signed_decimal(note.octave as int) + ")"@,
        label_of(note, LaneKind::Cc(number)) == "CC"@ + decimal(number as nat) + "="@ + decimal(
            note.velocity as nat,
        ),
        note.velocity == note.velocity_to ==> label_of(note, LaneKind::Velocity) == "V "@ + decimal(
            note.velocity as nat,
        ),
        note.velocity != note.velocity_to ==> label_of(note, LaneKind::Velocity) == "V "@ + decimal(
            note.velocity as nat,
        ) + "→"@ + decimal(note.velocity_to as nat),
{
}

} // verus!
