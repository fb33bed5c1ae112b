//! The toolbar: tempo, time signature, scale, grid, and the details of the
//! selected note.

use crate::edit::{clamped_semitone, is_beat_type, within};
use crate::history::{EditGroup, HistoryView};
use crate::playback::EditorCommand;
use crate::sequencer::{EditorView, Note, ScaleMode};
use crate::state::{EditorState, NoteDefaults, StateView, MAX_OCTAVE, MIN_OCTAVE};
use crate::text::decimal;
use vstd::prelude::*;

verus! {

/// The name of a tuplet mode.
pub open spec fn tuplet_name(tuplet: u32) -> Seq<char> {
    match tuplet {
        3 => "3連符"@,
        4 => "4連符"@,
        5 => "5連符"@,
        6 => "6連符"@,
        7 => "7連符"@,
        _ => "オフ"@,
    }
}

/// The name of a tuplet mode.
pub fn tuplet_label(tuplet: u32) -> (label: &'static str)
    ensures
        label@ == tuplet_name(tuplet),
{
    match tuplet {
        3 => "3連符",
        4 => "4連符",
        5 => "5連符",
        6 => "6連符",
        7 => "7連符",
        _ => "オフ",
    }
}

/// The name of a grid width: that of the longest note that fits into it.
pub open spec fn snap_name(snap: i64) -> Seq<char> {
    if snap >= 134400 {
        "1/1"@
    } else if snap >= 67200 {
        "1/2"@
    } else if snap >= 33600 {
        "1/4"@
    } else if snap >= 16800 {
        "1/8"@
    } else if snap >= 8400 {
        "1/16"@
    } else {
        "1/32"@
    }
}

/// The name of a grid width.
pub fn snap_label(snap: i64) -> (label: &'static str)
    ensures
        label@ == snap_name(snap),
{
    if snap >= 134400 {
        "1/1"
    } else if snap >= 67200 {
        "1/2"
    } else if snap >= 33600 {
        "1/4"
    } else if snap >= 16800 {
        "1/8"
    } else if snap >= 8400 {
        "1/16"
    } else {
        "1/32"
    }
}

/// Whether swing has an effect: in quarters only.
pub fn swing_applies(beat_type: u32) -> (yes: bool)
    ensures
        yes == (beat_type == 4),
{
    beat_type == 4
}

/// Whether uneven beats have an effect: in an odd number of quarters, from
/// three on.
pub fn waltz_applies(beats: u32, beat_type: u32) -> (yes: bool)
    ensures
        yes == (beat_type == 4 && beats >= 3 && beats % 2 == 1),
{
    beat_type == 4 && beats >= 3 && beats % 2 == 1
}

/// Notes with no step above the scale's last.
pub open spec fn lowered_to_scale(notes: Seq<Note>, scale: ScaleMode) -> Seq<Note> {
    Seq::new(
        notes.len(),
        |i: int| Note { semitone: lowered(notes[i].semitone, scale), ..notes[i] },
    )
}

/// A step, or the scale's last one where it is above that.
pub open spec fn lowered(semitone: i32, scale: ScaleMode) -> i32 {
    if semitone > scale.steps() - 1 {
        (scale.steps() - 1) as i32
    } else {
        semitone
    }
}

/// A part of a note that can be changed by itself.
#[derive(Clone, Copy, PartialEq, Eq, Structural, Debug)]
pub enum Detail {
    Semitone(i32),
    Octave(i32),
    Velocity(u8),
}

impl Detail {
    /// The kind of change that it is.
    pub open spec fn group(self) -> EditGroup {
        match self {
            Detail::Semitone(_) => EditGroup::Semitone,
            Detail::Octave(_) => EditGroup::Octave,
            Detail::Velocity(_) => EditGroup::Velocity,
        }
    }

    /// A note with the part changed, inside of its limits.
    pub open spec fn put_into(self, note: Note, scale: ScaleMode) -> Note {
        match self {
            Detail::Semitone(semitone) => Note {
                semitone: clamped_semitone(semitone, scale),
                ..note
            },
            Detail::Octave(octave) => Note {
                octave: if octave < MIN_OCTAVE {
                    MIN_OCTAVE
                } else if octave > MAX_OCTAVE {
                    MAX_OCTAVE
                } else {
                    octave
                },
                ..note
            },
            Detail::Velocity(velocity) => Note {
                velocity: if velocity < 1 {
                    1
                } else if velocity > 127 {
                    127
                } else {
                    velocity
                },
                ..note
            },
        }
    }
}

/// What the toolbar shows of the selection.
#[derive(Clone, Copy, PartialEq, Eq, Structural, Debug)]
pub enum Shown {
    /// The details of one note.
    Note(usize),
    /// How many notes are selected.
    Many(usize),
    /// Nothing.
    Nothing,
}

impl StateView {
    /// After a change of the scale. No note keeps a step that it does not have.
    pub open spec fn rescaled(self, scale: ScaleMode) -> StateView {
        if scale == self.editor.scale {
            self
        } else {
            StateView {
                dirty: true,
                editor: EditorView {
                    scale,
                    notes: lowered_to_scale(self.editor.notes, scale),
                    ..self.editor
                },
                last_note: NoteDefaults {
                    semitone: lowered(self.last_note.semitone, scale),
                    ..self.last_note
                },
                ..self.recorded(EditGroup::Once)
            }
        }
    }

    /// After a part of the selected note was changed.
    pub open spec fn detailed(self, detail: Detail) -> StateView {
        match self.selected {
            Some(index) if index < self.editor.notes.len() => StateView {
                dirty: true,
                ..self.with_notes(
                    self.editor.notes.update(
                        index as int,
                        detail.put_into(self.editor.notes[index as int], self.editor.scale),
                    ),
                ).recorded(detail.group())
            },
            _ => self,
        }
    }

    /// What the toolbar shows.
    pub open spec fn shown_detail(self) -> Shown {
        match self.selected {
            Some(index) => {
                if index < self.editor.notes.len() {
                    Shown::Note(index)
                } else {
                    Shown::Nothing
                }
            },
            None => {
                if self.selection.len() > 1 {
                    Shown::Many(self.selection.len() as usize)
                } else {
                    Shown::Nothing
                }
            },
        }
    }
}

impl EditorState {
    /// Switches looping.
    pub fn set_looping(&mut self, looping: bool, commands: &mut Vec<EditorCommand>)
        ensures
            final(self)@ == (StateView { looping, ..old(self)@ }),
            final(commands)@ == old(commands)@.push(EditorCommand::SetLoop(looping)),
    {
        self.looping = looping;
        commands.push(EditorCommand::SetLoop(looping));
    }

    /// Changes the tempo, from 20 to 300 beats per minute.
    pub fn set_tempo(&mut self, tempo: u32)
        ensures
            final(self)@ == (StateView {
                editor: EditorView { tempo: within(tempo, 20, 300), ..old(self)@.editor },
                dirty: true,
                ..old(self)@
            }),
    {
        let ghost before = self@;
        self.editor.tempo = if tempo < 20 {
            20
        } else if tempo > 300 {
            300
        } else {
            tempo
        };
        self.dirty = true;
        assert(self@.editor =~= EditorView {
            tempo: within(tempo, 20, 300),
            ..before.editor
        });
    }

    /// Changes the beats of a bar, from 1 to 16.
    pub fn set_beats(&mut self, beats: u32)
        ensures
            final(self)@ == (StateView {
                editor: EditorView { beats: within(beats, 1, 16), ..old(self)@.editor },
                dirty: true,
                ..old(self)@
            }),
    {
        let ghost before = self@;
        self.editor.beats = if beats < 1 {
            1
        } else if beats > 16 {
            16
        } else {
            beats
        };
        self.dirty = true;
        assert(self@.editor =~= EditorView { beats: within(beats, 1, 16), ..before.editor });
    }

    /// Changes the kind of note that a beat is, where there is such a note.
    pub fn set_beat_type(&mut self, beat_type: u32)
        ensures
            final(self)@ == (if is_beat_type(beat_type) {
                StateView {
                    editor: EditorView { beat_type, ..old(self)@.editor },
                    dirty: true,
                    ..old(self)@
                }
            } else {
                old(self)@
            }),
    {
        let ghost before = self@;
        if beat_type == 1 || beat_type == 2 || beat_type == 4 || beat_type == 8 || beat_type == 16
            || beat_type == 32 {
            self.editor.beat_type = beat_type;
            self.dirty = true;
            assert(self@.editor =~= EditorView { beat_type, ..before.editor });
        }
    }

    /// Changes how deep the swing is, and how uneven the beats are. That is no
    /// edit of the notes, so it is no step that can be taken back.
    pub fn set_groove(&mut self, swing_peak_ratio: u32, waltz_ratio: u32)
        ensures
            final(self)@ == (StateView {
                editor: EditorView { swing_peak_ratio, waltz_ratio, ..old(self)@.editor },
                dirty: true,
                ..old(self)@
            }),
    {
        let ghost before = self@;
        self.editor.swing_peak_ratio = swing_peak_ratio;
        self.editor.waltz_ratio = waltz_ratio;
        self.dirty = true;
        assert(self@.editor =~= EditorView {
            swing_peak_ratio,
            waltz_ratio,
            ..before.editor
        });
    }

    /// Changes the scale.
    pub fn set_scale(&mut self, scale: ScaleMode)
        ensures
            final(self)@ == old(self)@.rescaled(scale),
    {
        if scale == self.editor.scale {
            return;
        }
        let ghost before = self@;
        self.history.record(EditGroup::Once);
        self.editor.scale = scale;
        let max: i32 = scale.max_semitone();
        let count: usize = self.editor.notes.len();
        let mut at: usize = 0;
        while at < count
            invariant
                at <= count,
                count == before.editor.notes.len(),
                max == scale.steps() - 1,
                self@ == (StateView {
                    editor: EditorView { scale, notes: self@.editor.notes, ..before.editor },
                    ..before.recorded(EditGroup::Once)
                }),
                self@.editor.notes.len() == count,
                forall|i: int|
                    0 <= i < count ==> #[trigger] self@.editor.notes[i] == (if i < at {
                        lowered_to_scale(before.editor.notes, scale)[i]
                    } else {
                        before.editor.notes[i]
                    }),
            decreases count - at,
        {
            let note = self.editor.notes[at];
            if note.semitone > max {
                self.editor.notes.set(at, Note { semitone: max, ..note });
            }
            proof {
                assert(self@ =~= StateView {
                    editor: EditorView { scale, notes: self@.editor.notes, ..before.editor },
                    ..before.recorded(EditGroup::Once)
                });
            }
            at += 1;
        }
        if self.last_note.semitone > max {
            self.last_note.semitone = max;
        }
        self.dirty = true;
        proof {
            assert(self@.editor.notes =~= lowered_to_scale(before.editor.notes, scale));
            assert(self@ =~= before.rescaled(scale));
        }
    }

    /// Changes a part of the selected note.
    pub fn set_detail(&mut self, detail: Detail)
        ensures
            final(self)@ == old(self)@.detailed(detail),
    {
        let ghost before = self@;
        match self.selected {
            Some(index) => {
                if index < self.editor.notes.len() {
                    let note = self.editor.notes[index];
                    let max: i32 = self.editor.scale.max_semitone();
                    let (changed, group) = match detail {
                        Detail::Semitone(semitone) => (
                            Note {
                                semitone: if semitone < 0 {
                                    0
                                } else if semitone > max {
                                    max
                                } else {
                                    semitone
                                },
                                ..note
                            },
                            EditGroup::Semitone,
                        ),
                        Detail::Octave(octave) => (
                            Note {
                                octave: if octave < MIN_OCTAVE {
                                    MIN_OCTAVE
                                } else if octave > MAX_OCTAVE {
                                    MAX_OCTAVE
                                } else {
                                    octave
                                },
                                ..note
                            },
                            EditGroup::Octave,
                        ),
                        Detail::Velocity(velocity) => (
                            Note {
                                velocity: if velocity < 1 {
                                    1
                                } else if velocity > 127 {
                                    127
                                } else {
                                    velocity
                                },
                                ..note
                            },
                            EditGroup::Velocity,
                        ),
                    };
                    assert(changed == detail.put_into(note, before.editor.scale));
                    self.editor.notes.set(index, changed);
                    self.history.record(group);
                    self.dirty = true;
                }
            },
            None => {},
        }
        assert(self@ =~= before.detailed(detail));
    }

    /// Ends the collecting of changes of one kind into one step: an input was
    /// left, or let go of.
    pub fn leave_detail(&mut self)
        ensures
            final(self)@ == (StateView {
                history: HistoryView { group: None, ..old(self)@.history },
                ..old(self)@
            }),
    {
        let ghost before = self@;
        self.history.end_group();
        assert(self@.history =~= HistoryView { group: None, ..before.history });
    }

    /// What to show of the selection. Where the note whose details are shown is
    /// gone, nothing is selected any more.
    pub fn show_detail(&mut self) -> (shown: Shown)
        ensures
            shown == old(self)@.shown_detail(),
            final(self)@ == (if old(self)@.selected is Some && shown is Nothing {
                old(self)@.with_none()
            } else {
                old(self)@
            }),
    {
        match self.selected {
            Some(index) => {
                if index < self.editor.notes.len() {
                    Shown::Note(index)
                } else {
                    self.clear_selection();
                    Shown::Nothing
                }
            },
            None => {
                if self.selection.len() > 1 {
                    Shown::Many(self.selection.len())
                } else {
                    Shown::Nothing
                }
            },
        }
    }
}

/// After a change of the scale no note has a step above its last one.
pub proof fn a_scale_holds_all_notes(state: StateView, scale: ScaleMode, i: int)
    requires
        0 <= i < state.editor.notes.len(),
        scale != state.editor.scale,
    ensures
        state.rescaled(scale).editor.notes[i].semitone < scale.steps(),
        state.rescaled(scale).last_note.semitone < scale.steps(),
{
}

/// A change of the scale takes the new one, and nothing else of a note that has
/// a step in it changes; a step above its last one becomes the last one.
pub proof fn a_scale_lowers_what_is_above_it(state: StateView, scale: ScaleMode, i: int)
    requires
        0 <= i < state.editor.notes.len(),
    ensures
        ({
            let after = state.rescaled(scale);
            let old = state.editor.notes[i];
            let new = after.editor.notes[i];
            &&& after.editor.scale == scale
            &&& after.editor.notes.len() == state.editor.notes.len()
            &&& old.semitone < scale.steps() ==> new == old
            &&& scale != state.editor.scale && old.semitone >= scale.steps() ==> new == (Note {
                semitone: (scale.steps() - 1) as i32,
                ..old
            })
            &&& after.editor.tracks == state.editor.tracks
            &&& after.editor.tempo == state.editor.tempo
            &&& after.selection == state.selection
        }),
{
}

/// A detail that is changed becomes what was asked for, inside of its limits:
/// the step those of the scale, the octave -2 to 8, the velocity 1 to 127.
/// Nothing else of the note changes, and no other note.
pub proof fn a_detail_becomes_what_was_asked_for(
    state: StateView,
    index: usize,
    semitone: i32,
    octave: i32,
    velocity: u8,
    k: int,
)
    requires
        state.selected == Some(index),
        index < state.editor.notes.len(),
        0 <= k < state.editor.notes.len(),
    ensures
        ({
            let old = state.editor.notes[index as int];
            let scale = state.editor.scale;
            let stepped = state.detailed(Detail::Semitone(semitone)).editor.notes;
            let raised = state.detailed(Detail::Octave(octave)).editor.notes;
            let louder = state.detailed(Detail::Velocity(velocity)).editor.notes;
            &&& k != index ==> stepped[k] == state.editor.notes[k] && raised[k]
                == state.editor.notes[k] && louder[k] == state.editor.notes[k]
            &&& 0 <= semitone < scale.steps() ==> stepped[index as int] == (Note {
                semitone,
                ..old
            })
            &&& semitone < 0 ==> stepped[index as int] == (Note { semitone: 0, ..old })
            &&& semitone >= scale.steps() ==> stepped[index as int] == (Note {
                semitone: (scale.steps() - 1) as i32,
                ..old
            })
            &&& -2 <= octave <= 8 ==> raised[index as int] == (Note { octave, ..old })
            &&& octave < -2 ==> raised[index as int] == (Note { octave: (-2) as i32, ..old })
            &&& octave > 8 ==> raised[index as int] == (Note { octave: 8, ..old })
            &&& 1 <= velocity <= 127 ==> louder[index as int] == (Note { velocity, ..old })
            &&& velocity < 1 ==> louder[index as int] == (Note { velocity: 1, ..old })
            &&& velocity > 127 ==> louder[index as int] == (Note { velocity: 127, ..old })
        }),
{
}

/// The details of the note that is selected are shown, if it is there, and else
/// how many are selected, if there are several.
pub proof fn the_selection_is_shown(state: StateView)
    ensures
        state.selected is Some && state.selected->0 < state.editor.notes.len()
            ==> state.shown_detail() == Shown::Note(state.selected->0),
        state.selected is None && state.selection.len() > 1 && state.selection.len() <= usize::MAX
            ==> state.shown_detail() is Many && state.shown_detail()->Many_0
            == state.selection.len(),
        state.selected is None && state.selection.len() <= 1 ==> state.shown_detail() is Nothing,
{
}

/// The name of a grid width is that of a note which fits into it, and the next
/// longer one does not.
pub proof fn a_grid_is_named_after_a_note(snap: i64)
    ensures
        4 * 33600 <= snap ==> snap_name(snap) == "1/1"@,
        4 * 33600 <= 2 * snap && snap < 4 * 33600 ==> snap_name(snap) == "1/2"@,
        4 * 33600 <= 4 * snap && 2 * snap < 4 * 33600 ==> snap_name(snap) == "1/4"@,
        4 * 33600 <= 8 * snap && 4 * snap < 4 * 33600 ==> snap_name(snap) == "1/8"@,
        4 * 33600 <= 16 * snap && 8 * snap < 4 * 33600 ==> snap_name(snap) == "1/16"@,
        16 * snap < 4 * 33600 ==> snap_name(snap) == "1/32"@,
{
}

/// A tuplet is named after how many notes it has; fewer than three are none.
pub proof fn a_tuplet_is_named_after_its_notes(tuplet: u32)
    ensures
        3 <= tuplet <= 7 ==> tuplet_name(tuplet) == decimal(tuplet as nat) + "連符"@,
        tuplet < 3 || tuplet > 7 ==> tuplet_name(tuplet) == "オフ"@,
{
    reveal_with_fuel(decimal, 2);
    reveal_strlit("連符");
    reveal_strlit("3連符");
    reveal_strlit("4連符");
    reveal_strlit("5連符");
    reveal_strlit("6連符");
    reveal_strlit("7連符");
    if 3 <= tuplet <= 7 {
        assert(tuplet_name(tuplet) =~= decimal(tuplet as nat) + "連符"@);
    }
}

} // verus!
