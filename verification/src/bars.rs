//! Beats, bars, the length of a sequence, and notes that hide each other.

use crate::sequencer::{EditorView, MidiEditor, Note, ScaleMode, TrackInfo, TrackView};
use crate::time::{floor_quotient, narrow, saturate};
use vstd::prelude::*;

verus! {

/// The bits of the single-precision number 1: all beats are equally long.
pub const EVEN_RATIO: u32 = 0x3f80_0000;

/// How deep a new sequence swings on tracks that swing: the bits of the
/// single-precision number 1.5. At 1 nothing would swing, and at 2 there would be
/// triplets; in the middle between them is a choice.
pub const DEFAULT_PEAK_RATIO: u32 = 0x3fc0_0000;

/// The ticks of a whole note.
pub const TICKS_PER_WHOLE: i64 = 134400;

impl EditorView {
    /// A new sequence: one empty track, 120 beats per minute, four quarters.
    pub open spec fn fresh() -> EditorView {
        EditorView {
            notes: Seq::empty(),
            tracks: seq![TrackView::fresh(0)],
            tempo: 120,
            beats: 4,
            beat_type: 4,
            scale: ScaleMode::Equal12,
            swing_peak_ratio: DEFAULT_PEAK_RATIO,
            waltz_ratio: EVEN_RATIO,
        }
    }

    /// The length of a beat.
    pub open spec fn beat(self) -> int {
        TICKS_PER_WHOLE as int / (if self.beat_type == 0 {
            1
        } else {
            self.beat_type as int
        })
    }

    /// The length of a bar.
    pub open spec fn bar(self) -> int {
        self.beat() * (if self.beats == 0 {
            1
        } else {
            self.beats as int
        })
    }

    /// The length up to the end of the bar in which the last note ends.
    pub open spec fn whole_bars(self) -> int {
        if self.bar() <= 0 {
            latest_end(self.notes) as int
        } else {
            -((-latest_end(self.notes)) / self.bar()) * self.bar()
        }
    }

    /// The length that is shown: two bars more than the notes take up, and at
    /// least eight.
    pub open spec fn shown(self) -> i64 {
        if self.whole_bars() + 2 * self.bar() < 8 * self.bar() {
            saturate(8 * self.bar())
        } else {
            saturate(self.whole_bars() + 2 * self.bar())
        }
    }
}

/// Where the last note ends, or 0.
pub open spec fn latest_end(notes: Seq<Note>) -> i64
    decreases notes.len(),
{
    if notes.len() == 0 {
        0
    } else {
        let before = latest_end(notes.drop_last());
        if notes.last().end() > before {
            notes.last().end()
        } else {
            before
        }
    }
}

/// Whether two notes sound at the same time on the same lane.
pub open spec fn collide(a: Note, b: Note) -> bool {
    &&& a.track == b.track
    &&& a.lane == b.lane
    &&& a.start_tick < b.end()
    &&& b.start_tick < a.end()
}

/// Whether another note collides with note `i`.
pub open spec fn is_hidden(notes: Seq<Note>, i: int) -> bool {
    exists|j: int| 0 <= j < notes.len() && j != i && collide(notes[i], #[trigger] notes[j])
}

impl Default for MidiEditor {
    fn default() -> (editor: MidiEditor)
        ensures
            editor@ == EditorView::fresh(),
    {
        let editor = MidiEditor {
            notes: Vec::new(),
            tracks: vec![TrackInfo::new(0)],
            tempo: 120,
            beats: 4,
            beat_type: 4,
            scale: ScaleMode::Equal12,
            swing_peak_ratio: DEFAULT_PEAK_RATIO,
            waltz_ratio: EVEN_RATIO,
        };
        assert(editor@ =~= EditorView::fresh());
        editor
    }
}

impl MidiEditor {
    /// The length of a beat.
    pub fn ticks_per_beat(&self) -> (ticks: i64)
        ensures
            ticks == self@.beat(),
            0 <= ticks <= TICKS_PER_WHOLE,
    {
        let parts: i64 = if self.beat_type == 0 {
            1
        } else {
            self.beat_type as i64
        };
        proof {
            assert(0 <= 134400int / (parts as int) <= 134400) by (nonlinear_arith)
                requires
                    parts >= 1,
            ;
        }
        TICKS_PER_WHOLE / parts
    }

    /// The length of a bar.
    pub fn ticks_per_bar(&self) -> (ticks: i64)
        ensures
            ticks == self@.bar(),
            0 <= ticks <= 0x1_0000_0000 * TICKS_PER_WHOLE,
    {
        let beats: i64 = if self.beats == 0 {
            1
        } else {
            self.beats as i64
        };
        let beat: i64 = self.ticks_per_beat();
        proof {
            assert(0 <= beat * beats <= 0x1_0000_0000 * 134400) by (nonlinear_arith)
                requires
                    0 <= beat <= 134400,
                    1 <= beats <= 0x1_0000_0000,
            ;
        }
        beat * beats
    }

    /// Where the last note ends.
    pub fn last_end(&self) -> (end: i64)
        ensures
            end == latest_end(self@.notes),
            end >= 0,
    {
        let mut end: i64 = 0;
        let mut at: usize = 0;
        while at < self.notes.len()
            invariant
                at <= self@.notes.len(),
                end == latest_end(self@.notes.take(at as int)),
                end >= 0,
            decreases self@.notes.len() - at,
        {
            assert(self@.notes.take(at + 1).drop_last() =~= self@.notes.take(at as int));
            let here: i64 = self.notes[at].end_tick();
            if here > end {
                end = here;
            }
            at += 1;
        }
        assert(self@.notes.take(at as int) =~= self@.notes);
        end
    }

    fn bars_in_ticks(&self) -> (ticks: i128)
        ensures
            ticks == self@.whole_bars(),
            0 <= ticks <= 0x1_0000_0000_0000_0000,
    {
        let end: i128 = self.last_end() as i128;
        let bar: i128 = self.ticks_per_bar() as i128;
        if bar == 0 {
            return end;
        }
        let full: i128 = floor_quotient(-end, bar);
        proof {
            let down = (-end as int) / (bar as int);
            assert(-(down) * bar >= end && -(down) * bar < end + bar) by (nonlinear_arith)
                requires
                    down == (-end as int) / (bar as int),
                    bar > 0,
            ;
            assert(-(down) <= end && -(down) >= 0) by (nonlinear_arith)
                requires
                    down == (-end as int) / (bar as int),
                    bar > 0,
                    end >= 0,
            ;
        }
        -full * bar
    }

    /// The length up to the end of the bar in which the last note ends.
    pub fn length_bar_aligned(&self) -> (ticks: i64)
        ensures
            ticks == saturate(self@.whole_bars()),
    {
        narrow(self.bars_in_ticks())
    }

    /// The length that is shown.
    pub fn shown_length(&self) -> (ticks: i64)
        ensures
            ticks == self@.shown(),
    {
        let bar: i128 = self.ticks_per_bar() as i128;
        let filled: i128 = self.bars_in_ticks() + 2 * bar;
        narrow(
            if filled < 8 * bar {
                8 * bar
            } else {
                filled
            },
        )
    }

    fn hidden_at(&self, index: usize) -> (yes: bool)
        requires
            index < self@.notes.len(),
        ensures
            yes == is_hidden(self@.notes, index as int),
    {
        let note = self.notes[index];
        let end: i64 = note.end_tick();
        let mut at: usize = 0;
        while at < self.notes.len()
            invariant
                at <= self@.notes.len(),
                index < self@.notes.len(),
                note == self@.notes[index as int],
                end == note.end(),
                forall|j: int|
                    0 <= j < at && j != index ==> !collide(
                        self@.notes[index as int],
                        #[trigger] self@.notes[j],
                    ),
            decreases self@.notes.len() - at,
        {
            let other = self.notes[at];
            if at != index && note.track == other.track && note.lane == other.lane
                && note.start_tick < other.end_tick() && other.start_tick < end {
                assert(collide(self@.notes[index as int], self@.notes[at as int]));
                return true;
            }
            at += 1;
        }
        false
    }

    /// For each note, whether another one on its lane sounds at the same time.
    pub fn overlapping_notes(&self) -> (marks: Vec<bool>)
        ensures
            marks@.len() == self@.notes.len(),
            forall|i: int|
                0 <= i < marks@.len() ==> #[trigger] marks@[i] == is_hidden(self@.notes, i),
    {
        let mut marks: Vec<bool> = Vec::new();
        let mut at: usize = 0;
        while at < self.notes.len()
            invariant
                at <= self@.notes.len(),
                marks@.len() == at,
                forall|i: int| 0 <= i < at ==> #[trigger] marks@[i] == is_hidden(self@.notes, i),
            decreases self@.notes.len() - at,
        {
            marks.push(self.hidden_at(at));
            at += 1;
        }
        marks
    }
}

/// The length in whole bars covers all notes, by less than a bar too much, and
/// is a number of bars.
pub proof fn whole_bars_cover_the_notes(editor: EditorView)
    requires
        editor.bar() > 0,
    ensures
        latest_end(editor.notes) <= editor.whole_bars() < latest_end(editor.notes) + editor.bar(),
        editor.whole_bars() % editor.bar() == 0,
{
    let end = latest_end(editor.notes) as int;
    let bar = editor.bar();
    let down = (-end) / bar;
    assert(-(down) * bar >= end && -(down) * bar < end + bar) by (nonlinear_arith)
        requires
            down == (-end) / bar,
            bar > 0,
    ;
    vstd::arithmetic::div_mod::lemma_mod_multiples_basic(-down, bar);
}

/// If one note hides another, that one hides the first.
pub proof fn hiding_is_mutual(notes: Seq<Note>, i: int, j: int)
    requires
        0 <= i < notes.len(),
        0 <= j < notes.len(),
        i != j,
        collide(notes[i], notes[j]),
    ensures
        is_hidden(notes, i),
        is_hidden(notes, j),
{
    assert(collide(notes[j], notes[i]));
}

/// A whole note has as many beats as the lower number of the time signature
/// says, and a bar as many as the upper number says. A beat is a whole number of
/// ticks, and rounded down where it would not be.
pub proof fn beats_and_bars_go_by_the_time_signature(editor: EditorView)
    requires
        editor.beats > 0,
        editor.beat_type > 0,
    ensures
        editor.beat() * editor.beat_type <= 4 * 33600 < (editor.beat() + 1) * editor.beat_type,
        editor.beat_type == 4 ==> editor.beat() == 33600,
        editor.beat_type == 8 ==> editor.beat() == 16800,
        editor.bar() == editor.beats * editor.beat(),
{
    let parts = editor.beat_type as int;
    vstd::arithmetic::div_mod::lemma_fundamental_div_mod(134400, parts);
    let beat = editor.beat();
    assert(beat * parts <= 134400 < (beat + 1) * parts) by (nonlinear_arith)
        requires
            134400 == parts * beat + 134400int % parts,
            0 <= 134400int % parts < parts,
    ;
    let beats = editor.beats as int;
    assert(beat * beats == beats * beat) by (nonlinear_arith);
}

/// A sequence ends where the last of its notes does: no note ends later, and some
/// note ends there. Without notes it ends at its start.
pub proof fn a_sequence_ends_with_its_last_note(notes: Seq<Note>, i: int)
    ensures
        latest_end(notes) >= 0,
        0 <= i < notes.len() ==> notes[i].end() <= latest_end(notes),
        latest_end(notes) > 0 ==> exists|j: int|
            0 <= j < notes.len() && (#[trigger] notes[j]).end() == latest_end(notes),
    decreases notes.len(),
{
    if notes.len() > 0 {
        let shorter = notes.drop_last();
        a_sequence_ends_with_its_last_note(shorter, i);
        if latest_end(shorter) > 0 {
            let j = choose|j: int|
                0 <= j < shorter.len() && (#[trigger] shorter[j]).end() == latest_end(shorter);
            assert(notes[j].end() == latest_end(shorter));
        }
        assert(notes[notes.len() - 1].end() <= latest_end(notes));
    }
}

/// Two bars more than the notes take up are shown, and never less than eight.
pub proof fn eight_bars_are_shown_and_two_behind_the_notes(editor: EditorView)
    requires
        editor.bar() > 0,
        editor.whole_bars() + 8 * editor.bar() <= i64::MAX,
    ensures
        editor.shown() >= 8 * editor.bar(),
        editor.shown() >= latest_end(editor.notes) + 2 * editor.bar(),
        editor.shown() == 8 * editor.bar() || editor.shown() < latest_end(editor.notes) + 3
            * editor.bar(),
{
    whole_bars_cover_the_notes(editor);
    a_sequence_ends_with_its_last_note(editor.notes, 0);
}

/// Notes collide if they lie on one lane and there is a tick at which both
/// sound.
pub proof fn notes_collide_where_both_sound(a: Note, b: Note, tick: int)
    requires
        a.start_tick < a.end(),
        b.start_tick < b.end(),
    ensures
        a.track == b.track && a.lane == b.lane && a.start_tick <= tick < a.end() && b.start_tick
            <= tick < b.end() ==> collide(a, b),
        collide(a, b) ==> {
            let both = if a.start_tick < b.start_tick {
                b.start_tick
            } else {
                a.start_tick
            };
            &&& a.track == b.track
            &&& a.lane == b.lane
            &&& a.start_tick <= both < a.end()
            &&& b.start_tick <= both < b.end()
        },
{
}

/// A new sequence has one track, no notes, 120 quarters in a minute and four in
/// a bar, and twelve steps in an octave.
pub proof fn a_new_sequence_is_empty()
    ensures
        EditorView::fresh().notes.len() == 0,
        EditorView::fresh().tracks == seq![TrackView::fresh(0)],
        EditorView::fresh().tempo == 120,
        EditorView::fresh().bar() == 4 * 33600,
        EditorView::fresh().scale.steps() == 12,
{
    beats_and_bars_go_by_the_time_signature(EditorView::fresh());
}

} // verus!
