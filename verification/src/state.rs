//! The state of the editor, and the editing operations on its selection.

use crate::history::{EditGroup, History, HistoryView};
use crate::metrics::{hold_to, held_to, MAX_PPQ, MAX_ROW_H, MIN_PPQ, MIN_ROW_H, PPQ, ROW_H};
use crate::opus::DEFAULT_BITRATE_KBPS;
use crate::sequencer::{EditorView, MidiEditor, Note};
use crate::time::TICKS_PER_QUARTER;
use vstd::prelude::*;

verus! {

/// The lowest octave that notes can be transposed to.
pub const MIN_OCTAVE: i32 = -2;

/// The highest octave that notes can be transposed to.
pub const MAX_OCTAVE: i32 = 8;

/// What a new note takes over from the note that was last pointed at. It is
/// kept when the selection goes away.
#[derive(Clone, Copy, PartialEq, Eq, Structural, Debug)]
pub struct NoteDefaults {
    pub semitone: i32,
    pub octave: i32,
    pub duration: i64,
    pub velocity: u8,
}

impl NoteDefaults {
    /// Step 0 of octave 4, a sixteenth note, velocity 100.
    pub open spec fn initial() -> NoteDefaults {
        NoteDefaults {
            semitone: 0,
            octave: 4,
            duration: (TICKS_PER_QUARTER / 4) as i64,
            velocity: 100,
        }
    }

    /// What is taken over from a note.
    pub open spec fn of(note: Note) -> NoteDefaults {
        NoteDefaults {
            semitone: note.semitone,
            octave: note.octave,
            duration: note.duration,
            velocity: note.velocity,
        }
    }

    /// What is taken over from a note.
    pub fn from_note(note: &Note) -> (defaults: NoteDefaults)
        ensures
            defaults == NoteDefaults::of(*note),
    {
        NoteDefaults {
            semitone: note.semitone,
            octave: note.octave,
            duration: note.duration,
            velocity: note.velocity,
        }
    }
}

impl Default for NoteDefaults {
    fn default() -> (defaults: NoteDefaults)
        ensures
            defaults == NoteDefaults::initial(),
    {
        NoteDefaults { semitone: 0, octave: 4, duration: TICKS_PER_QUARTER / 4, velocity: 100 }
    }
}

/// What a drag does.
#[derive(Clone, Copy, PartialEq, Eq, Structural, Debug)]
pub enum DragKind {
    /// Moves notes in time and over the lanes.
    Move,
    /// Moves an end of notes. From the left, the other end stays where it is.
    Resize { from_left: bool },
    /// Moves the playhead.
    Seek,
    /// Selects notes with a rectangle.
    Marquee,
}

/// A drag that is going on.
#[derive(Debug)]
pub struct DragState {
    pub kind: DragKind,
    /// The notes that are dragged, as they were at the start. The first one is
    /// the one that was grabbed: the grid applies to it.
    pub targets: Vec<(usize, Note)>,
    /// What was selected at the start of a rectangle and stays selected.
    pub base_selection: Vec<usize>,
    /// Where it started, on the grid and not on the screen: the tick, and how far
    /// down the lanes. The grid may scroll meanwhile.
    pub origin: (i64, i64),
}

/// What a [`DragState`] holds.
#[verifier::ext_equal]
pub struct DragView {
    pub kind: DragKind,
    pub targets: Seq<(usize, Note)>,
    pub base_selection: Seq<usize>,
    pub origin: (i64, i64),
}

impl View for DragState {
    type V = DragView;

    open spec fn view(&self) -> DragView {
        DragView {
            kind: self.kind,
            targets: self.targets@,
            base_selection: self.base_selection@,
            origin: self.origin,
        }
    }
}

/// What a drag with the middle button does. It is settled when the button goes
/// down, and stays until the button goes up.
#[derive(Clone, Copy, PartialEq, Eq, Structural, Debug)]
pub enum MiddleDrag {
    /// Scrolls.
    Pan,
    /// Zooms across. The tick under the pointer at the start stays where it is.
    ZoomHorizontally { anchor_tick: i64 },
}

/// The state of the editor.
#[derive(Debug)]
pub struct EditorState {
    pub editor: MidiEditor,
    /// The width of the grid in ticks.
    pub snap: i64,
    /// Tuplet mode: 1 is off, `n` divides two grid widths into `n`.
    pub tuplet: u32,
    /// Whether a note can be resized at its left end, too.
    pub left_resize: bool,
    pub looping: bool,
    /// The height of a lane on the screen.
    pub row_h: i32,
    /// The width of a quarter note on the screen.
    pub ppq: i32,
    /// The note whose details are shown; only where one alone is selected.
    pub selected: Option<usize>,
    pub selection: Vec<usize>,
    /// What the next new note takes over.
    pub last_note: NoteDefaults,
    /// Whether the sequence has changed and must be sent on.
    pub dirty: bool,
    pub history: History,
    /// Where playback started; stopping goes back there.
    pub play_return: Option<i64>,
    /// Whether playback was on in the frame before.
    pub was_playing: bool,
    /// Whether the selected note is one that the user pointed at.
    pub track_last_note: bool,
    pub drag: Option<DragState>,
    /// What the middle button is held for.
    pub middle_drag: Option<MiddleDrag>,
    /// How far the grid is to be scrolled across in the next frame.
    pub pending_scroll_x: Option<i64>,
    /// A position to be scrolled into view, once.
    pub scroll_to: Option<i64>,
    /// The track whose control lanes are listed.
    pub lane_config_track: Option<usize>,
    pub opus_bitrate_kbps: u32,
    /// The lane that waits for another one to be swapped with.
    pub lane_swap_source: Option<(usize, usize)>,
    /// Copied notes, from the start of the first one.
    pub note_clipboard: Vec<Note>,
}

/// What an [`EditorState`] holds.
#[verifier::ext_equal]
pub struct StateView {
    pub editor: EditorView,
    pub snap: i64,
    pub tuplet: u32,
    pub left_resize: bool,
    pub looping: bool,
    pub row_h: i32,
    pub ppq: i32,
    pub selected: Option<usize>,
    pub selection: Seq<usize>,
    pub last_note: NoteDefaults,
    pub dirty: bool,
    pub history: HistoryView,
    pub play_return: Option<i64>,
    pub was_playing: bool,
    pub track_last_note: bool,
    pub drag: Option<DragView>,
    pub middle_drag: Option<MiddleDrag>,
    pub pending_scroll_x: Option<i64>,
    pub scroll_to: Option<i64>,
    pub lane_config_track: Option<usize>,
    pub opus_bitrate_kbps: u32,
    pub lane_swap_source: Option<(usize, usize)>,
    pub note_clipboard: Seq<Note>,
}

/// The view of a drag, if there is one.
pub open spec fn drag_view(drag: Option<DragState>) -> Option<DragView> {
    match drag {
        Some(drag) => Some(drag@),
        None => None,
    }
}

impl View for EditorState {
    type V = StateView;

    open spec fn view(&self) -> StateView {
        StateView {
            editor: self.editor@,
            snap: self.snap,
            tuplet: self.tuplet,
            left_resize: self.left_resize,
            looping: self.looping,
            row_h: self.row_h,
            ppq: self.ppq,
            selected: self.selected,
            selection: self.selection@,
            last_note: self.last_note,
            dirty: self.dirty,
            history: self.history@,
            play_return: self.play_return,
            was_playing: self.was_playing,
            track_last_note: self.track_last_note,
            drag: drag_view(self.drag),
            middle_drag: self.middle_drag,
            pending_scroll_x: self.pending_scroll_x,
            scroll_to: self.scroll_to,
            lane_config_track: self.lane_config_track,
            opus_bitrate_kbps: self.opus_bitrate_kbps,
            lane_swap_source: self.lane_swap_source,
            note_clipboard: self.note_clipboard@,
        }
    }
}

/// The numbers below `count` that are selected, ascending.
pub open spec fn chosen(selection: Seq<usize>, count: int) -> Seq<usize>
    decreases count,
{
    if count <= 0 {
        Seq::empty()
    } else {
        let before = chosen(selection, count - 1);
        if selection.contains((count - 1) as usize) {
            before.push((count - 1) as usize)
        } else {
            before
        }
    }
}

/// The numbers below `count` of the notes that lie on a lane, ascending.
pub open spec fn indices_on(notes: Seq<Note>, track: usize, lane: usize, count: int) -> Seq<usize>
    decreases count,
{
    if count <= 0 {
        Seq::empty()
    } else {
        let before = indices_on(notes, track, lane, count - 1);
        if notes[count - 1].track == track && notes[count - 1].lane == lane {
            before.push((count - 1) as usize)
        } else {
            before
        }
    }
}

impl StateView {
    /// The selected notes' numbers, ascending and without repetition.
    pub open spec fn chosen(self) -> Seq<usize> {
        chosen(self.selection, self.editor.notes.len() as int)
    }

    /// With one note selected, by pointing at it.
    pub open spec fn with_single(self, index: usize) -> StateView {
        StateView {
            selection: seq![index],
            selected: Some(index),
            track_last_note: true,
            lane_swap_source: None,
            ..self
        }
    }

    /// With notes selected otherwise.
    pub open spec fn with_many(self, indices: Seq<usize>) -> StateView {
        StateView {
            selected: if indices.len() == 1 {
                Some(indices[0])
            } else {
                None
            },
            selection: indices,
            track_last_note: false,
            lane_swap_source: None,
            ..self
        }
    }

    /// With nothing selected.
    pub open spec fn with_none(self) -> StateView {
        self.with_many(Seq::empty())
    }

    /// With the notes changed.
    pub open spec fn with_notes(self, notes: Seq<Note>) -> StateView {
        StateView { editor: EditorView { notes, ..self.editor }, ..self }
    }

    /// After a change was recorded.
    pub open spec fn recorded(self, group: EditGroup) -> StateView {
        StateView { history: self.history.recorded(group), ..self }
    }

    /// The width of the grid, with the tuplet taken into account: `n` notes of
    /// a tuplet take up two grid widths.
    pub open spec fn grid(self) -> int {
        let n = if self.tuplet < 1 {
            1
        } else if self.tuplet > 7 {
            7
        } else {
            self.tuplet as int
        };
        if n <= 1 {
            self.snap as int
        } else {
            self.snap * 2 / n
        }
    }
}

impl StateView {
    /// A new editor: a new sequence, a grid of sixteenths, nothing selected.
    pub open spec fn fresh() -> StateView {
        StateView {
            editor: EditorView::fresh(),
            snap: (TICKS_PER_QUARTER / 4) as i64,
            tuplet: 1,
            left_resize: false,
            looping: false,
            row_h: ROW_H,
            ppq: PPQ,
            selected: None,
            selection: Seq::empty(),
            last_note: NoteDefaults::initial(),
            dirty: true,
            history: HistoryView::fresh(EditorView::fresh()),
            play_return: None,
            was_playing: false,
            track_last_note: false,
            drag: None,
            middle_drag: None,
            pending_scroll_x: None,
            scroll_to: None,
            lane_config_track: None,
            opus_bitrate_kbps: DEFAULT_BITRATE_KBPS,
            lane_swap_source: None,
            note_clipboard: Seq::empty(),
        }
    }
}

impl Default for EditorState {
    fn default() -> (state: EditorState)
        ensures
            state@ == StateView::fresh(),
    {
        let editor = MidiEditor::default();
        let state = EditorState {
            history: History::new(&editor),
            editor,
            snap: TICKS_PER_QUARTER / 4,
            tuplet: 1,
            left_resize: false,
            looping: false,
            row_h: ROW_H,
            ppq: PPQ,
            selected: None,
            selection: Vec::new(),
            last_note: NoteDefaults::default(),
            dirty: true,
            play_return: None,
            was_playing: false,
            track_last_note: false,
            drag: None,
            middle_drag: None,
            pending_scroll_x: None,
            scroll_to: None,
            lane_config_track: None,
            opus_bitrate_kbps: DEFAULT_BITRATE_KBPS,
            lane_swap_source: None,
            note_clipboard: Vec::new(),
        };
        assert(state@ =~= StateView::fresh());
        state
    }
}

impl EditorState {
    /// Changes the height of a lane, inside of its limits. Says by how much it
    /// changed.
    pub fn set_row_h(&mut self, row_h: i32) -> (grew: i64)
        ensures
            final(self)@ == (StateView {
                row_h: held_to(row_h, MIN_ROW_H, MAX_ROW_H),
                ..old(self)@
            }),
            grew == held_to(row_h, MIN_ROW_H, MAX_ROW_H) - old(self)@.row_h,
            12 * 1024 <= row_h <= 96 * 1024 ==> final(self)@.row_h == row_h,
            row_h < 12 * 1024 ==> final(self)@.row_h == 12 * 1024,
            row_h > 96 * 1024 ==> final(self)@.row_h == 96 * 1024,
            old(self)@.row_h + grew == final(self)@.row_h,
    {
        let held: i32 = hold_to(row_h, MIN_ROW_H, MAX_ROW_H);
        let grew: i64 = held as i64 - self.row_h as i64;
        self.row_h = held;
        grew
    }

    /// Changes the width of a quarter note, inside of its limits. Says by how
    /// much it changed.
    pub fn set_ppq(&mut self, ppq: i32) -> (grew: i64)
        ensures
            final(self)@ == (StateView { ppq: held_to(ppq, MIN_PPQ, MAX_PPQ), ..old(self)@ }),
            grew == held_to(ppq, MIN_PPQ, MAX_PPQ) - old(self)@.ppq,
            16 * 1024 <= ppq <= 480 * 1024 ==> final(self)@.ppq == ppq,
            ppq < 16 * 1024 ==> final(self)@.ppq == 16 * 1024,
            ppq > 480 * 1024 ==> final(self)@.ppq == 480 * 1024,
            old(self)@.ppq + grew == final(self)@.ppq,
    {
        let held: i32 = hold_to(ppq, MIN_PPQ, MAX_PPQ);
        let grew: i64 = held as i64 - self.ppq as i64;
        self.ppq = held;
        grew
    }

    /// The width of the grid, with the tuplet taken into account.
    pub fn snap_unit(&self) -> (unit: i64)
        requires
            0 <= self@.snap <= i64::MAX / 2,
        ensures
            unit == self@.grid(),
    {
        let n: i64 = if self.tuplet < 1 {
            1
        } else if self.tuplet > 7 {
            7
        } else {
            self.tuplet as i64
        };
        if n <= 1 {
            self.snap
        } else {
            self.snap * 2 / n
        }
    }

    /// Whether a note is selected.
    pub fn is_selected(&self, index: usize) -> (yes: bool)
        ensures
            yes == self@.selection.contains(index),
    {
        holds(&self.selection, index)
    }

    /// Selects one note that the user points at.
    pub fn select_single(&mut self, index: usize)
        ensures
            final(self)@ == old(self)@.with_single(index),
    {
        self.selection = vec![index];
        self.selected = Some(index);
        self.track_last_note = true;
        self.lane_swap_source = None;
        assert(self@.selection =~= seq![index]);
    }

    /// Selects notes otherwise than by pointing at one. A lane no longer waits
    /// to be swapped.
    pub fn select_many(&mut self, indices: Vec<usize>)
        ensures
            final(self)@ == old(self)@.with_many(indices@),
    {
        self.selected = if indices.len() == 1 {
            Some(indices[0])
        } else {
            None
        };
        self.selection = indices;
        self.track_last_note = false;
        self.lane_swap_source = None;
    }

    /// Selects all the notes of a lane.
    pub fn select_lane(&mut self, track: usize, lane: usize)
        ensures
            final(self)@ == old(self)@.with_many(
                indices_on(
                    old(self)@.editor.notes,
                    track,
                    lane,
                    old(self)@.editor.notes.len() as int,
                ),
            ),
    {
        let mut indices: Vec<usize> = Vec::new();
        let mut at: usize = 0;
        while at < self.editor.notes.len()
            invariant
                at <= self@.editor.notes.len(),
                indices@ == indices_on(self@.editor.notes, track, lane, at as int),
            decreases self@.editor.notes.len() - at,
        {
            let note = self.editor.notes[at];
            if note.track == track && note.lane == lane {
                indices.push(at);
            }
            at += 1;
        }
        self.select_many(indices);
    }

    /// Selects nothing. A lane no longer waits to be swapped: what it was
    /// marked for is gone.
    pub fn clear_selection(&mut self)
        ensures
            final(self)@ == old(self)@.with_none(),
    {
        self.select_many(Vec::new());
    }

    /// The selected notes' numbers, ascending and without repetition.
    pub fn selection_sorted(&self) -> (indices: Vec<usize>)
        ensures
            indices@ == self@.chosen(),
    {
        let mut indices: Vec<usize> = Vec::new();
        let mut at: usize = 0;
        while at < self.editor.notes.len()
            invariant
                at <= self@.editor.notes.len(),
                indices@ == chosen(self@.selection, at as int),
            decreases self@.editor.notes.len() - at,
        {
            if holds(&self.selection, at) {
                indices.push(at);
            }
            at += 1;
        }
        indices
    }
}

/// Whether a number is among `numbers`.
pub fn holds(numbers: &Vec<usize>, number: usize) -> (yes: bool)
    ensures
        yes == numbers@.contains(number),
{
    let mut at: usize = 0;
    while at < numbers.len()
        invariant
            at <= numbers@.len(),
            forall|i: int| 0 <= i < at ==> numbers@[i] != number,
        decreases numbers@.len() - at,
    {
        if numbers[at] == number {
            assert(numbers@[at as int] == number);
            return true;
        }
        at += 1;
    }
    false
}

/// The chosen numbers ascend, are in range, and are those that are selected.
pub proof fn lemma_chosen(selection: Seq<usize>, count: int)
    requires
        0 <= count <= usize::MAX,
    ensures
        forall|i: int, j: int|
            #![trigger chosen(selection, count)[i], chosen(selection, count)[j]]
            0 <= i < j < chosen(selection, count).len() ==> chosen(selection, count)[i] < chosen(
                selection,
                count,
            )[j],
        forall|k: usize| #[trigger]
            chosen(selection, count).contains(k) <==> k < count && selection.contains(k),
        forall|i: int|
            0 <= i < chosen(selection, count).len() ==> (#[trigger] chosen(selection, count)[i])
                < count,
    decreases count,
{
    if count > 0 {
        lemma_chosen(selection, count - 1);
        let before = chosen(selection, count - 1);
        let now = chosen(selection, count);
        let last = (count - 1) as usize;
        assert forall|i: int| 0 <= i < now.len() implies (#[trigger] now[i]) < count by {
            if i < before.len() {
                assert(now[i] == before[i]);
            }
        }
        assert forall|i: int, j: int|
            #![trigger now[i], now[j]]
            0 <= i < j < now.len() implies now[i] < now[j] by {
            assert(now[i] == before[i]);
            if j < before.len() {
                assert(now[j] == before[j]);
            }
        }
        assert forall|k: usize| #[trigger] now.contains(k) <==> k < count && selection.contains(
            k,
        ) by {
            if now.contains(k) {
                let i = choose|i: int| 0 <= i < now.len() && now[i] == k;
                if i < before.len() {
                    assert(before[i] == k);
                    assert(before.contains(k));
                }
            }
            if k < count && selection.contains(k) {
                if k == last {
                    assert(now[before.len() as int] == k);
                } else {
                    assert(before.contains(k));
                    let i = choose|i: int| 0 <= i < before.len() && before[i] == k;
                    assert(now[i] == k);
                }
            }
        }
    }
}

/// Any change of the selection ends the waiting of a lane to be swapped.
pub proof fn selecting_disarms_the_lane_swap(state: StateView, index: usize, indices: Seq<usize>)
    ensures
        state.with_single(index).lane_swap_source is None,
        state.with_many(indices).lane_swap_source is None,
        state.with_none().lane_swap_source is None,
{
}

/// What is said of a state is what stands in it.
pub proof fn a_state_is_seen_as_it_is(state: EditorState)
    ensures
        state@.editor == state.editor@,
        state@.snap == state.snap,
        state@.tuplet == state.tuplet,
        state@.left_resize == state.left_resize,
        state@.looping == state.looping,
        state@.row_h == state.row_h,
        state@.ppq == state.ppq,
        state@.selected == state.selected,
        state@.selection == state.selection@,
        state@.last_note == state.last_note,
        state@.dirty == state.dirty,
        state@.history == state.history@,
        state@.play_return == state.play_return,
        state@.was_playing == state.was_playing,
        state@.track_last_note == state.track_last_note,
        state@.middle_drag == state.middle_drag,
        state@.pending_scroll_x == state.pending_scroll_x,
        state@.scroll_to == state.scroll_to,
        state@.lane_config_track == state.lane_config_track,
        state@.opus_bitrate_kbps == state.opus_bitrate_kbps,
        state@.lane_swap_source == state.lane_swap_source,
        state@.note_clipboard == state.note_clipboard@,
        state.drag is Some <==> state@.drag is Some,
        state.drag is Some ==> {
            &&& state@.drag->0.kind == state.drag->0.kind
            &&& state@.drag->0.targets == state.drag->0.targets@
            &&& state@.drag->0.base_selection == state.drag->0.base_selection@
            &&& state@.drag->0.origin == state.drag->0.origin
        },
{
}

/// As many notes as a tuplet says share two widths of the grid, as evenly as
/// whole ticks let them. Without a tuplet the grid is as wide as it was chosen.
pub proof fn a_tuplet_shares_two_widths(state: StateView)
    requires
        0 <= state.snap,
    ensures
        state.tuplet <= 1 ==> state.grid() == state.snap,
        2 <= state.tuplet <= 7 ==> {
            &&& state.tuplet * state.grid() <= 2 * state.snap
            &&& 2 * state.snap - state.tuplet * state.grid() < state.tuplet
        },
        state.tuplet > 7 ==> {
            &&& 7 * state.grid() <= 2 * state.snap
            &&& 2 * state.snap - 7 * state.grid() < 7
        },
{
    let n = if state.tuplet > 7 {
        7
    } else {
        state.tuplet as int
    };
    if n > 1 {
        vstd::arithmetic::div_mod::lemma_fundamental_div_mod(state.snap * 2, n);
    }
}

/// A note that is pointed at is selected, alone, and its details are shown.
/// Notes that are selected otherwise are selected, and no others; details are
/// shown where there is one. Selecting changes no note.
pub proof fn what_is_selected_is_what_was_asked_for(
    state: StateView,
    index: usize,
    indices: Seq<usize>,
    k: usize,
)
    ensures
        state.with_single(index).selection.contains(k) <==> k == index,
        state.with_single(index).selected == Some(index),
        state.with_single(index).editor == state.editor,
        state.with_many(indices).selection.contains(k) <==> indices.contains(k),
        state.with_many(indices).selected is Some <==> indices.len() == 1,
        indices.len() == 1 ==> state.with_many(indices).selected == Some(indices[0]),
        state.with_many(indices).editor == state.editor,
        !state.with_none().selection.contains(k),
        state.with_none().selected is None,
        state.with_none().editor == state.editor,
{
    assert(seq![index][0] == index);
}

/// The notes of a lane are all that lie on it, and no others.
pub proof fn a_lane_selects_its_notes(
    notes: Seq<Note>,
    track: usize,
    lane: usize,
    count: int,
    k: usize,
)
    requires
        0 <= count <= notes.len(),
        count <= usize::MAX,
    ensures
        indices_on(notes, track, lane, count).contains(k) <==> k < count && notes[k as int].track
            == track && notes[k as int].lane == lane,
    decreases count,
{
    if count > 0 {
        a_lane_selects_its_notes(notes, track, lane, count - 1, k);
        let before = indices_on(notes, track, lane, count - 1);
        let now = indices_on(notes, track, lane, count);
        if now.contains(k) {
            let i = choose|i: int| 0 <= i < now.len() && now[i] == k;
            if i < before.len() {
                assert(before[i] == k);
            }
        }
        if before.contains(k) {
            let i = choose|i: int| 0 <= i < before.len() && before[i] == k;
            assert(now[i] == k);
        }
        if k == count - 1 && now.len() > before.len() {
            assert(now[before.len() as int] == k);
        }
    }
}

/// A new note takes over the pitch, the length and the velocity of the note it
/// is made after. The first of all is a sixteenth: sixteen of it are four
/// quarters.
pub proof fn a_new_note_is_made_after_another(note: Note)
    ensures
        NoteDefaults::of(note).semitone == note.semitone,
        NoteDefaults::of(note).octave == note.octave,
        NoteDefaults::of(note).duration == note.duration,
        NoteDefaults::of(note).velocity == note.velocity,
        16 * NoteDefaults::initial().duration == 4 * TICKS_PER_QUARTER,
{
}

/// A new editor holds a new sequence and has nothing selected, copied, dragged or
/// undone. Its grid is a sixteenth note, a quarter note is 80 pixels wide and a
/// lane 24 pixels high, and a new note is a sixteenth of velocity 100.
pub proof fn a_new_editor_is_at_rest()
    ensures
        ({
            let state = StateView::fresh();
            &&& state.editor == EditorView::fresh()
            &&& state.snap == 8400 && state.tuplet == 1
            &&& state.ppq == 80 * 1024 && state.row_h == 24 * 1024
            &&& state.selected is None && state.selection.len() == 0
            &&& state.note_clipboard.len() == 0
            &&& state.drag is None && state.middle_drag is None
            &&& state.history.undo.len() == 0 && state.history.redo.len() == 0
            &&& state.play_return is None && !state.was_playing
            &&& state.scroll_to is None && state.pending_scroll_x is None
            &&& state.lane_swap_source is None && state.lane_config_track is None
            &&& !state.left_resize && !state.looping && !state.track_last_note
            &&& state.dirty
            &&& state.last_note.semitone == 0 && state.last_note.octave == 4
            &&& state.last_note.duration == 8400 && state.last_note.velocity == 100
        }),
{
}

} // verus!
