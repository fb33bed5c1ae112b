//! What the mouse does on the grid.

use crate::canvas::{
    content_of, frame, frame_of, framed, framed_notes, hit_among, hit_note, row_at, row_at_height,
    screen_of, tick_at, tick_at_position, to_content_pos, to_screen_pos, Canvas, Hit, LANE_PARTS,
    RULER_HEIGHT,
};
use crate::edit::{deleted, run_of};
use crate::geometry::{
    a_dragged_end_lands_on_the_nearest_line, a_dragged_note_lands_on_the_nearest_line,
    a_dragged_start_lands_on_the_nearest_line, a_move_stays_inside, are_row_starts, cell_of_row,
    first_start, larger, move_delta, movement, offsets_of, resize_delta, resizing, row_of,
    row_to_track_lane, rows_fit, seek_target, sought, the_lane_of_a_row_leads_back,
    track_row_offsets,
};
use crate::history::EditGroup;
use crate::lanes::{lemma_row_start_grows, row_start};
use crate::sequencer::{EditorView, Note};
use crate::state::{DragKind, DragState, DragView, EditorState, NoteDefaults, StateView};
use crate::time::{
    is_nearest_line, minus, multiple_below, narrow, plus, round_quotient, rounded_quotient,
    saturate, snap_below, snapping_goes_to_the_nearest_line,
};
use vstd::prelude::*;

verus! {

/// The least width of the grid: an eighth of a sixteenth note.
pub const LEAST_GRID: i64 = 1050;

impl StateView {
    /// The number of rows.
    pub open spec fn rows(self) -> int {
        row_start(self.editor.tracks, self.editor.tracks.len() as int)
    }

    /// The number of rows that are shown; at least one.
    pub open spec fn shown_rows(self) -> int {
        larger(self.rows(), 1)
    }

    /// The width of the grid in operations; it is never too small.
    pub open spec fn step(self) -> int {
        larger(self.grid(), LEAST_GRID as int)
    }

    /// Whether the rows can be counted and the grid has a width.
    pub open spec fn is_laid_out(self) -> bool {
        &&& self.rows() <= i32::MAX
        &&& 0 <= self.snap <= i64::MAX / 2
    }

    /// The note that a position points at, and which part of it.
    pub open spec fn pointed(self, canvas: Canvas, pos: (i64, i64)) -> Option<(usize, Hit)> {
        hit_among(
            self.editor.notes,
            offsets_of(self.editor),
            canvas,
            pos.0 as int,
            pos.1 as int,
            self.left_resize,
            self.editor.notes.len() as int,
        )
    }

    /// The start of the note whose details are shown.
    pub open spec fn selected_start(self) -> Option<i64> {
        match self.selected {
            Some(index) if index < self.editor.notes.len() => Some(
                larger(self.editor.notes[index as int].start_tick as int, 0) as i64,
            ),
            _ => None,
        }
    }

    /// Where the playhead goes for a position.
    pub open spec fn sought_at(self, canvas: Canvas, x: i64, free: bool) -> i64 {
        sought(
            tick_at_position(canvas, x as int) as int,
            self.editor.beat(),
            self.selected_start(),
            free,
        )
    }
}

/// `indices` without `index`.
pub open spec fn others(indices: Seq<usize>, index: usize) -> Seq<usize>
    decreases indices.len(),
{
    if indices.len() == 0 {
        Seq::empty()
    } else if indices.last() == index {
        others(indices.drop_last(), index)
    } else {
        others(indices.drop_last(), index).push(indices.last())
    }
}

/// Notes with their numbers.
pub open spec fn numbered(notes: Seq<Note>, indices: Seq<usize>) -> Seq<(usize, Note)> {
    Seq::new(indices.len(), |i: int| (indices[i], notes[indices[i] as int]))
}

/// What grabbing a part of a note does.
pub open spec fn drag_of(part: Hit) -> DragKind {
    match part {
        Hit::Body => DragKind::Move,
        Hit::ResizeRight => DragKind::Resize { from_left: false },
        Hit::ResizeLeft => DragKind::Resize { from_left: true },
    }
}

impl StateView {
    /// Whether grabbing a note grabs the whole selection.
    pub open spec fn grabs_all(self, index: usize) -> bool {
        self.selection.len() > 1 && self.selection.contains(index)
    }

    /// The notes that are grabbed with a note. That one is the first.
    pub open spec fn grabbed_with(self, index: usize) -> Seq<(usize, Note)> {
        numbered(
            self.editor.notes,
            if self.grabs_all(index) {
                seq![index] + others(self.chosen(), index)
            } else {
                seq![index]
            },
        )
    }

    /// With a note grabbed. Where the selection is not grabbed as a whole, the
    /// note is selected.
    pub open spec fn holding(self, index: usize) -> StateView {
        if self.grabs_all(index) {
            self
        } else {
            self.with_single(index)
        }
    }

    /// With copies of notes at the end. The copies are selected, and what was
    /// there stays where it is.
    pub open spec fn with_copies(self, targets: Seq<(usize, Note)>) -> StateView {
        let count = self.editor.notes.len() as int;
        StateView {
            dirty: true,
            ..self.recorded(EditGroup::Move).with_notes(
                self.editor.notes + Seq::new(targets.len(), |i: int| targets[i].1),
            ).with_many(run_of(count, count + targets.len()))
        }
    }

    /// With a drag started.
    pub open spec fn dragging(self, drag: DragView) -> StateView {
        StateView { drag: Some(drag), ..self }
    }

    /// After a drag has started on a note. With `copy`, copies are dragged and
    /// not the notes; only where the middle of the note was grabbed.
    pub open spec fn grabbing(
        self,
        index: usize,
        part: Hit,
        copy: bool,
        origin: (i64, i64),
    ) -> StateView {
        let targets = self.grabbed_with(index);
        let held = self.holding(index);
        if part == Hit::Body && copy {
            let count = self.editor.notes.len() as int;
            held.with_copies(targets).dragging(
                DragView {
                    kind: drag_of(part),
                    targets: Seq::new(
                        targets.len(),
                        |i: int| ((count + i) as usize, targets[i].1),
                    ),
                    base_selection: Seq::empty(),
                    origin,
                },
            )
        } else {
            held.dragging(
                DragView {
                    kind: drag_of(part),
                    targets,
                    base_selection: Seq::empty(),
                    origin,
                },
            )
        }
    }

    /// After a drag has started at a position: on the ruler, on a note, or
    /// beside the notes.
    pub open spec fn drag_begun(self, canvas: Canvas, pos: (i64, i64), shift: bool) -> StateView {
        let origin = content_of(canvas, pos);
        if pos.1 < canvas.origin_y + RULER_HEIGHT {
            self.dragging(
                DragView {
                    kind: DragKind::Seek,
                    targets: Seq::empty(),
                    base_selection: Seq::empty(),
                    origin,
                },
            )
        } else {
            match self.pointed(canvas, pos) {
                Some((index, part)) => self.grabbing(index, part, shift, origin),
                None => self.dragging(
                    DragView {
                        kind: DragKind::Marquee,
                        targets: Seq::empty(),
                        base_selection: if shift {
                            self.chosen()
                        } else {
                            Seq::empty()
                        },
                        origin,
                    },
                ),
            }
        }
    }
}

/// What a position points at is one of the notes.
proof fn lemma_hit_is_a_note(
    notes: Seq<Note>,
    offsets: Seq<usize>,
    canvas: Canvas,
    x: int,
    y: int,
    left_resize: bool,
    count: int,
)
    requires
        0 <= count <= notes.len() <= usize::MAX,
    ensures
        hit_among(notes, offsets, canvas, x, y, left_resize, count) matches Some(hit) ==> hit.0
            < count,
    decreases count,
{
    if count > 0 {
        lemma_hit_is_a_note(notes, offsets, canvas, x, y, left_resize, count - 1);
    }
}

impl EditorState {
    /// The rows of the tracks.
    fn offsets(&self) -> (offsets: Vec<usize>)
        requires
            self@.is_laid_out(),
        ensures
            offsets@ == offsets_of(self@.editor),
            are_row_starts(offsets@, self@.editor),
    {
        track_row_offsets(&self.editor)
    }

    /// The number of rows that are shown.
    pub fn display_rows(&self) -> (rows: usize)
        requires
            self@.is_laid_out(),
        ensures
            rows == self@.shown_rows(),
            1 <= rows <= i32::MAX,
    {
        let rows: usize = self.editor.total_rows();
        if rows < 1 {
            1
        } else {
            rows
        }
    }

    /// The width of the grid in operations.
    pub fn grid_step(&self) -> (step: i64)
        requires
            self@.is_laid_out(),
        ensures
            step == self@.step(),
            step > 0,
    {
        let unit: i64 = self.snap_unit();
        if unit < LEAST_GRID {
            LEAST_GRID
        } else {
            unit
        }
    }

    /// The note that a position points at, and which part of it.
    pub fn point(&self, canvas: &Canvas, pos: (i64, i64)) -> (hit: Option<(usize, Hit)>)
        requires
            self@.is_laid_out(),
        ensures
            hit == self@.pointed(*canvas, pos),
            hit is Some ==> (hit->0).0 < self@.editor.notes.len(),
    {
        let offsets = self.offsets();
        let count: usize = self.editor.notes.len();
        proof {
            lemma_hit_is_a_note(
                self@.editor.notes,
                offsets@,
                *canvas,
                pos.0 as int,
                pos.1 as int,
                self.left_resize,
                count as int,
            );
        }
        hit_note(&self.editor.notes, &offsets, canvas, pos, self.left_resize)
    }

    /// Where the playhead goes for a position.
    pub fn seek_at(&self, canvas: &Canvas, x: i64, free: bool) -> (tick: i64)
        requires
            canvas.ppq > 0,
        ensures
            tick == self@.sought_at(*canvas, x, free),
    {
        let start: Option<i64> = match self.selected {
            Some(index) => {
                if index < self.editor.notes.len() {
                    let tick: i64 = self.editor.notes[index].start_tick;
                    Some(
                        if tick < 0 {
                            0
                        } else {
                            tick
                        },
                    )
                } else {
                    None
                }
            },
            None => None,
        };
        seek_target(tick_at(canvas, x), self.editor.ticks_per_beat(), start, free)
    }

    /// The notes that are grabbed with a note.
    fn grab(&self, index: usize) -> (targets: Vec<(usize, Note)>)
        requires
            index < self@.editor.notes.len(),
        ensures
            targets@ == self@.grabbed_with(index),
    {
        let mut targets: Vec<(usize, Note)> = vec![(index, self.editor.notes[index])];
        let all: bool = self.selection.len() > 1 && self.is_selected(index);
        if !all {
            assert(targets@ =~= self@.grabbed_with(index));
            return targets;
        }
        let chosen = self.selection_sorted();
        let count: usize = self.editor.notes.len();
        proof {
            crate::state::lemma_chosen(self@.selection, count as int);
        }
        let ghost first = targets@;
        let mut at: usize = 0;
        assert(numbered(self@.editor.notes, others(chosen@.take(0), index)) =~= Seq::empty());
        assert(first + Seq::<(usize, Note)>::empty() =~= first);
        while at < chosen.len()
            invariant
                at <= chosen@.len(),
                forall|i: int|
                    0 <= i < chosen@.len() ==> (#[trigger] chosen@[i]) < self@.editor.notes.len(),
                targets@ == first + numbered(
                    self@.editor.notes,
                    others(chosen@.take(at as int), index),
                ),
            decreases chosen@.len() - at,
        {
            let number: usize = chosen[at];
            let ghost done = others(chosen@.take(at as int), index);
            assert(chosen@.take(at + 1).drop_last() =~= chosen@.take(at as int));
            if number != index {
                targets.push((number, self.editor.notes[number]));
                assert(numbered(self@.editor.notes, done.push(number)) =~= numbered(
                    self@.editor.notes,
                    done,
                ).push((number, self@.editor.notes[number as int])));
                assert(targets@ =~= first + numbered(self@.editor.notes, done.push(number)));
            }
            at += 1;
        }
        proof {
            assert(chosen@.take(at as int) =~= chosen@);
            assert(targets@ =~= self@.grabbed_with(index));
        }
        targets
    }

    /// Puts copies of notes at the end, selects them, and hands them back with
    /// their numbers.
    fn copy_targets(&mut self, targets: &Vec<(usize, Note)>) -> (copies: Vec<(usize, Note)>)
        ensures
            final(self)@ == old(self)@.with_copies(targets@),
            copies@ == Seq::new(
                targets@.len(),
                |i: int| ((old(self)@.editor.notes.len() + i) as usize, targets@[i].1),
            ),
    {
        let ghost before = self@;
        self.history.record(EditGroup::Move);
        let first: usize = self.editor.notes.len();
        let mut copies: Vec<(usize, Note)> = Vec::new();
        let mut at: usize = 0;
        while at < targets.len()
            invariant
                at <= targets@.len(),
                first == before.editor.notes.len(),
                self@ == before.recorded(EditGroup::Move).with_notes(self@.editor.notes),
                self@.editor.notes == before.editor.notes + Seq::new(
                    at as nat,
                    |i: int| targets@[i].1,
                ),
                copies@ == Seq::new(
                    at as nat,
                    |i: int| ((before.editor.notes.len() + i) as usize, targets@[i].1),
                ),
            decreases targets@.len() - at,
        {
            let number: usize = self.editor.notes.len();
            let note = targets[at].1;
            self.editor.notes.push(note);
            copies.push((number, note));
            proof {
                assert(self@.editor.notes =~= before.editor.notes + Seq::new(
                    (at + 1) as nat,
                    |i: int| targets@[i].1,
                ));
                assert(copies@ =~= Seq::new(
                    (at + 1) as nat,
                    |i: int| ((before.editor.notes.len() + i) as usize, targets@[i].1),
                ));
                assert(self@ =~= before.recorded(EditGroup::Move).with_notes(self@.editor.notes));
            }
            at += 1;
        }
        let count: usize = self.editor.notes.len();
        self.select_many(crate::edit::number_run(first, count));
        self.dirty = true;
        assert(self@ =~= before.with_copies(targets@));
        copies
    }

    /// Starts a drag at a position: of the playhead on the ruler, of notes, or
    /// of a frame beside them.
    pub fn begin_drag(&mut self, canvas: &Canvas, pos: (i64, i64), shift: bool)
        requires
            old(self)@.is_laid_out(),
            canvas.ppq > 0,
            canvas.row_h > 0,
        ensures
            final(self)@ == old(self)@.drag_begun(*canvas, pos, shift),
    {
        let ghost before = self@;
        let origin: (i64, i64) = to_content_pos(canvas, pos);
        if (pos.1 as i128) < canvas.origin_y as i128 + RULER_HEIGHT as i128 {
            self.drag = Some(
                DragState {
                    kind: DragKind::Seek,
                    targets: Vec::new(),
                    base_selection: Vec::new(),
                    origin,
                },
            );
            assert(self@ =~= before.drag_begun(*canvas, pos, shift));
            return;
        }
        match self.point(canvas, pos) {
            Some((index, part)) => {
                let mut targets = self.grab(index);
                let all: bool = self.selection.len() > 1 && self.is_selected(index);
                if !all {
                    self.select_single(index);
                }
                let kind = match part {
                    Hit::Body => DragKind::Move,
                    Hit::ResizeRight => DragKind::Resize { from_left: false },
                    Hit::ResizeLeft => DragKind::Resize { from_left: true },
                };
                if part == Hit::Body && shift {
                    targets = self.copy_targets(&targets);
                }
                self.drag = Some(
                    DragState { kind, targets, base_selection: Vec::new(), origin },
                );
            },
            None => {
                let base_selection = if shift {
                    self.selection_sorted()
                } else {
                    Vec::new()
                };
                self.drag = Some(
                    DragState {
                        kind: DragKind::Marquee,
                        targets: Vec::new(),
                        base_selection,
                        origin,
                    },
                );
            },
        }
        assert(self@ =~= before.drag_begun(*canvas, pos, shift));
    }
}

/// A note after a move.
pub open spec fn moved_note(
    note: Note,
    offsets: Seq<usize>,
    editor: EditorView,
    dx: i64,
    d_row: int,
) -> Note {
    let (track, lane) = cell_of_row(offsets, editor, larger(row_of(offsets, note) + d_row, 0));
    Note {
        start_tick: larger(saturate(note.start_tick + dx) as int, 0) as i64,
        track,
        lane,
        ..note
    }
}

/// A note after one of its ends was moved.
pub open spec fn resized_note(note: Note, dx: i64, from_left: bool) -> Note {
    if from_left {
        Note {
            start_tick: saturate(note.start_tick + dx),
            duration: saturate(note.duration - dx),
            ..note
        }
    } else {
        Note { duration: saturate(note.duration + dx), ..note }
    }
}

/// All targets after a move.
pub open spec fn moved_targets(
    targets: Seq<(usize, Note)>,
    offsets: Seq<usize>,
    editor: EditorView,
    dx: i64,
    d_row: int,
) -> Seq<(usize, Note)> {
    Seq::new(
        targets.len(),
        |i: int| (targets[i].0, moved_note(targets[i].1, offsets, editor, dx, d_row)),
    )
}

/// All targets after their ends were moved.
pub open spec fn resized_targets(
    targets: Seq<(usize, Note)>,
    dx: i64,
    from_left: bool,
) -> Seq<(usize, Note)> {
    Seq::new(
        targets.len(),
        |i: int| (targets[i].0, resized_note(targets[i].1, dx, from_left)),
    )
}

/// `notes` with the targets put in their places.
pub open spec fn put_back(notes: Seq<Note>, targets: Seq<(usize, Note)>) -> Seq<Note>
    decreases targets.len(),
{
    if targets.len() == 0 {
        notes
    } else {
        put_back(notes, targets.drop_last()).update(targets.last().0 as int, targets.last().1)
    }
}

/// How many rows down a drag has gone, to the nearest row.
pub open spec fn rows_down(from: i64, to: i64) -> i32 {
    let rows = rounded_quotient(to - from, LANE_PARTS as int);
    if rows < i32::MIN {
        i32::MIN
    } else if rows > i32::MAX {
        i32::MAX
    } else {
        rows as i32
    }
}

impl StateView {
    /// Whether the drag's targets are notes, in rows that are there.
    pub open spec fn targets_fit(self, drag: DragView) -> bool {
        &&& forall|i: int|
            0 <= i < drag.targets.len() ==> (#[trigger] drag.targets[i]).0
                < self.editor.notes.len()
        &&& rows_fit(drag.targets, offsets_of(self.editor), self.shown_rows())
    }

    /// After notes were dragged by an amount. It counts from where they were at
    /// the start of the drag.
    pub open spec fn moved(self, drag: DragView, dx_raw: int, d_row_raw: int) -> StateView {
        let offsets = offsets_of(self.editor);
        let (dx, d_row) = movement(
            drag.targets,
            offsets,
            self.editor,
            dx_raw,
            d_row_raw,
            self.step(),
            self.shown_rows(),
        );
        let placed = self.with_notes(
            put_back(
                self.editor.notes,
                moved_targets(drag.targets, offsets, self.editor, dx, d_row),
            ),
        );
        if dx != 0 || d_row != 0 {
            placed.recorded(EditGroup::Move)
        } else {
            placed
        }
    }

    /// After ends of notes were dragged by an amount.
    pub open spec fn resized(self, drag: DragView, dx_raw: int, from_left: bool) -> StateView {
        let dx = resizing(drag.targets, dx_raw, self.step(), from_left);
        let placed = self.with_notes(
            put_back(self.editor.notes, resized_targets(drag.targets, dx, from_left)),
        );
        if dx != 0 {
            placed.recorded(EditGroup::Resize)
        } else {
            placed
        }
    }

    /// After the pointer was dragged to a position, and where the playhead goes.
    pub open spec fn dragged_to(
        self,
        canvas: Canvas,
        pos: (i64, i64),
        free: bool,
    ) -> (StateView, Option<i64>) {
        match self.drag {
            None => (self, None),
            Some(drag) => {
                let content = content_of(canvas, pos);
                let dx_raw = saturate(content.0 - drag.origin.0) as int;
                match drag.kind {
                    DragKind::Seek => (self, Some(self.sought_at(canvas, pos.0, free))),
                    DragKind::Move => (
                        self.moved(drag, dx_raw, rows_down(drag.origin.1, content.1) as int),
                        None,
                    ),
                    DragKind::Resize { from_left } => (
                        self.resized(drag, dx_raw, from_left),
                        None,
                    ),
                    DragKind::Marquee => (
                        self.with_many(
                            framed(
                                self.editor.notes,
                                offsets_of(self.editor),
                                canvas,
                                frame_of(screen_of(canvas, drag.origin), pos),
                                drag.base_selection,
                                self.editor.notes.len() as int,
                            ),
                        ),
                        None,
                    ),
                }
            },
        }
    }

    /// After a drag has ended.
    pub open spec fn drag_ended(self) -> StateView {
        match self.drag {
            None => self,
            Some(drag) => StateView {
                drag: None,
                dirty: self.dirty || drag.kind is Move || drag.kind is Resize,
                history: crate::history::HistoryView { group: None, ..self.history },
                ..self
            },
        }
    }
}

/// How many rows down a drag has gone, to the nearest row.
fn count_rows(from: i64, to: i64) -> (rows: i32)
    ensures
        rows == rows_down(from, to),
{
    let rows: i128 = round_quotient(to as i128 - from as i128, LANE_PARTS as i128);
    if rows < i32::MIN as i128 {
        i32::MIN
    } else if rows > i32::MAX as i128 {
        i32::MAX
    } else {
        rows as i32
    }
}

/// Puts a note in its place.
fn put_note(notes: &mut Vec<Note>, index: usize, note: Note)
    requires
        index < old(notes)@.len(),
    ensures
        final(notes)@ == old(notes)@.update(index as int, note),
{
    notes.set(index, note);
}

proof fn lemma_put_back_len(notes: Seq<Note>, targets: Seq<(usize, Note)>)
    requires
        forall|i: int| 0 <= i < targets.len() ==> (#[trigger] targets[i]).0 < notes.len(),
    ensures
        put_back(notes, targets).len() == notes.len(),
    decreases targets.len(),
{
    if targets.len() > 0 {
        let shorter = targets.drop_last();
        assert forall|i: int| 0 <= i < shorter.len() implies (#[trigger] shorter[i]).0
            < notes.len() by {
            assert(targets[i].0 < notes.len());
        }
        assert(targets[targets.len() - 1].0 < notes.len());
        lemma_put_back_len(notes, shorter);
    }
}

/// Whether a drag is noted in the state makes no difference to what it does.
proof fn lemma_drag_is_carried_along(state: StateView, drag: DragView, dx_raw: int, d_row_raw: int)
    ensures
        (StateView { drag: None, ..state }).moved(drag, dx_raw, d_row_raw) == (StateView {
            drag: None,
            ..state.moved(drag, dx_raw, d_row_raw)
        }),
        state.moved(drag, dx_raw, d_row_raw).drag == state.drag,
        (StateView { drag: None, ..state }).resized(drag, dx_raw, true) == (StateView {
            drag: None,
            ..state.resized(drag, dx_raw, true)
        }),
        state.resized(drag, dx_raw, true).drag == state.drag,
        (StateView { drag: None, ..state }).resized(drag, dx_raw, false) == (StateView {
            drag: None,
            ..state.resized(drag, dx_raw, false)
        }),
        state.resized(drag, dx_raw, false).drag == state.drag,
{
}

impl EditorState {
    fn drag_move(&mut self, targets: &Vec<(usize, Note)>, dx_raw: i64, d_row_raw: i32)
        requires
            old(self)@.is_laid_out(),
            forall|i: int|
                0 <= i < targets@.len() ==> (#[trigger] targets@[i]).0
                    < old(self)@.editor.notes.len(),
            rows_fit(targets@, offsets_of(old(self)@.editor), old(self)@.shown_rows()),
        ensures
            forall|drag: DragView|
                drag.targets == targets@ ==> final(self)@ == #[trigger] old(self)@.moved(
                    drag,
                    dx_raw as int,
                    d_row_raw as int,
                ),
    {
        let ghost before = self@;
        let offsets = self.offsets();
        let rows: usize = self.display_rows();
        let step: i64 = self.grid_step();
        let (dx, d_row): (i64, i32) = move_delta(
            targets,
            &offsets,
            &self.editor,
            dx_raw,
            d_row_raw,
            step,
            rows,
        );
        let ghost moved = moved_targets(targets@, offsets@, before.editor, dx, d_row as int);
        assert(moved.take(0) =~= Seq::empty());
        let mut at: usize = 0;
        while at < targets.len()
            invariant
                at <= targets@.len(),
                moved == moved_targets(targets@, offsets@, before.editor, dx, d_row as int),
                forall|i: int|
                    0 <= i < targets@.len() ==> (#[trigger] targets@[i]).0
                        < before.editor.notes.len(),
                rows_fit(targets@, offsets@, rows as int),
                rows <= i32::MAX,
                self@ == before.with_notes(put_back(before.editor.notes, moved.take(at as int))),
            decreases targets@.len() - at,
        {
            let (index, first): (usize, Note) = targets[at];
            proof {
                assert(row_of(offsets@, targets@[at as int].1) < rows);
                assert(targets@[at as int].0 < before.editor.notes.len());
            }
            let down: i64 = crate::geometry::note_row(&offsets, &first) as i64 + d_row as i64;
            let row: usize = if down < 0 {
                0
            } else {
                down as usize
            };
            let (track, lane): (usize, usize) = row_to_track_lane(&offsets, &self.editor, row);
            proof {
                assert(cell_of_row(offsets@, self@.editor, row as int) == cell_of_row(
                    offsets@,
                    before.editor,
                    row as int,
                )) by {
                    lemma_cells_need_no_notes(
                        offsets@,
                        self@.editor,
                        before.editor,
                        row as int,
                        offsets@.len() as int,
                    );
                }
            }
            let start: i64 = plus(first.start_tick, dx);
            let note = Note {
                start_tick: if start < 0 {
                    0
                } else {
                    start
                },
                track,
                lane,
                ..first
            };
            proof {
                lemma_put_back_len(before.editor.notes, moved.take(at as int));
                assert(note == moved[at as int].1);
                assert(moved.take(at + 1).drop_last() =~= moved.take(at as int));
            }
            put_note(&mut self.editor.notes, index, note);
            assert(self@ =~= before.with_notes(
                put_back(before.editor.notes, moved.take(at + 1)),
            ));
            at += 1;
        }
        assert(moved.take(at as int) =~= moved);
        if dx != 0 || d_row != 0 {
            self.history.record(EditGroup::Move);
        }
    }

    fn drag_resize(&mut self, targets: &Vec<(usize, Note)>, dx_raw: i64, from_left: bool)
        requires
            old(self)@.is_laid_out(),
            forall|i: int|
                0 <= i < targets@.len() ==> (#[trigger] targets@[i]).0
                    < old(self)@.editor.notes.len(),
        ensures
            forall|drag: DragView|
                drag.targets == targets@ ==> final(self)@ == #[trigger] old(self)@.resized(
                    drag,
                    dx_raw as int,
                    from_left,
                ),
    {
        let ghost before = self@;
        let step: i64 = self.grid_step();
        let dx: i64 = resize_delta(targets, dx_raw, step, from_left);
        let ghost resized = resized_targets(targets@, dx, from_left);
        assert(resized.take(0) =~= Seq::empty());
        let mut at: usize = 0;
        while at < targets.len()
            invariant
                at <= targets@.len(),
                resized == resized_targets(targets@, dx, from_left),
                forall|i: int|
                    0 <= i < targets@.len() ==> (#[trigger] targets@[i]).0
                        < before.editor.notes.len(),
                self@ == before.with_notes(put_back(before.editor.notes, resized.take(at as int))),
            decreases targets@.len() - at,
        {
            let (index, first): (usize, Note) = targets[at];
            assert(targets@[at as int].0 < before.editor.notes.len());
            let note = if from_left {
                Note {
                    start_tick: plus(first.start_tick, dx),
                    duration: minus(first.duration, dx),
                    ..first
                }
            } else {
                Note { duration: plus(first.duration, dx), ..first }
            };
            proof {
                lemma_put_back_len(before.editor.notes, resized.take(at as int));
                assert(note == resized[at as int].1);
                assert(resized.take(at + 1).drop_last() =~= resized.take(at as int));
            }
            put_note(&mut self.editor.notes, index, note);
            assert(self@ =~= before.with_notes(
                put_back(before.editor.notes, resized.take(at + 1)),
            ));
            at += 1;
        }
        assert(resized.take(at as int) =~= resized);
        if dx != 0 {
            self.history.record(EditGroup::Resize);
        }
    }

    fn drag_frame(&mut self, canvas: &Canvas, drag: &DragState, pos: (i64, i64))
        requires
            old(self)@.is_laid_out(),
        ensures
            final(self)@ == old(self)@.with_many(
                framed(
                    old(self)@.editor.notes,
                    offsets_of(old(self)@.editor),
                    *canvas,
                    frame_of(screen_of(*canvas, drag@.origin), pos),
                    drag@.base_selection,
                    old(self)@.editor.notes.len() as int,
                ),
            ),
    {
        let offsets = self.offsets();
        let around = frame(to_screen_pos(canvas, drag.origin), pos);
        let selection = framed_notes(
            &self.editor.notes,
            &offsets,
            canvas,
            &around,
            &drag.base_selection,
        );
        self.select_many(selection);
    }

    /// Goes on with a drag at a position. On the ruler, returns where the
    /// playhead goes.
    #[verifier::rlimit(60)]
    #[verifier::spinoff_prover]
    pub fn drag_to(&mut self, canvas: &Canvas, pos: (i64, i64), free: bool) -> (seek: Option<i64>)
        requires
            old(self)@.is_laid_out(),
            canvas.ppq > 0,
            canvas.row_h > 0,
            old(self)@.drag is Some ==> old(self)@.targets_fit(old(self)@.drag->0),
        ensures
            (final(self)@, seek) == old(self)@.dragged_to(*canvas, pos, free),
    {
        let ghost before = self@;
        match self.drag.take() {
            None => {
                assert(self@ =~= before);
                None
            },
            Some(drag) => {
                let ghost without = self@;
                assert(without =~= StateView { drag: None, ..before });
                let content: (i64, i64) = to_content_pos(canvas, pos);
                let dx_raw: i64 = minus(content.0, drag.origin.0);
                let kind = drag.kind;
                let mut seek: Option<i64> = None;
                match kind {
                    DragKind::Seek => {
                        seek = Some(self.seek_at(canvas, pos.0, free));
                    },
                    DragKind::Move => {
                        let d_row_raw: i32 = count_rows(drag.origin.1, content.1);
                        self.drag_move(&drag.targets, dx_raw, d_row_raw);
                        proof {
                            assert(self@ == without.moved(
                                drag@,
                                dx_raw as int,
                                d_row_raw as int,
                            ));
                            lemma_drag_is_carried_along(
                                before,
                                drag@,
                                dx_raw as int,
                                d_row_raw as int,
                            );
                        }
                    },
                    DragKind::Resize { from_left } => {
                        self.drag_resize(&drag.targets, dx_raw, from_left);
                        proof {
                            assert(self@ == without.resized(drag@, dx_raw as int, from_left));
                            lemma_drag_is_carried_along(before, drag@, dx_raw as int, 0);
                        }
                    },
                    DragKind::Marquee => {
                        self.drag_frame(canvas, &drag, pos);
                    },
                }
                let ghost after = self@;
                self.drag = Some(drag);
                proof {
                    assert(self@ =~= StateView { drag: Some(drag@), ..after });
                    assert(self@ =~= before.dragged_to(*canvas, pos, free).0);
                }
                seek
            },
        }
    }

    /// Ends a drag. What was moved or resized must be sent on.
    pub fn end_drag(&mut self)
        ensures
            final(self)@ == old(self)@.drag_ended(),
    {
        let ghost before = self@;
        match self.drag.take() {
            None => {
                assert(self@ =~= before);
            },
            Some(drag) => {
                match drag.kind {
                    DragKind::Move | DragKind::Resize { .. } => {
                        self.dirty = true;
                    },
                    _ => {},
                }
                self.history.end_group();
                assert(self@ =~= before.drag_ended());
            },
        }
    }
}

/// The cells of the rows depend on the tracks alone.
proof fn lemma_cells_need_no_notes(
    offsets: Seq<usize>,
    a: EditorView,
    b: EditorView,
    row: int,
    count: int,
)
    requires
        a.tracks == b.tracks,
    ensures
        crate::geometry::cell_among(offsets, a, row, count) == crate::geometry::cell_among(
            offsets,
            b,
            row,
            count,
        ),
    decreases count,
{
    if count > 0 {
        lemma_cells_need_no_notes(offsets, a, b, row, count - 1);
    }
}

/// `indices` with `index` taken out where it is there, and put at the end where
/// it is not.
pub open spec fn toggled(indices: Seq<usize>, index: usize) -> Seq<usize> {
    if indices.contains(index) {
        others(indices, index)
    } else {
        indices.push(index)
    }
}

impl StateView {
    /// After a click beside the ruler: with shift, the note goes into the
    /// selection or out of it; otherwise it is selected alone.
    pub open spec fn clicked(self, canvas: Canvas, pos: (i64, i64), shift: bool) -> StateView {
        match self.pointed(canvas, pos) {
            Some((index, _)) => {
                if shift {
                    self.with_many(toggled(self.chosen(), index))
                } else {
                    self.with_single(index)
                }
            },
            None => self.with_none(),
        }
    }

    /// The note that a double click makes.
    pub open spec fn new_note(self, canvas: Canvas, pos: (i64, i64)) -> Note {
        let (track, lane) = cell_of_row(
            offsets_of(self.editor),
            self.editor,
            row_at_height(canvas, self.shown_rows(), pos.1 as int),
        );
        Note {
            start_tick: larger(
                saturate(
                    multiple_below(tick_at_position(canvas, pos.0 as int) as int, self.step()),
                ) as int,
                0,
            ) as i64,
            duration: (if self.tuplet > 1 {
                self.step()
            } else {
                larger(self.last_note.duration as int, self.step())
            }) as i64,
            semitone: self.last_note.semitone,
            octave: self.last_note.octave,
            velocity: self.last_note.velocity,
            velocity_to: self.last_note.velocity,
            track,
            lane,
        }
    }

    /// Whether a double click makes a note: on the lanes, beside the notes.
    pub open spec fn makes_note(self, canvas: Canvas, pos: (i64, i64)) -> bool {
        &&& canvas.origin_y + RULER_HEIGHT <= pos.1
        &&& pos.1 < canvas.origin_y + RULER_HEIGHT + self.shown_rows() * canvas.row_h
        &&& self.pointed(canvas, pos) is None
    }

    /// After a double click.
    pub open spec fn double_clicked(self, canvas: Canvas, pos: (i64, i64)) -> StateView {
        if self.makes_note(canvas, pos) {
            StateView {
                dirty: true,
                ..self.recorded(EditGroup::Once).with_notes(
                    self.editor.notes.push(self.new_note(canvas, pos)),
                ).with_single(self.editor.notes.len() as usize)
            }
        } else {
            self
        }
    }

    /// After a click with the other button: a selected note goes with the whole
    /// selection, another one alone.
    pub open spec fn secondary_clicked(self, canvas: Canvas, pos: (i64, i64)) -> StateView {
        match self.pointed(canvas, pos) {
            None => self,
            Some((index, _)) => StateView {
                dirty: true,
                ..if self.selection.contains(index) {
                    deleted(self.recorded(EditGroup::Once))
                } else {
                    self.recorded(EditGroup::Once).with_notes(
                        self.editor.notes.remove(index as int),
                    ).with_none()
                }
            },
        }
    }

    /// After the note that the user points at has been remembered.
    pub open spec fn remembering(self) -> StateView {
        if self.track_last_note {
            match self.selected {
                Some(index) if index < self.editor.notes.len() => StateView {
                    last_note: NoteDefaults::of(self.editor.notes[index as int]),
                    ..self
                },
                _ => self,
            }
        } else {
            self
        }
    }
}

/// Takes a number out, or puts it at the end.
fn toggle(indices: &Vec<usize>, index: usize) -> (changed: Vec<usize>)
    ensures
        changed@ == toggled(indices@, index),
{
    let mut kept: Vec<usize> = Vec::new();
    let mut found: bool = false;
    let mut at: usize = 0;
    assert(others(indices@.take(0), index) =~= Seq::empty());
    while at < indices.len()
        invariant
            at <= indices@.len(),
            kept@ == others(indices@.take(at as int), index),
            found == indices@.take(at as int).contains(index),
            !found ==> kept@ == indices@.take(at as int),
        decreases indices@.len() - at,
    {
        let number: usize = indices[at];
        proof {
            let before = indices@.take(at as int);
            let now = indices@.take(at + 1);
            assert(now.drop_last() =~= before);
            assert(now =~= before.push(number));
            if before.contains(index) {
                let k = choose|k: int| 0 <= k < before.len() && before[k] == index;
                assert(now[k] == index);
            }
            if number == index {
                assert(now[at as int] == index);
            }
            if now.contains(index) && number != index {
                let k = choose|k: int| 0 <= k < now.len() && now[k] == index;
                assert(before[k] == index);
            }
        }
        if number == index {
            found = true;
        } else {
            kept.push(number);
        }
        at += 1;
    }
    assert(indices@.take(at as int) =~= indices@);
    if !found {
        kept.push(index);
    }
    kept
}

impl EditorState {
    /// A click. On the ruler, returns where the playhead goes; elsewhere it
    /// selects.
    pub fn click(&mut self, canvas: &Canvas, pos: (i64, i64), shift: bool, free: bool) -> (seek:
        Option<i64>)
        requires
            old(self)@.is_laid_out(),
            canvas.ppq > 0,
        ensures
            pos.1 < canvas.origin_y + RULER_HEIGHT ==> final(self)@ == old(self)@ && seek == Some(
                old(self)@.sought_at(*canvas, pos.0, free),
            ),
            pos.1 >= canvas.origin_y + RULER_HEIGHT ==> final(self)@ == old(self)@.clicked(
                *canvas,
                pos,
                shift,
            ) && seek is None,
    {
        if (pos.1 as i128) < canvas.origin_y as i128 + RULER_HEIGHT as i128 {
            return Some(self.seek_at(canvas, pos.0, free));
        }
        match self.point(canvas, pos) {
            Some((index, _)) => {
                if shift {
                    let chosen = self.selection_sorted();
                    self.select_many(toggle(&chosen, index));
                } else {
                    self.select_single(index);
                }
            },
            None => {
                self.clear_selection();
            },
        }
        None
    }

    /// A double click: makes a note where there is none. It takes over what was
    /// last pointed at, and in tuplet mode is as long as the grid is wide.
    pub fn double_click(&mut self, canvas: &Canvas, pos: (i64, i64))
        requires
            old(self)@.is_laid_out(),
            canvas.ppq > 0,
            canvas.row_h > 0,
        ensures
            final(self)@ == old(self)@.double_clicked(*canvas, pos),
    {
        let ghost before = self@;
        let rows: usize = self.display_rows();
        proof {
            let row_h = canvas.row_h;
            assert(0 <= rows * row_h <= 0x4000_0000_0000_0000) by (nonlinear_arith)
                requires
                    0 <= rows <= 0x7fff_ffff,
                    0 <= row_h <= 0x7fff_ffff,
            ;
        }
        let content_h: i64 = RULER_HEIGHT + rows as i64 * canvas.row_h as i64;
        if !crate::canvas::is_inside_lanes(canvas.origin_y, pos.1, content_h) {
            return;
        }
        if self.point(canvas, pos).is_some() {
            return;
        }
        let offsets = self.offsets();
        let (track, lane): (usize, usize) = row_to_track_lane(
            &offsets,
            &self.editor,
            row_at(canvas, rows, pos.1),
        );
        let step: i64 = self.grid_step();
        let start: i64 = narrow(snap_below(tick_at(canvas, pos.0), step));
        let defaults = self.last_note;
        let duration: i64 = if self.tuplet > 1 || defaults.duration < step {
            step
        } else {
            defaults.duration
        };
        self.history.record(EditGroup::Once);
        let index: usize = self.editor.notes.len();
        let note = Note {
            start_tick: if start < 0 {
                0
            } else {
                start
            },
            duration,
            semitone: defaults.semitone,
            octave: defaults.octave,
            velocity: defaults.velocity,
            velocity_to: defaults.velocity,
            track,
            lane,
        };
        assert(note == before.new_note(*canvas, pos));
        self.editor.notes.push(note);
        assert(self@ =~= before.recorded(EditGroup::Once).with_notes(
            before.editor.notes.push(note),
        ));
        self.select_single(index);
        self.dirty = true;
        assert(self@ =~= before.double_clicked(*canvas, pos));
    }

    /// A click with the other button: deletes the note, or the selection that
    /// it belongs to.
    pub fn secondary_click(&mut self, canvas: &Canvas, pos: (i64, i64))
        requires
            old(self)@.is_laid_out(),
        ensures
            final(self)@ == old(self)@.secondary_clicked(*canvas, pos),
    {
        let ghost before = self@;
        match self.point(canvas, pos) {
            None => {},
            Some((index, _)) => {
                self.history.record(EditGroup::Once);
                let ghost recorded = before.recorded(EditGroup::Once);
                assert(self@ =~= recorded);
                if self.is_selected(index) {
                    self.delete_selection();
                } else {
                    self.editor.notes.remove(index);
                    assert(self@ =~= recorded.with_notes(
                        before.editor.notes.remove(index as int),
                    ));
                    self.clear_selection();
                }
                self.dirty = true;
                assert(self@ =~= before.secondary_clicked(*canvas, pos));
            },
        }
    }

    /// Remembers the note that the user points at for the next new note. When
    /// nothing is pointed at, what was remembered stays.
    pub fn remember_note(&mut self)
        ensures
            final(self)@ == old(self)@.remembering(),
    {
        if self.track_last_note {
            match self.selected {
                Some(index) => {
                    if index < self.editor.notes.len() {
                        self.last_note = NoteDefaults::from_note(&self.editor.notes[index]);
                    }
                },
                None => {},
            }
        }
    }
}

/// Notes that are moved together keep their distances, in time and in rows, and
/// change in nothing else.
pub proof fn a_move_keeps_distances(
    targets: Seq<(usize, Note)>,
    offsets: Seq<usize>,
    editor: EditorView,
    dx_raw: int,
    d_row_raw: int,
    snap: int,
    i: int,
)
    requires
        are_row_starts(offsets, editor),
        editor.tracks.len() <= usize::MAX,
        first_start(targets) > i64::MIN,
        rows_fit(targets, offsets, row_start(editor.tracks, editor.tracks.len() as int)),
        0 <= i < targets.len(),
        targets[i].1.start_tick + movement(
            targets,
            offsets,
            editor,
            dx_raw,
            d_row_raw,
            snap,
            row_start(editor.tracks, editor.tracks.len() as int),
        ).0 <= i64::MAX,
    ensures
        ({
            let rows = row_start(editor.tracks, editor.tracks.len() as int);
            let (dx, d_row) = movement(targets, offsets, editor, dx_raw, d_row_raw, snap, rows);
            let before = targets[i].1;
            let after = moved_note(before, offsets, editor, dx, d_row);
            &&& after.start_tick == before.start_tick + dx
            &&& row_of(offsets, after) == row_of(offsets, before) + d_row
            &&& after == (Note {
                start_tick: after.start_tick,
                track: after.track,
                lane: after.lane,
                ..before
            })
        }),
{
    let rows = row_start(editor.tracks, editor.tracks.len() as int);
    let (dx, d_row) = movement(targets, offsets, editor, dx_raw, d_row_raw, snap, rows);
    a_move_stays_inside(targets, offsets, editor, dx_raw, d_row_raw, snap, rows, i);
    the_lane_of_a_row_leads_back(offsets, editor, row_of(offsets, targets[i].1) + d_row);
}

/// Resizing at the left keeps the end of a note, and resizing at the right its
/// start.
pub proof fn a_resize_keeps_the_other_end(note: Note, dx: i64)
    requires
        i64::MIN <= note.start_tick + dx <= i64::MAX,
        i64::MIN <= note.duration - dx <= i64::MAX,
    ensures
        resized_note(note, dx, true).end() == note.end(),
        resized_note(note, dx, false).start_tick == note.start_tick,
{
}

/// A drag changes its targets and no other note.
pub proof fn a_drag_leaves_other_notes_alone(
    notes: Seq<Note>,
    targets: Seq<(usize, Note)>,
    k: int,
)
    requires
        forall|i: int| 0 <= i < targets.len() ==> (#[trigger] targets[i]).0 < notes.len(),
        forall|i: int| 0 <= i < targets.len() ==> (#[trigger] targets[i]).0 != k,
        0 <= k < notes.len(),
    ensures
        put_back(notes, targets).len() == notes.len(),
        put_back(notes, targets)[k] == notes[k],
    decreases targets.len(),
{
    lemma_put_back_len(notes, targets);
    if targets.len() > 0 {
        let shorter = targets.drop_last();
        assert forall|i: int| 0 <= i < shorter.len() implies (#[trigger] shorter[i]).0
            < notes.len() && shorter[i].0 != k by {
            assert(targets[i].0 < notes.len());
        }
        lemma_put_back_len(notes, shorter);
        a_drag_leaves_other_notes_alone(notes, shorter, k);
    }
}

/// Dragging copies leaves the notes themselves as they are, and selects the
/// copies alone.
pub proof fn copying_leaves_the_notes_in_place(
    state: StateView,
    index: usize,
    origin: (i64, i64),
    k: int,
)
    requires
        0 <= k < state.editor.notes.len(),
    ensures
        ({
            let after = state.grabbing(index, Hit::Body, true, origin);
            &&& after.editor.notes[k] == state.editor.notes[k]
            &&& after.editor.notes.len() == state.editor.notes.len() + state.grabbed_with(
                index,
            ).len()
            &&& after.selection == run_of(
                state.editor.notes.len() as int,
                after.editor.notes.len() as int,
            )
        }),
{
}

proof fn lemma_others_of_absent(indices: Seq<usize>, index: usize)
    requires
        !indices.contains(index),
    ensures
        others(indices, index) == indices,
    decreases indices.len(),
{
    if indices.len() > 0 {
        let shorter = indices.drop_last();
        assert(indices[indices.len() - 1] != index);
        assert forall|i: int| 0 <= i < shorter.len() implies shorter[i] != index by {
            assert(indices[i] != index);
        }
        lemma_others_of_absent(shorter, index);
        assert(shorter.push(indices.last()) =~= indices);
    } else {
        assert(others(indices, index) =~= indices);
    }
}

/// Putting a note into the selection and taking it out again changes nothing.
pub proof fn toggling_twice_changes_nothing(indices: Seq<usize>, index: usize)
    requires
        !indices.contains(index),
    ensures
        toggled(toggled(indices, index), index) == indices,
{
    let with = indices.push(index);
    assert(with[indices.len() as int] == index);
    assert(with.drop_last() =~= indices);
    lemma_others_of_absent(indices, index);
}

/// A new note starts on the grid, is at least as long as the grid is wide, and
/// lies on the lane that was pointed at.
pub proof fn a_new_note_lies_on_the_grid(state: StateView, canvas: Canvas, pos: (i64, i64))
    requires
        state.is_laid_out(),
        state.rows() > 0,
        state.editor.tracks.len() <= usize::MAX,
        canvas.ppq > 0,
        canvas.row_h > 0,
        pos.0 >= canvas.origin_x,
    ensures
        ({
            let note = state.new_note(canvas, pos);
            &&& note.start_tick as int % state.step() == 0
            &&& note.start_tick <= tick_at_position(canvas, pos.0 as int) < note.start_tick
                + state.step()
            &&& note.duration >= state.step()
            &&& row_of(offsets_of(state.editor), note) == row_at_height(
                canvas,
                state.rows(),
                pos.1 as int,
            )
        }),
{
    let tick = tick_at_position(canvas, pos.0 as int) as int;
    let step = state.step();
    let across = (pos.0 - canvas.origin_x) * 33600;
    assert(across / (canvas.ppq as int) >= 0) by (nonlinear_arith)
        requires
            across >= 0,
            canvas.ppq > 0,
    ;
    let count = tick / step;
    assert(0 <= count * step <= tick < count * step + step) by (nonlinear_arith)
        requires
            count == tick / step,
            step > 0,
            tick >= 0,
    ;
    vstd::arithmetic::div_mod::lemma_mod_multiples_basic(count, step);
    let grid = state.grid();
    assert(grid <= i64::MAX) by {
        if state.tuplet > 1 {
            let n = if state.tuplet > 7 {
                7
            } else {
                state.tuplet as int
            };
            let wide = state.snap * 2;
            assert(wide / n <= wide) by (nonlinear_arith)
                requires
                    n >= 1,
                    wide >= 0,
            ;
        }
    }
    lemma_row_start_grows(
        state.editor.tracks,
        state.editor.tracks.len() as int,
        state.editor.tracks.len() as int,
    );
    let offsets = offsets_of(state.editor);
    assert forall|t: int| 0 <= t < offsets.len() implies #[trigger] offsets[t] == row_start(
        state.editor.tracks,
        t,
    ) by {
        lemma_row_start_grows(state.editor.tracks, t, state.editor.tracks.len() as int);
    }
    the_lane_of_a_row_leads_back(
        offsets,
        state.editor,
        row_at_height(canvas, state.rows(), pos.1 as int),
    );
}

/// Whether the targets of a drag are different notes of a sequence.
pub open spec fn are_targets(notes: Seq<Note>, targets: Seq<(usize, Note)>) -> bool {
    &&& forall|i: int| 0 <= i < targets.len() ==> (#[trigger] targets[i]).0 < notes.len()
    &&& forall|i: int, j: int|
        #![trigger targets[i], targets[j]]
        0 <= i < j < targets.len() ==> targets[i].0 != targets[j].0
}

pub(crate) proof fn lemma_put_back(notes: Seq<Note>, targets: Seq<(usize, Note)>, i: int)
    requires
        are_targets(notes, targets),
        0 <= i < targets.len(),
    ensures
        put_back(notes, targets)[targets[i].0 as int] == targets[i].1,
    decreases targets.len(),
{
    let shorter = targets.drop_last();
    assert forall|k: int| 0 <= k < shorter.len() implies (#[trigger] shorter[k]).0
        < notes.len() by {
        assert(targets[k].0 < notes.len());
    }
    assert forall|k: int, l: int|
        #![trigger shorter[k], shorter[l]]
        0 <= k < l < shorter.len() implies shorter[k].0 != shorter[l].0 by {
        assert(targets[k].0 != targets[l].0);
    }
    lemma_put_back_len(notes, shorter);
    assert(targets[targets.len() - 1].0 < notes.len());
    if i < targets.len() - 1 {
        lemma_put_back(notes, shorter, i);
        assert(targets[i].0 != targets[targets.len() - 1].0);
    }
}

/// Dragging the right end of notes changes their lengths and nothing else, all by
/// the same amount. The end of the grabbed note goes to the line of the grid
/// that is nearest to where it was dragged, if every note stays a grid step
/// long.
pub proof fn a_right_end_follows_the_pointer(
    state: StateView,
    drag: DragView,
    dx_raw: int,
    line: int,
    i: int,
)
    requires
        state.is_laid_out(),
        state.step() <= i64::MAX,
        are_targets(state.editor.notes, drag.targets),
        0 <= i < drag.targets.len(),
        forall|k: int|
            0 <= k < drag.targets.len() ==> 0 <= (#[trigger] drag.targets[k]).1.start_tick
                <= 0x1000_0000_0000_0000 && 0 <= drag.targets[k].1.duration
                <= 0x1000_0000_0000_0000,
        -0x1000_0000_0000_0000 <= line <= 0x1000_0000_0000_0000,
        is_nearest_line(
            line,
            drag.targets[0].1.start_tick + drag.targets[0].1.duration + dx_raw,
            state.step(),
        ),
        forall|k: int|
            0 <= k < drag.targets.len() ==> (#[trigger] drag.targets[k]).1.duration + line - (
            drag.targets[0].1.start_tick + drag.targets[0].1.duration) >= state.step(),
    ensures
        ({
            let before = drag.targets[i].1;
            let after = state.resized(drag, dx_raw, false).editor.notes[drag.targets[i].0 as int];
            let end = drag.targets[0].1.start_tick + drag.targets[0].1.duration;
            &&& after == (Note { duration: after.duration, ..before })
            &&& after.duration - before.duration == line - end
            &&& i == 0 ==> after.start_tick + after.duration == line
        }),
{
    let end = drag.targets[0].1.start_tick + drag.targets[0].1.duration;
    assert(drag.targets[0].1.start_tick >= 0);
    assert forall|k: int| 0 <= k < drag.targets.len() implies (
    #[trigger] drag.targets[k]).1.duration + (line - end) >= state.step() by {
        assert(drag.targets[k].1.duration + line - end >= state.step());
    }
    a_dragged_end_lands_on_the_nearest_line(drag.targets, dx_raw, state.step(), line);
    let dx = resizing(drag.targets, dx_raw, state.step(), false);
    let resized = resized_targets(drag.targets, dx, false);
    lemma_resized_are_targets(state.editor.notes, drag.targets, dx, false);
    lemma_put_back(state.editor.notes, resized, i);
    assert(drag.targets[i].1.start_tick >= 0);
}

proof fn lemma_resized_are_targets(
    notes: Seq<Note>,
    targets: Seq<(usize, Note)>,
    dx: i64,
    from_left: bool,
)
    requires
        are_targets(notes, targets),
    ensures
        are_targets(notes, resized_targets(targets, dx, from_left)),
{
    let resized = resized_targets(targets, dx, from_left);
    assert forall|k: int| 0 <= k < resized.len() implies (#[trigger] resized[k]).0 < notes.len() by {
        assert(targets[k].0 < notes.len());
    }
    assert forall|k: int, l: int|
        #![trigger resized[k], resized[l]]
        0 <= k < l < resized.len() implies resized[k].0 != resized[l].0 by {
        assert(targets[k].0 != targets[l].0);
    }
}

/// Dragging the left end of notes moves their starts and keeps their ends, all
/// by the same amount. The start of the grabbed note goes to the line of the
/// grid that is nearest to where it was dragged, if no note starts before 0 and
/// every note stays a grid step long.
pub proof fn a_left_end_follows_the_pointer(
    state: StateView,
    drag: DragView,
    dx_raw: int,
    line: int,
    i: int,
)
    requires
        state.is_laid_out(),
        state.step() <= i64::MAX,
        are_targets(state.editor.notes, drag.targets),
        0 <= i < drag.targets.len(),
        forall|k: int|
            0 <= k < drag.targets.len() ==> 0 <= (#[trigger] drag.targets[k]).1.start_tick
                <= 0x1000_0000_0000_0000 && 0 <= drag.targets[k].1.duration
                <= 0x1000_0000_0000_0000,
        -0x1000_0000_0000_0000 <= line <= 0x1000_0000_0000_0000,
        is_nearest_line(line, drag.targets[0].1.start_tick + dx_raw, state.step()),
        forall|k: int|
            0 <= k < drag.targets.len() ==> (#[trigger] drag.targets[k]).1.start_tick + (line
                - drag.targets[0].1.start_tick) >= 0 && drag.targets[k].1.duration - (line
                - drag.targets[0].1.start_tick) >= state.step(),
    ensures
        ({
            let before = drag.targets[i].1;
            let after = state.resized(drag, dx_raw, true).editor.notes[drag.targets[i].0 as int];
            &&& after == (Note {
                start_tick: after.start_tick,
                duration: after.duration,
                ..before
            })
            &&& after.start_tick - before.start_tick == line - drag.targets[0].1.start_tick
            &&& after.start_tick + after.duration == before.start_tick + before.duration
            &&& i == 0 ==> after.start_tick == line
        }),
{
    let by = line - drag.targets[0].1.start_tick;
    assert(drag.targets[0].1.start_tick >= 0);
    assert forall|k: int| 0 <= k < drag.targets.len() implies (
    #[trigger] drag.targets[k]).1.duration - by >= state.step() by {
        assert(drag.targets[k].1.start_tick + by >= 0);
    }
    a_dragged_start_lands_on_the_nearest_line(drag.targets, dx_raw, state.step(), line);
    let dx = resizing(drag.targets, dx_raw, state.step(), true);
    let resized = resized_targets(drag.targets, dx, true);
    lemma_resized_are_targets(state.editor.notes, drag.targets, dx, true);
    lemma_put_back(state.editor.notes, resized, i);
    assert(drag.targets[i].1.start_tick >= 0);
}

/// Dragging notes moves all of them by the same time and changes neither their
/// pitch nor their length. The grabbed note goes to the line of the grid that is
/// nearest to where it was dragged, if no note starts before 0.
pub proof fn a_note_follows_the_pointer(
    state: StateView,
    drag: DragView,
    dx_raw: int,
    d_row_raw: int,
    line: int,
    i: int,
)
    requires
        state.is_laid_out(),
        state.step() <= i64::MAX,
        are_targets(state.editor.notes, drag.targets),
        0 <= i < drag.targets.len(),
        forall|k: int|
            0 <= k < drag.targets.len() ==> 0 <= (#[trigger] drag.targets[k]).1.start_tick
                <= 0x1000_0000_0000_0000,
        -0x1000_0000_0000_0000 <= line <= 0x1000_0000_0000_0000,
        is_nearest_line(line, drag.targets[0].1.start_tick + dx_raw, state.step()),
        forall|k: int|
            0 <= k < drag.targets.len() ==> (#[trigger] drag.targets[k]).1.start_tick + (line
                - drag.targets[0].1.start_tick) >= 0,
    ensures
        ({
            let before = drag.targets[i].1;
            let after = state.moved(drag, dx_raw, d_row_raw).editor.notes[drag.targets[i].0 as int];
            &&& after == (Note {
                start_tick: after.start_tick,
                track: after.track,
                lane: after.lane,
                ..before
            })
            &&& after.start_tick - before.start_tick == line - drag.targets[0].1.start_tick
            &&& i == 0 ==> after.start_tick == line
        }),
{
    let offsets = offsets_of(state.editor);
    assert(drag.targets[0].1.start_tick >= 0);
    a_dragged_note_lands_on_the_nearest_line(
        drag.targets,
        offsets,
        state.editor,
        dx_raw,
        d_row_raw,
        state.step(),
        state.shown_rows(),
        line,
    );
    let (dx, d_row) = movement(
        drag.targets,
        offsets,
        state.editor,
        dx_raw,
        d_row_raw,
        state.step(),
        state.shown_rows(),
    );
    let placed = moved_targets(drag.targets, offsets, state.editor, dx, d_row);
    assert forall|k: int| 0 <= k < placed.len() implies (#[trigger] placed[k]).0
        < state.editor.notes.len() by {
        assert(drag.targets[k].0 < state.editor.notes.len());
    }
    assert forall|k: int, l: int|
        #![trigger placed[k], placed[l]]
        0 <= k < l < placed.len() implies placed[k].0 != placed[l].0 by {
        assert(drag.targets[k].0 != drag.targets[l].0);
    }
    lemma_put_back(state.editor.notes, placed, i);
    assert(drag.targets[i].1.start_tick >= 0);
    assert(drag.targets[i].1.start_tick + (line - drag.targets[0].1.start_tick) >= 0);
}

/// What a drag does goes by how far the pointer went from where it began: in
/// ticks across, and to the nearest number of rows down.
pub proof fn a_drag_goes_as_far_as_the_pointer(
    state: StateView,
    canvas: Canvas,
    pos: (i64, i64),
    free: bool,
    rows: i32,
)
    requires
        state.drag is Some,
        i64::MIN <= content_of(canvas, pos).0 - (state.drag->0).origin.0 <= i64::MAX,
    ensures
        ({
            let drag = state.drag->0;
            let here = content_of(canvas, pos);
            let after = state.dragged_to(canvas, pos, free);
            &&& drag.kind is Resize ==> after == (
                state.resized(drag, here.0 - drag.origin.0, drag.kind->from_left),
                None::<i64>,
            )
            &&& drag.kind is Move && -32768 < here.1 - (drag.origin.1 + rows * 65536) < 32768
                ==> after == (
                state.moved(drag, here.0 - drag.origin.0, rows as int),
                None::<i64>,
            )
            &&& drag.kind is Seek ==> after.0 == state && after.1 == Some(
                sought(
                    tick_at_position(canvas, pos.0 as int) as int,
                    state.editor.beat(),
                    state.selected_start(),
                    free,
                ),
            )
            &&& drag.kind is Marquee ==> after.0.editor == state.editor && after.1 is None
        }),
{
    let drag = state.drag->0;
    let here = content_of(canvas, pos);
    let down = here.1 - drag.origin.1;
    if -32768 < here.1 - (drag.origin.1 + rows * 65536) < 32768 {
        vstd::arithmetic::div_mod::lemma_mod_multiples_basic(rows as int, 65536);
        snapping_goes_to_the_nearest_line(rows * 65536, down, 65536);
        assert(rounded_quotient(down, 65536) == rows);
    }
}

/// A drag that begins on a note drags it, and with it the whole selection if it
/// belongs to one of several notes; its right or left end is resized where that
/// was grabbed. The grabbed note comes first.
pub proof fn a_drag_takes_what_was_grabbed(
    state: StateView,
    index: usize,
    part: Hit,
    origin: (i64, i64),
    k: usize,
)
    requires
        index < state.editor.notes.len() <= usize::MAX,
        k < state.editor.notes.len(),
    ensures
        ({
            let after = state.grabbing(index, part, false, origin);
            let drag = after.drag->0;
            let all = state.selection.len() > 1 && state.selection.contains(index);
            let takes = exists|i: int|
                0 <= i < drag.targets.len() && (#[trigger] drag.targets[i]).0 == k;
            &&& after.drag is Some
            &&& drag.origin == origin
            &&& part is Body <==> drag.kind is Move
            &&& part is ResizeRight <==> drag.kind == (DragKind::Resize { from_left: false })
            &&& part is ResizeLeft <==> drag.kind == (DragKind::Resize { from_left: true })
            &&& drag.targets.len() > 0
            &&& drag.targets[0] == (index, state.editor.notes[index as int])
            &&& takes <==> k == index || (all && state.selection.contains(k))
            &&& forall|i: int|
                0 <= i < drag.targets.len() ==> (#[trigger] drag.targets[i]).1
                    == state.editor.notes[drag.targets[i].0 as int]
            &&& after.editor == state.editor
            &&& !all ==> after.selection == seq![index]
            &&& all ==> after.selection == state.selection
        }),
{
    let after = state.grabbing(index, part, false, origin);
    let drag = after.drag->0;
    let all = state.selection.len() > 1 && state.selection.contains(index);
    let rest = others(state.chosen(), index);
    let indices = if all {
        seq![index] + rest
    } else {
        seq![index]
    };
    assert(drag.targets == numbered(state.editor.notes, indices));
    assert(indices[0] == index);
    crate::state::lemma_chosen(state.selection, state.editor.notes.len() as int);
    lemma_others(state.chosen(), index, k);
    if all && k != index && state.selection.contains(k) {
        assert(state.chosen().contains(k));
        assert(rest.contains(k));
        let i = choose|i: int| 0 <= i < rest.len() && rest[i] == k;
        assert(indices[i + 1] == k);
        assert(drag.targets[i + 1].0 == k);
    }
    if k == index {
        assert(drag.targets[0].0 == k);
    }
    if exists|i: int| 0 <= i < drag.targets.len() && (#[trigger] drag.targets[i]).0 == k {
        let i = choose|i: int| 0 <= i < drag.targets.len() && (#[trigger] drag.targets[i]).0 == k;
        assert(indices[i] == k);
        if i > 0 {
            assert(rest[i - 1] == k);
            assert(rest.contains(k));
        }
    }
}

proof fn lemma_others(indices: Seq<usize>, index: usize, k: usize)
    ensures
        others(indices, index).contains(k) <==> indices.contains(k) && k != index,
    decreases indices.len(),
{
    let now = others(indices, index);
    if indices.len() > 0 {
        let shorter = indices.drop_last();
        let before = others(shorter, index);
        lemma_others(shorter, index, k);
        if now.contains(k) {
            let i = choose|i: int| 0 <= i < now.len() && now[i] == k;
            if i < before.len() {
                assert(before[i] == k);
                let j = choose|j: int| 0 <= j < shorter.len() && shorter[j] == k;
                assert(indices[j] == k);
            } else {
                assert(indices[indices.len() - 1] == k);
            }
        }
        if indices.contains(k) && k != index {
            let j = choose|j: int| 0 <= j < indices.len() && indices[j] == k;
            if j < shorter.len() {
                assert(shorter[j] == k);
                let i = choose|i: int| 0 <= i < before.len() && before[i] == k;
                assert(now[i] == k);
            } else {
                assert(now[before.len() as int] == k);
            }
        }
    }
}

/// A drag begins on the ruler with the playhead, on a note with the note, and
/// beside the notes with a frame. With shift, a frame adds to what is selected.
pub proof fn a_drag_begins_where_the_pointer_is(
    state: StateView,
    canvas: Canvas,
    pos: (i64, i64),
    shift: bool,
)
    ensures
        ({
            let after = state.drag_begun(canvas, pos, shift);
            let drag = after.drag->0;
            let above = pos.1 < canvas.origin_y + 22 * 1024;
            &&& after.drag is Some
            &&& above <==> drag.kind is Seek
            &&& !above && state.pointed(canvas, pos) is None <==> drag.kind is Marquee
            &&& drag.kind is Marquee && shift ==> drag.base_selection == state.chosen()
            &&& drag.kind is Marquee && !shift ==> drag.base_selection.len() == 0
            &&& drag.kind is Seek || drag.kind is Marquee ==> after.editor == state.editor
                && after.selection == state.selection
            &&& drag.origin == content_of(canvas, pos)
        }),
{
}

/// When a drag ends, the sequence is to be sent on if it was moved or resized,
/// and the next change is one of its own. Nothing else changes.
pub proof fn a_drag_ends(state: StateView)
    ensures
        state.drag_ended().drag is None,
        state.drag_ended().editor == state.editor,
        state.drag_ended().selection == state.selection,
        state.drag is Some && ((state.drag->0).kind is Move || (state.drag->0).kind is Resize)
            ==> state.drag_ended().dirty,
        state.drag is Some && ((state.drag->0).kind is Seek || (state.drag->0).kind is Marquee)
            ==> state.drag_ended().dirty == state.dirty,
        state.drag is Some ==> state.drag_ended().history.group is None,
        state.drag_ended().history.undo == state.history.undo,
        state.drag_ended().history.redo == state.history.redo,
        state.drag is None ==> state.drag_ended() == state,
{
}

/// A click on a note selects it alone. With shift the note goes into the
/// selection or out of it, and the other notes stay as they are in it. A click
/// beside the notes selects nothing. No click changes a note.
pub proof fn a_click_selects(state: StateView, canvas: Canvas, pos: (i64, i64), k: usize)
    requires
        state.editor.notes.len() <= usize::MAX,
        k < state.editor.notes.len(),
    ensures
        state.clicked(canvas, pos, true).editor == state.editor,
        state.clicked(canvas, pos, false).editor == state.editor,
        match state.pointed(canvas, pos) {
            Some((index, _)) => {
                &&& state.clicked(canvas, pos, false).selection.contains(k) <==> k == index
                &&& state.clicked(canvas, pos, false).selected == Some(index)
                &&& k != index ==> (state.clicked(canvas, pos, true).selection.contains(k)
                    <==> state.selection.contains(k))
                &&& k == index ==> (state.clicked(canvas, pos, true).selection.contains(k)
                    <==> !state.selection.contains(k))
            },
            None => {
                &&& state.clicked(canvas, pos, true).selection.len() == 0
                &&& state.clicked(canvas, pos, false).selection.len() == 0
            },
        },
{
    match state.pointed(canvas, pos) {
        Some((index, _)) => {
            crate::state::lemma_chosen(state.selection, state.editor.notes.len() as int);
            lemma_others(state.chosen(), index, k);
            let with = state.chosen().push(index);
            assert(seq![index][0] == index);
            assert(with[state.chosen().len() as int] == index);
            if state.chosen().contains(k) {
                let i = choose|i: int| 0 <= i < state.chosen().len() && state.chosen()[i] == k;
                assert(with[i] == k);
            }
            if with.contains(k) && k != index {
                let i = choose|i: int| 0 <= i < with.len() && with[i] == k;
                assert(state.chosen()[i] == k);
            }
        },
        None => {},
    }
}

/// A double click beside the notes puts a note behind the others, with the pitch
/// and the velocity of the note that was last pointed at, and selects it. The
/// other notes stay. Anywhere else it does nothing.
pub proof fn a_double_click_makes_a_note(state: StateView, canvas: Canvas, pos: (i64, i64))
    ensures
        ({
            let after = state.double_clicked(canvas, pos);
            let count = state.editor.notes.len() as int;
            let note = after.editor.notes[count];
            let down = pos.1 - (canvas.origin_y + 22 * 1024);
            let there = 0 <= down < state.shown_rows() * canvas.row_h && state.pointed(
                canvas,
                pos,
            ) is None;
            &&& !there ==> after == state
            &&& there ==> {
                &&& after.editor.notes.len() == count + 1
                &&& after.editor.notes.take(count) == state.editor.notes
                &&& note.semitone == state.last_note.semitone
                &&& note.octave == state.last_note.octave
                &&& note.velocity == state.last_note.velocity
                &&& note.velocity_to == state.last_note.velocity
                &&& state.tuplet <= 1 && state.step() <= state.last_note.duration ==> note.duration
                    == state.last_note.duration
                &&& after.selected == Some(count as usize)
                &&& after.dirty
                &&& after.editor.tracks == state.editor.tracks
            }
        }),
{
    let after = state.double_clicked(canvas, pos);
    let count = state.editor.notes.len() as int;
    if state.makes_note(canvas, pos) {
        assert(after.editor.notes.take(count) =~= state.editor.notes);
    }
}

/// A click with the other button deletes the note that it points at: alone if it
/// is not selected, and with all that is selected if it is. Every other note
/// stays as it was, in its order.
pub proof fn a_click_with_the_other_button_deletes(
    state: StateView,
    canvas: Canvas,
    pos: (i64, i64),
    k: int,
)
    requires
        0 <= k < state.editor.notes.len(),
    ensures
        match state.pointed(canvas, pos) {
            None => state.secondary_clicked(canvas, pos) == state,
            Some((index, _)) => {
                let after = state.secondary_clicked(canvas, pos);
                &&& after.dirty
                &&& !state.selection.contains(index) && index < state.editor.notes.len() ==> {
                    &&& after.editor.notes.len() == state.editor.notes.len() - 1
                    &&& k < index ==> after.editor.notes[k] == state.editor.notes[k]
                    &&& k > index ==> after.editor.notes[k - 1] == state.editor.notes[k]
                    &&& after.selection.len() == 0
                }
                &&& state.selection.contains(index) ==> after.editor.notes == deleted(
                    state,
                ).editor.notes
            },
        },
{
}

/// The note that is pointed at is what the next new one is made after: its
/// pitch, its length and its velocity. Otherwise what was remembered stays.
pub proof fn the_last_note_is_remembered(state: StateView, index: usize)
    ensures
        state.track_last_note && state.selected == Some(index) && index < state.editor.notes.len()
            ==> {
            let note = state.editor.notes[index as int];
            let kept = state.remembering().last_note;
            &&& kept.semitone == note.semitone
            &&& kept.octave == note.octave
            &&& kept.duration == note.duration
            &&& kept.velocity == note.velocity
        },
        !state.track_last_note || state.selected is None ==> state.remembering() == state,
        state.remembering().editor == state.editor,
{
}

/// With shift, copies of the grabbed notes are dragged: each says what its note
/// says, all come behind the notes in the order in which these were grabbed, and
/// it is the copies that are selected and dragged.
pub proof fn copies_are_dragged_with_shift(
    state: StateView,
    index: usize,
    origin: (i64, i64),
    i: int,
)
    requires
        index < state.editor.notes.len(),
        0 <= i < state.grabbing(index, Hit::Body, false, origin).drag->0.targets.len(),
        state.editor.notes.len() + state.grabbing(
            index,
            Hit::Body,
            false,
            origin,
        ).drag->0.targets.len() <= usize::MAX,
    ensures
        ({
            let plain = state.grabbing(index, Hit::Body, false, origin).drag->0;
            let after = state.grabbing(index, Hit::Body, true, origin);
            let drag = after.drag->0;
            let count = state.editor.notes.len() as int;
            &&& after.drag is Some && drag.kind is Move && drag.origin == origin
            &&& drag.targets.len() == plain.targets.len()
            &&& after.editor.notes.len() == count + plain.targets.len()
            &&& after.editor.notes[count + i] == state.editor.notes[plain.targets[i].0 as int]
            &&& drag.targets[i].0 == count + i
            &&& drag.targets[i].1 == after.editor.notes[count + i]
            &&& after.selection.len() == plain.targets.len()
            &&& after.selection[i] == count + i
            &&& after.dirty
            &&& after.editor.tracks == state.editor.tracks
        }),
{
}

/// Where the ends of notes are resized, shift makes no difference.
pub proof fn no_copies_are_resized(state: StateView, index: usize, part: Hit, origin: (i64, i64))
    requires
        !(part is Body),
    ensures
        state.grabbing(index, part, true, origin) == state.grabbing(index, part, false, origin),
        state.grabbing(index, part, true, origin).editor == state.editor,
{
}

/// Notes are dragged along the grid that was chosen, unless it is narrower than a
/// 128th note.
pub proof fn the_grid_is_never_too_narrow(state: StateView)
    ensures
        state.step() >= 1050,
        state.grid() >= 1050 ==> state.step() == state.grid(),
        state.grid() < 1050 ==> state.step() == 1050,
{
}

/// The playhead can be put to the start of the note whose details are shown, and
/// of no other.
pub proof fn the_shown_note_can_be_sought(state: StateView, index: usize)
    ensures
        state.selected is None ==> state.selected_start() is None,
        state.selected == Some(index) && index >= state.editor.notes.len()
            ==> state.selected_start() is None,
        state.selected == Some(index) && index < state.editor.notes.len()
            && state.editor.notes[index as int].start_tick >= 0 ==> state.selected_start() == Some(
            state.editor.notes[index as int].start_tick,
        ),
{
}

} // verus!
