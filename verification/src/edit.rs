//! Editing operations on the selected notes.

use crate::history::EditGroup;
use crate::lanes::{every_note_gets_a_lane, indices_fit, with_room};
use crate::sequencer::{key_number, EditorView, MidiEditor, Note, ScaleMode, TrackView};
use crate::sorting::{
    mapped, sort_stable, stable_sort_of_images, stable_sort_orders, stable_sorted, Rank, Ranked,
};
use crate::state::{
    chosen, lemma_chosen, EditorState, StateView, MAX_OCTAVE, MIN_OCTAVE,
};
use crate::time::{minus, plus, saturate};
use vstd::prelude::*;

verus! {

/// A change that is made to each of several notes.
pub trait NoteEdit: Sized {
    /// Whether the change can be made to a note.
    spec fn allows(self, note: Note) -> bool;

    /// The note after the change.
    spec fn edited(self, note: Note) -> Note;

    /// Makes the change.
    fn edit(&self, note: &Note) -> (result: Note)
        requires
            self.allows(*note),
        ensures
            result == self.edited(*note),
    ;
}

/// Notes after a change to those with the given numbers.
pub open spec fn edited_at<E: NoteEdit>(notes: Seq<Note>, indices: Seq<usize>, edit: E) -> Seq<
    Note,
> {
    Seq::new(
        notes.len(),
        |i: int|
            if indices.contains(i as usize) {
                edit.edited(notes[i])
            } else {
                notes[i]
            },
    )
}

/// Makes a change to the notes with the given numbers. Returns whether any
/// note is different.
pub fn edit_notes<E: NoteEdit>(notes: &mut Vec<Note>, indices: &Vec<usize>, edit: &E) -> (changed:
    bool)
    requires
        forall|i: int| 0 <= i < indices@.len() ==> (#[trigger] indices@[i]) < old(notes)@.len(),
        forall|i: int, j: int|
            #![trigger indices@[i], indices@[j]]
            0 <= i < j < indices@.len() ==> indices@[i] < indices@[j],
        forall|i: int|
            #![trigger indices@[i]]
            0 <= i < indices@.len() ==> edit.allows(old(notes)@[indices@[i] as int]),
    ensures
        final(notes)@ == edited_at(old(notes)@, indices@, *edit),
        changed == (final(notes)@ != old(notes)@),
{
    let ghost start = notes@;
    let count: usize = notes.len();
    let mut changed: bool = false;
    let mut at: usize = 0;
    assert(edited_at(start, indices@.take(0), *edit) =~= start);
    while at < indices.len()
        invariant
            at <= indices@.len(),
            start.len() == count,
            forall|i: int| 0 <= i < indices@.len() ==> (#[trigger] indices@[i]) < start.len(),
            forall|i: int, j: int|
                #![trigger indices@[i], indices@[j]]
                0 <= i < j < indices@.len() ==> indices@[i] < indices@[j],
            forall|i: int|
                #![trigger indices@[i]]
                0 <= i < indices@.len() ==> edit.allows(start[indices@[i] as int]),
            notes@ == edited_at(start, indices@.take(at as int), *edit),
            changed == (notes@ != start),
        decreases indices@.len() - at,
    {
        let index: usize = indices[at];
        let ghost done = indices@.take(at as int);
        let ghost next = indices@.take(at + 1);
        proof {
            assert(!done.contains(index)) by {
                if done.contains(index) {
                    let i = choose|i: int| 0 <= i < done.len() && done[i] == index;
                    assert(indices@[i] < indices@[at as int]);
                }
            }
            assert forall|k: usize| #[trigger] next.contains(k) <==> done.contains(k) || k
                == index by {
                if next.contains(k) {
                    let i = choose|i: int| 0 <= i < next.len() && next[i] == k;
                    if i < at {
                        assert(done[i] == k);
                    }
                }
                if done.contains(k) {
                    let i = choose|i: int| 0 <= i < done.len() && done[i] == k;
                    assert(next[i] == k);
                }
                if k == index {
                    assert(next[at as int] == k);
                }
            }
            assert(notes@[index as int] == start[index as int]);
            assert(edit.allows(start[indices@[at as int] as int]));
        }
        let note = notes[index];
        let after = edit.edit(&note);
        let ghost before = notes@;
        if after != note {
            notes.set(index, after);
            changed = true;
            assert(notes@[index as int] != start[index as int]);
        }
        proof {
            assert(notes@ =~= before.update(index as int, after));
            assert(notes@ =~= edited_at(start, next, *edit));
            if !changed {
                assert(notes@ =~= start);
            } else if after == note {
                assert(notes@ =~= before);
            }
        }
        at += 1;
    }
    assert(indices@.take(at as int) =~= indices@);
    changed
}

/// Moves a note to a start.
pub struct MoveTo {
    pub start: i64,
}

impl NoteEdit for MoveTo {
    open spec fn allows(self, note: Note) -> bool {
        true
    }

    open spec fn edited(self, note: Note) -> Note {
        Note { start_tick: self.start, ..note }
    }

    fn edit(&self, note: &Note) -> (result: Note) {
        Note { start_tick: self.start, ..*note }
    }
}

/// Stretches a note to an end, where that is behind its start.
pub struct StretchTo {
    pub end: i64,
}

impl NoteEdit for StretchTo {
    open spec fn allows(self, note: Note) -> bool {
        true
    }

    open spec fn edited(self, note: Note) -> Note {
        let duration = saturate(self.end - note.start_tick);
        if duration > 0 {
            Note { duration, ..note }
        } else {
            note
        }
    }

    fn edit(&self, note: &Note) -> (result: Note) {
        let duration: i64 = minus(self.end, note.start_tick);
        if duration > 0 {
            Note { duration, ..*note }
        } else {
            *note
        }
    }
}

/// Changes the velocity, within 1 to 127.
pub struct ChangeVelocity {
    pub delta: i32,
}

impl NoteEdit for ChangeVelocity {
    open spec fn allows(self, note: Note) -> bool {
        true
    }

    open spec fn edited(self, note: Note) -> Note {
        let velocity = note.velocity + self.delta;
        Note {
            velocity: if velocity < 1 {
                1
            } else if velocity > 127 {
                127
            } else {
                velocity as u8
            },
            ..note
        }
    }

    fn edit(&self, note: &Note) -> (result: Note) {
        let wide: i64 = note.velocity as i64 + self.delta as i64;
        let velocity: u8 = if wide < 1 {
            1
        } else if wide > 127 {
            127
        } else {
            wide as u8
        };
        Note { velocity, ..*note }
    }
}

/// Steps of a note, counted through the octaves.
pub open spec fn position(note: Note, steps: int) -> int {
    note.octave * steps + note.semitone
}

/// Whether the steps of a note can be counted.
pub open spec fn has_position(note: Note, steps: int) -> bool {
    i32::MIN <= position(note, steps) <= i32::MAX
}

/// Moves a note by steps, over into other octaves where need be.
pub struct Transpose {
    pub by: i64,
    pub steps: i32,
}

impl NoteEdit for Transpose {
    open spec fn allows(self, note: Note) -> bool {
        &&& 12 <= self.steps <= 13
        &&& has_position(note, self.steps as int)
        &&& -0x2_0000_0000 <= self.by <= 0x2_0000_0000
    }

    open spec fn edited(self, note: Note) -> Note {
        let moved = position(note, self.steps as int) + self.by;
        Note {
            octave: (moved / self.steps as int) as i32,
            semitone: (moved % self.steps as int) as i32,
            ..note
        }
    }

    fn edit(&self, note: &Note) -> (result: Note) {
        let steps: i64 = self.steps as i64;
        let moved: i64 = position_of(note, self.steps) + self.by;
        let quotient: i128 = crate::time::floor_quotient(moved as i128, steps as i128);
        proof {
            vstd::arithmetic::div_mod::lemma_fundamental_div_mod(moved as int, steps as int);
            assert(steps * quotient == quotient * steps) by (nonlinear_arith);
            assert(-0x8000_0000 <= quotient <= 0x7fff_ffff) by (nonlinear_arith)
                requires
                    -0x3_0000_0000 <= moved <= 0x3_0000_0000,
                    moved == steps * quotient + (moved as int) % (steps as int),
                    0 <= (moved as int) % (steps as int) < steps,
                    12 <= steps <= 13,
            ;
        }
        let octave: i32 = quotient as i32;
        let semitone: i32 = (moved as i128 - quotient * (steps as i128)) as i32;
        Note { octave, semitone, ..*note }
    }
}

/// Steps of a note, counted through the octaves.
fn position_of(note: &Note, steps: i32) -> (result: i64)
    requires
        12 <= steps <= 13,
        has_position(*note, steps as int),
    ensures
        result == position(*note, steps as int),
{
    assert(-0x8_0000_0000 <= note.octave * steps <= 0x8_0000_0000) by (nonlinear_arith)
        requires
            -0x8000_0000 <= note.octave <= 0x7fff_ffff,
            12 <= steps <= 13,
    ;
    note.octave as i64 * steps as i64 + note.semitone as i64
}

/// The earliest start of the notes with the given numbers.
pub open spec fn earliest(notes: Seq<Note>, indices: Seq<usize>) -> i64
    decreases indices.len(),
{
    if indices.len() == 0 {
        i64::MAX
    } else {
        let before = earliest(notes, indices.drop_last());
        let start = notes[indices.last() as int].start_tick;
        if start < before {
            start
        } else {
            before
        }
    }
}

/// The latest end of the notes with the given numbers.
pub open spec fn latest_end(notes: Seq<Note>, indices: Seq<usize>) -> i64
    decreases indices.len(),
{
    if indices.len() == 0 {
        i64::MIN
    } else {
        let before = latest_end(notes, indices.drop_last());
        let end = notes[indices.last() as int].end();
        if end > before {
            end
        } else {
            before
        }
    }
}

/// The lowest position of the notes with the given numbers.
pub open spec fn lowest(notes: Seq<Note>, indices: Seq<usize>, steps: int) -> int
    decreases indices.len(),
{
    if indices.len() <= 1 {
        position(notes[indices[0] as int], steps)
    } else {
        let before = lowest(notes, indices.drop_last(), steps);
        let here = position(notes[indices.last() as int], steps);
        if here < before {
            here
        } else {
            before
        }
    }
}

/// The highest position of the notes with the given numbers.
pub open spec fn highest(notes: Seq<Note>, indices: Seq<usize>, steps: int) -> int
    decreases indices.len(),
{
    if indices.len() <= 1 {
        position(notes[indices[0] as int], steps)
    } else {
        let before = highest(notes, indices.drop_last(), steps);
        let here = position(notes[indices.last() as int], steps);
        if here > before {
            here
        } else {
            before
        }
    }
}

/// How far notes are transposed: as asked, but no further than all of them can
/// go.
pub open spec fn transposition(
    notes: Seq<Note>,
    indices: Seq<usize>,
    by: int,
    steps: int,
) -> int {
    let down = MIN_OCTAVE * steps - lowest(notes, indices, steps);
    let up = MAX_OCTAVE * steps + steps - 1 - highest(notes, indices, steps);
    let raised = if by < down {
        down
    } else {
        by
    };
    if raised > up {
        up
    } else {
        raised
    }
}

/// Whether the steps of all the selected notes can be counted.
pub open spec fn pitches_fit(state: StateView) -> bool {
    forall|i: int|
        #![trigger state.chosen()[i]]
        0 <= i < state.chosen().len() ==> has_position(
            state.editor.notes[state.chosen()[i] as int],
            state.editor.scale.steps(),
        )
}

/// Notes without those with a number among `selection`.
pub open spec fn without(notes: Seq<Note>, selection: Seq<usize>, count: int) -> Seq<Note>
    decreases count,
{
    if count <= 0 {
        Seq::empty()
    } else {
        let before = without(notes, selection, count - 1);
        if selection.contains((count - 1) as usize) {
            before
        } else {
            before.push(notes[count - 1])
        }
    }
}

/// The notes with the given numbers.
pub open spec fn picked(notes: Seq<Note>, indices: Seq<usize>) -> Seq<Note> {
    Seq::new(indices.len(), |i: int| notes[indices[i] as int])
}

/// A note in the order of starts alone.
#[derive(Clone, Copy, PartialEq, Eq, Structural, Debug)]
pub struct ByStart {
    pub note: Note,
}

impl Rank for ByStart {
    open spec fn rank_le(self, other: Self) -> bool {
        self.note.start_tick <= other.note.start_tick
    }

    proof fn rank_total(a: Self, b: Self) {
    }

    proof fn rank_transitive(a: Self, b: Self, c: Self) {
    }
}

impl Ranked for ByStart {
    fn not_after(&self, other: &Self) -> (yes: bool) {
        self.note.start_tick <= other.note.start_tick
    }
}

/// Notes from the start `base` on, in the order of starts.
pub open spec fn from_base(notes: Seq<Note>, base: i64) -> Seq<ByStart> {
    Seq::new(
        notes.len(),
        |i: int|
            ByStart {
                note: Note { start_tick: saturate(notes[i].start_tick - base), ..notes[i] },
            },
    )
}

/// The notes in a sequence of ranked notes.
pub open spec fn plain(notes: Seq<ByStart>) -> Seq<Note> {
    Seq::new(notes.len(), |i: int| notes[i].note)
}

/// What is copied of the notes with the given numbers: from the start of the
/// earliest one on, in the order of starts.
pub open spec fn copied(notes: Seq<Note>, indices: Seq<usize>) -> Seq<Note> {
    plain(stable_sorted(from_base(picked(notes, indices), earliest(notes, indices))))
}

/// A note as it is pasted at `at`: nothing starts before 0, and the step fits
/// the scale.
pub open spec fn pasted(note: Note, at: i64, scale: ScaleMode) -> Note {
    let start = saturate(at + note.start_tick);
    Note {
        start_tick: if start < 0 {
            0
        } else {
            start
        },
        semitone: clamped_semitone(note.semitone, scale),
        ..note
    }
}

/// A step held to the scale.
pub open spec fn clamped_semitone(semitone: i32, scale: ScaleMode) -> i32 {
    if semitone < 0 {
        0
    } else if semitone > scale.steps() - 1 {
        (scale.steps() - 1) as i32
    } else {
        semitone
    }
}

/// The pasted notes.
pub open spec fn all_pasted(notes: Seq<Note>, at: i64, scale: ScaleMode) -> Seq<Note> {
    Seq::new(notes.len(), |i: int| pasted(notes[i], at, scale))
}

/// The numbers from `from` up to `to`.
pub open spec fn run_of(from: int, to: int) -> Seq<usize> {
    Seq::new((to - from) as nat, |i: int| (from + i) as usize)
}

/// Whether a note is there and selected.
pub open spec fn is_chosen(notes: Seq<Note>, selection: Seq<usize>, i: int) -> bool {
    0 <= i < notes.len() && selection.contains(i as usize)
}

/// Whether all notes that are not selected are as they were.
pub open spec fn others_stay(before: Seq<Note>, after: Seq<Note>, selection: Seq<usize>) -> bool {
    &&& after.len() == before.len()
    &&& forall|i: int|
        0 <= i < before.len() && !is_chosen(before, selection, i) ==> #[trigger] after[i]
            == before[i]
}

/// Whether the selected notes start together, where the first of them started,
/// and are otherwise as they were.
pub open spec fn starts_are_aligned(
    before: Seq<Note>,
    after: Seq<Note>,
    selection: Seq<usize>,
) -> bool {
    &&& others_stay(before, after, selection)
    &&& forall|i: int| #[trigger]
        is_chosen(before, selection, i) ==> after[i] == (Note {
            start_tick: after[i].start_tick,
            ..before[i]
        })
    &&& forall|i: int, j: int|
        #![trigger is_chosen(before, selection, i), is_chosen(before, selection, j)]
        is_chosen(before, selection, i) && is_chosen(before, selection, j) ==> after[i].start_tick
            <= before[j].start_tick
    &&& forall|i: int| #[trigger]
        is_chosen(before, selection, i) ==> exists|j: int| #[trigger]
            is_chosen(before, selection, j) && after[i].start_tick == before[j].start_tick
}

/// Whether the selected notes end together, where the last of them ended, if
/// they start before that, and are otherwise as they were.
pub open spec fn ends_are_aligned(
    before: Seq<Note>,
    after: Seq<Note>,
    selection: Seq<usize>,
) -> bool {
    &&& others_stay(before, after, selection)
    &&& forall|i: int| #[trigger]
        is_chosen(before, selection, i) ==> after[i] == (Note {
            duration: after[i].duration,
            ..before[i]
        })
    &&& forall|i: int, j: int|
        #![trigger is_chosen(before, selection, i), is_chosen(before, selection, j)]
        is_chosen(before, selection, i) && is_chosen(before, selection, j) && 0
            <= before[i].start_tick < before[j].end() ==> after[i].end() >= before[j].end()
    &&& forall|i: int| #[trigger]
        is_chosen(before, selection, i) && before[i].start_tick >= 0 ==> exists|j: int| #[trigger]
            is_chosen(before, selection, j) && after[i].end() == before[j].end()
}

/// Whether the velocities of the selected notes are changed by `delta`, as far
/// as 1 to 127 lets them, and nothing else is.
pub open spec fn velocities_are_changed(
    before: Seq<Note>,
    after: Seq<Note>,
    selection: Seq<usize>,
    delta: int,
) -> bool {
    &&& others_stay(before, after, selection)
    &&& forall|i: int| #[trigger]
        is_chosen(before, selection, i) ==> {
            let wanted = before[i].velocity + delta;
            &&& after[i] == (Note { velocity: after[i].velocity, ..before[i] })
            &&& 1 <= wanted <= 127 ==> after[i].velocity == wanted
            &&& wanted < 1 ==> after[i].velocity == 1
            &&& wanted > 127 ==> after[i].velocity == 127
        }
}

proof fn lemma_earliest_is_there(notes: Seq<Note>, indices: Seq<usize>) -> (at: int)
    requires
        indices.len() > 0,
    ensures
        0 <= at < indices.len(),
        notes[indices[at] as int].start_tick == earliest(notes, indices),
    decreases indices.len(),
{
    let shorter = indices.drop_last();
    if indices.len() == 1 {
        assert(earliest(notes, shorter) == i64::MAX);
        0
    } else if notes[indices.last() as int].start_tick < earliest(notes, shorter) {
        indices.len() - 1
    } else {
        lemma_earliest_is_there(notes, shorter)
    }
}

proof fn lemma_latest_is_there(notes: Seq<Note>, indices: Seq<usize>) -> (at: int)
    requires
        indices.len() > 0,
    ensures
        0 <= at < indices.len(),
        notes[indices[at] as int].end() == latest_end(notes, indices),
    decreases indices.len(),
{
    let shorter = indices.drop_last();
    if indices.len() == 1 {
        assert(latest_end(notes, shorter) == i64::MIN);
        0
    } else if notes[indices.last() as int].end() > latest_end(notes, shorter) {
        indices.len() - 1
    } else {
        lemma_latest_is_there(notes, shorter)
    }
}

proof fn lemma_latest_bounds(notes: Seq<Note>, indices: Seq<usize>, i: int)
    requires
        0 <= i < indices.len(),
    ensures
        latest_end(notes, indices) >= notes[indices[i] as int].end(),
    decreases indices.len(),
{
    if i < indices.len() - 1 {
        lemma_latest_bounds(notes, indices.drop_last(), i);
    }
}

/// The place of a selected note among the chosen numbers.
proof fn lemma_place_of_chosen(notes: Seq<Note>, selection: Seq<usize>, i: int) -> (at: int)
    requires
        notes.len() <= usize::MAX,
        is_chosen(notes, selection, i),
    ensures
        0 <= at < chosen(selection, notes.len() as int).len(),
        chosen(selection, notes.len() as int)[at] == i,
{
    let indices = chosen(selection, notes.len() as int);
    lemma_chosen(selection, notes.len() as int);
    assert(indices.contains(i as usize));
    choose|at: int| 0 <= at < indices.len() && indices[at] == i as usize
}

/// Moving the selected notes to the earliest start aligns their starts.
pub(crate) proof fn lemma_starts_are_aligned(notes: Seq<Note>, selection: Seq<usize>)
    requires
        notes.len() <= usize::MAX,
    ensures
        ({
            let indices = chosen(selection, notes.len() as int);
            let after = if indices.len() < 2 {
                notes
            } else {
                edited_at(notes, indices, (MoveTo { start: earliest(notes, indices) }))
            };
            starts_are_aligned(notes, after, selection)
        }),
{
    let indices = chosen(selection, notes.len() as int);
    let after = if indices.len() < 2 {
        notes
    } else {
        edited_at(notes, indices, (MoveTo { start: earliest(notes, indices) }))
    };
    lemma_chosen(selection, notes.len() as int);
    assert forall|i: int|
        0 <= i < notes.len() && !is_chosen(notes, selection, i) implies #[trigger] after[i]
        == notes[i] by {
        assert(!indices.contains(i as usize));
    }
    assert forall|i: int, j: int|
        #![trigger is_chosen(notes, selection, i), is_chosen(notes, selection, j)]
        is_chosen(notes, selection, i) && is_chosen(notes, selection, j) implies after[i].start_tick
        <= notes[j].start_tick by {
        let a = lemma_place_of_chosen(notes, selection, i);
        let b = lemma_place_of_chosen(notes, selection, j);
        assert(indices.contains(i as usize));
        if indices.len() >= 2 {
            lemma_earliest_bounds(notes, indices, b);
        }
    }
    assert forall|i: int| #[trigger] is_chosen(notes, selection, i) implies exists|j: int|
     #[trigger]
        is_chosen(notes, selection, j) && after[i].start_tick == notes[j].start_tick by {
        let a = lemma_place_of_chosen(notes, selection, i);
        assert(indices.contains(i as usize));
        if indices.len() >= 2 {
            let b = lemma_earliest_is_there(notes, indices);
            assert(indices.contains(indices[b]));
            assert(is_chosen(notes, selection, indices[b] as int));
        }
    }
}

/// Stretching the selected notes to the latest end aligns their ends.
pub(crate) proof fn lemma_ends_are_aligned(notes: Seq<Note>, selection: Seq<usize>)
    requires
        notes.len() <= usize::MAX,
    ensures
        ({
            let indices = chosen(selection, notes.len() as int);
            let after = if indices.len() < 2 {
                notes
            } else {
                edited_at(notes, indices, (StretchTo { end: latest_end(notes, indices) }))
            };
            ends_are_aligned(notes, after, selection)
        }),
{
    let indices = chosen(selection, notes.len() as int);
    let after = if indices.len() < 2 {
        notes
    } else {
        edited_at(notes, indices, (StretchTo { end: latest_end(notes, indices) }))
    };
    lemma_chosen(selection, notes.len() as int);
    assert forall|i: int|
        0 <= i < notes.len() && !is_chosen(notes, selection, i) implies #[trigger] after[i]
        == notes[i] by {
        assert(!indices.contains(i as usize));
    }
    assert forall|i: int, j: int|
        #![trigger is_chosen(notes, selection, i), is_chosen(notes, selection, j)]
        is_chosen(notes, selection, i) && is_chosen(notes, selection, j) && 0
            <= notes[i].start_tick < notes[j].end() implies after[i].end() >= notes[j].end() by {
        let a = lemma_place_of_chosen(notes, selection, i);
        let b = lemma_place_of_chosen(notes, selection, j);
        assert(indices.contains(i as usize));
        if indices.len() >= 2 {
            lemma_latest_bounds(notes, indices, b);
        }
    }
    assert forall|i: int| #[trigger]
        is_chosen(notes, selection, i) && notes[i].start_tick >= 0 implies exists|j: int| #[trigger]
        is_chosen(notes, selection, j) && after[i].end() == notes[j].end() by {
        let a = lemma_place_of_chosen(notes, selection, i);
        assert(indices.contains(i as usize));
        if indices.len() >= 2 {
            lemma_latest_bounds(notes, indices, a);
            let b = lemma_latest_is_there(notes, indices);
            assert(indices.contains(indices[b]));
            assert(is_chosen(notes, selection, indices[b] as int));
        }
    }
}

proof fn lemma_velocities_are_changed(notes: Seq<Note>, selection: Seq<usize>, delta: i32)
    requires
        notes.len() <= usize::MAX,
    ensures
        velocities_are_changed(
            notes,
            edited_at(notes, chosen(selection, notes.len() as int), (ChangeVelocity { delta })),
            selection,
            delta as int,
        ),
{
    let indices = chosen(selection, notes.len() as int);
    lemma_chosen(selection, notes.len() as int);
    assert forall|i: int| #[trigger] is_chosen(notes, selection, i) implies indices.contains(
        i as usize,
    ) by {}
    assert forall|i: int| 0 <= i < notes.len() && !is_chosen(notes, selection, i) implies !(
    #[trigger] indices.contains(i as usize)) by {}
}

impl EditorState {
    /// Moves the starts of the selected notes to the earliest one. Returns
    /// whether any note moved.
    pub fn align_selection_starts(&mut self) -> (changed: bool)
        ensures
            ({
                let notes = old(self)@.editor.notes;
                let indices = old(self)@.chosen();
                let after = if indices.len() < 2 {
                    notes
                } else {
                    edited_at(notes, indices, (MoveTo { start: earliest(notes, indices) }))
                };
                &&& final(self)@ == old(self)@.with_notes(after)
                &&& changed == (after != notes)
            }),
            starts_are_aligned(
                old(self).editor.notes@,
                final(self).editor.notes@,
                old(self).selection@,
            ),
    {
        let ghost before = self@;
        let count: usize = self.editor.notes.len();
        proof {
            assert(count == before.editor.notes.len());
            lemma_starts_are_aligned(before.editor.notes, before.selection);
        }
        let indices = self.selection_sorted();
        if indices.len() < 2 {
            assert(self@ =~= before.with_notes(before.editor.notes));
            return false;
        }
        proof {
            lemma_chosen(before.selection, count as int);
        }
        let start: i64 = find_earliest(&self.editor.notes, &indices);
        let changed = edit_notes(&mut self.editor.notes, &indices, &MoveTo { start });
        assert(self@ =~= before.with_notes(self@.editor.notes));
        changed
    }

    /// Stretches the selected notes to the latest end. Returns whether any
    /// note changed.
    pub fn align_selection_ends(&mut self) -> (changed: bool)
        ensures
            ({
                let notes = old(self)@.editor.notes;
                let indices = old(self)@.chosen();
                let after = if indices.len() < 2 {
                    notes
                } else {
                    edited_at(notes, indices, (StretchTo { end: latest_end(notes, indices) }))
                };
                &&& final(self)@ == old(self)@.with_notes(after)
                &&& changed == (after != notes)
            }),
            ends_are_aligned(
                old(self).editor.notes@,
                final(self).editor.notes@,
                old(self).selection@,
            ),
    {
        let ghost before = self@;
        let count: usize = self.editor.notes.len();
        proof {
            assert(count == before.editor.notes.len());
            lemma_ends_are_aligned(before.editor.notes, before.selection);
        }
        let indices = self.selection_sorted();
        if indices.len() < 2 {
            assert(self@ =~= before.with_notes(before.editor.notes));
            return false;
        }
        proof {
            lemma_chosen(before.selection, count as int);
        }
        let end: i64 = find_latest_end(&self.editor.notes, &indices);
        let changed = edit_notes(&mut self.editor.notes, &indices, &StretchTo { end });
        assert(self@ =~= before.with_notes(self@.editor.notes));
        changed
    }

    /// Changes the velocity of the selected notes, within 1 to 127. Returns
    /// whether any note changed.
    pub fn change_selection_velocity(&mut self, delta: i32) -> (changed: bool)
        ensures
            ({
                let notes = old(self)@.editor.notes;
                let after = edited_at(notes, old(self)@.chosen(), (ChangeVelocity { delta }));
                &&& final(self)@ == old(self)@.with_notes(after)
                &&& changed == (after != notes)
            }),
            velocities_are_changed(
                old(self).editor.notes@,
                final(self).editor.notes@,
                old(self).selection@,
                delta as int,
            ),
    {
        let ghost before = self@;
        let indices = self.selection_sorted();
        let count: usize = self.editor.notes.len();
        proof {
            lemma_velocities_are_changed(before.editor.notes, before.selection, delta);
            lemma_chosen(before.selection, count as int);
        }
        let changed = edit_notes(&mut self.editor.notes, &indices, &ChangeVelocity { delta });
        assert(self@ =~= before.with_notes(self@.editor.notes));
        changed
    }
}

/// The earliest start of the notes with the given numbers.
fn find_earliest(notes: &Vec<Note>, indices: &Vec<usize>) -> (start: i64)
    requires
        forall|i: int| 0 <= i < indices@.len() ==> (#[trigger] indices@[i]) < notes@.len(),
    ensures
        start == earliest(notes@, indices@),
{
    let mut start: i64 = i64::MAX;
    let mut at: usize = 0;
    while at < indices.len()
        invariant
            at <= indices@.len(),
            forall|i: int| 0 <= i < indices@.len() ==> (#[trigger] indices@[i]) < notes@.len(),
            start == earliest(notes@, indices@.take(at as int)),
        decreases indices@.len() - at,
    {
        assert(indices@.take(at + 1).drop_last() =~= indices@.take(at as int));
        let here: i64 = notes[indices[at]].start_tick;
        if here < start {
            start = here;
        }
        at += 1;
    }
    assert(indices@.take(at as int) =~= indices@);
    start
}

/// The latest end of the notes with the given numbers.
fn find_latest_end(notes: &Vec<Note>, indices: &Vec<usize>) -> (end: i64)
    requires
        forall|i: int| 0 <= i < indices@.len() ==> (#[trigger] indices@[i]) < notes@.len(),
    ensures
        end == latest_end(notes@, indices@),
{
    let mut end: i64 = i64::MIN;
    let mut at: usize = 0;
    while at < indices.len()
        invariant
            at <= indices@.len(),
            forall|i: int| 0 <= i < indices@.len() ==> (#[trigger] indices@[i]) < notes@.len(),
            end == latest_end(notes@, indices@.take(at as int)),
        decreases indices@.len() - at,
    {
        assert(indices@.take(at + 1).drop_last() =~= indices@.take(at as int));
        let here: i64 = notes[indices[at]].end_tick();
        if here > end {
            end = here;
        }
        at += 1;
    }
    assert(indices@.take(at as int) =~= indices@);
    end
}

proof fn lemma_extremes_fit(notes: Seq<Note>, indices: Seq<usize>, steps: int)
    requires
        indices.len() > 0,
        forall|i: int|
            #![trigger indices[i]]
            0 <= i < indices.len() ==> has_position(notes[indices[i] as int], steps),
    ensures
        i32::MIN <= lowest(notes, indices, steps) <= highest(notes, indices, steps) <= i32::MAX,
    decreases indices.len(),
{
    assert(has_position(notes[indices[indices.len() - 1] as int], steps));
    if indices.len() > 1 {
        let shorter = indices.drop_last();
        assert forall|i: int|
            #![trigger shorter[i]]
            0 <= i < shorter.len() implies has_position(notes[shorter[i] as int], steps) by {
            assert(indices[i] == shorter[i]);
        }
        lemma_extremes_fit(notes, shorter, steps);
    } else {
        assert(has_position(notes[indices[0] as int], steps));
    }
}

/// The lowest and the highest position of the notes with the given numbers.
fn find_extremes(notes: &Vec<Note>, indices: &Vec<usize>, steps: i32) -> (extremes: (i64, i64))
    requires
        12 <= steps <= 13,
        indices@.len() > 0,
        forall|i: int| 0 <= i < indices@.len() ==> (#[trigger] indices@[i]) < notes@.len(),
        forall|i: int|
            #![trigger indices@[i]]
            0 <= i < indices@.len() ==> has_position(notes@[indices@[i] as int], steps as int),
    ensures
        extremes.0 == lowest(notes@, indices@, steps as int),
        extremes.1 == highest(notes@, indices@, steps as int),
{
    assert(indices@[0] < notes@.len());
    let first: i64 = position_of(&notes[indices[0]], steps);
    let mut low: i64 = first;
    let mut high: i64 = first;
    let mut at: usize = 1;
    while at < indices.len()
        invariant
            1 <= at <= indices@.len(),
            12 <= steps <= 13,
            forall|i: int| 0 <= i < indices@.len() ==> (#[trigger] indices@[i]) < notes@.len(),
            forall|i: int|
                #![trigger indices@[i]]
                0 <= i < indices@.len() ==> has_position(notes@[indices@[i] as int], steps as int),
            low == lowest(notes@, indices@.take(at as int), steps as int),
            high == highest(notes@, indices@.take(at as int), steps as int),
        decreases indices@.len() - at,
    {
        assert(indices@.take(at + 1).drop_last() =~= indices@.take(at as int));
        assert(indices@[at as int] < notes@.len());
        let here: i64 = position_of(&notes[indices[at]], steps);
        if here < low {
            low = here;
        }
        if here > high {
            high = here;
        }
        at += 1;
    }
    assert(indices@.take(at as int) =~= indices@);
    (low, high)
}

/// Whether the steps of all the selected notes can be counted.
pub fn check_pitches(state: &EditorState) -> (fit: bool)
    ensures
        fit == pitches_fit(state@),
{
    let steps: i32 = state.editor.scale.steps_per_octave();
    let indices = state.selection_sorted();
    let count: usize = state.editor.notes.len();
    proof {
        lemma_chosen(state@.selection, count as int);
    }
    let mut at: usize = 0;
    while at < indices.len()
        invariant
            at <= indices@.len(),
            indices@ == state@.chosen(),
            12 <= steps <= 13,
            steps == state@.editor.scale.steps(),
            forall|i: int|
                0 <= i < indices@.len() ==> (#[trigger] indices@[i]) < state@.editor.notes.len(),
            forall|i: int|
                #![trigger state@.chosen()[i]]
                0 <= i < at ==> has_position(
                    state@.editor.notes[state@.chosen()[i] as int],
                    state@.editor.scale.steps(),
                ),
        decreases indices@.len() - at,
    {
        let note = state.editor.notes[indices[at]];
        assert(-0x8_0000_0000 <= note.octave * steps <= 0x8_0000_0000) by (nonlinear_arith)
            requires
                -0x8000_0000 <= note.octave <= 0x7fff_ffff,
                12 <= steps <= 13,
        ;
        let here: i64 = note.octave as i64 * steps as i64 + note.semitone as i64;
        if here < i32::MIN as i64 || here > i32::MAX as i64 {
            proof {
                let index = state@.chosen()[at as int];
                assert(!has_position(
                    state@.editor.notes[index as int],
                    state@.editor.scale.steps(),
                ));
            }
            return false;
        }
        at += 1;
    }
    true
}

/// The state after the selected notes were transposed, and whether that
/// changed anything.
pub open spec fn transposed(state: StateView, by: int) -> (StateView, bool) {
    let notes = state.editor.notes;
    let indices = state.chosen();
    let steps = state.editor.scale.steps();
    let amount = transposition(notes, indices, by, steps);
    if indices.len() == 0 || by == 0 || amount == 0 {
        (state, false)
    } else {
        (
            state.with_notes(
                edited_at(
                    notes,
                    indices,
                    (Transpose { by: amount as i64, steps: steps as i32 }),
                ),
            ),
            true,
        )
    }
}

/// The state after the selected notes were deleted.
pub open spec fn deleted(state: StateView) -> StateView {
    if state.chosen().len() == 0 {
        state
    } else {
        state.with_notes(
            without(state.editor.notes, state.selection, state.editor.notes.len() as int),
        ).with_none()
    }
}

/// The state after notes were pasted.
pub open spec fn with_pasted(state: StateView, notes: Seq<Note>, at: i64) -> StateView {
    if notes.len() == 0 {
        state
    } else {
        let all = state.editor.notes + all_pasted(notes, at, state.editor.scale);
        StateView {
            editor: EditorView {
                notes: all,
                tracks: with_room(state.editor.tracks, all),
                ..state.editor
            },
            ..state
        }.with_many(run_of(state.editor.notes.len() as int, all.len() as int))
    }
}

impl EditorState {
    /// Transposes the selected notes by steps of the scale. Where some would
    /// leave the octaves that there are, all move as far as they can together.
    /// Returns whether anything changed.
    pub fn transpose_selection(&mut self, steps: i32) -> (changed: bool)
        requires
            steps != 0 ==> pitches_fit(old(self)@),
        ensures
            (final(self)@, changed) == transposed(old(self)@, steps as int),
    {
        let ghost before = self@;
        let count: usize = self.editor.notes.len();
        let indices = self.selection_sorted();
        if indices.len() == 0 || steps == 0 {
            return false;
        }
        let per_octave: i32 = self.editor.scale.steps_per_octave();
        proof {
            lemma_chosen(before.selection, count as int);
            assert forall|i: int|
                #![trigger indices@[i]]
                0 <= i < indices@.len() implies has_position(
                before.editor.notes[indices@[i] as int],
                per_octave as int,
            ) by {
                assert(indices@[i] == before.chosen()[i]);
            }
            lemma_extremes_fit(before.editor.notes, indices@, per_octave as int);
        }
        let (low, high): (i64, i64) = find_extremes(&self.editor.notes, &indices, per_octave);
        let down: i64 = MIN_OCTAVE as i64 * per_octave as i64 - low;
        let up: i64 = MAX_OCTAVE as i64 * per_octave as i64 + per_octave as i64 - 1 - high;
        let raised: i64 = if (steps as i64) < down {
            down
        } else {
            steps as i64
        };
        let by: i64 = if raised > up {
            up
        } else {
            raised
        };
        if by == 0 {
            return false;
        }
        let edit = Transpose { by, steps: per_octave };
        edit_notes(&mut self.editor.notes, &indices, &edit);
        assert(self@ =~= before.with_notes(self@.editor.notes));
        true
    }

    /// Deletes the selected notes. Returns whether there were any.
    pub fn delete_selection(&mut self) -> (changed: bool)
        ensures
            final(self)@ == deleted(old(self)@),
            changed == (old(self)@.chosen().len() > 0),
    {
        let ghost before = self@;
        let indices = self.selection_sorted();
        if indices.len() == 0 {
            return false;
        }
        let mut kept: Vec<Note> = Vec::new();
        let mut at: usize = 0;
        while at < self.editor.notes.len()
            invariant
                self@ == before,
                at <= before.editor.notes.len(),
                kept@ == without(before.editor.notes, before.selection, at as int),
            decreases before.editor.notes.len() - at,
        {
            if !self.is_selected(at) {
                kept.push(self.editor.notes[at]);
            }
            at += 1;
        }
        self.editor.notes = kept;
        assert(self@ =~= before.with_notes(kept@));
        self.clear_selection();
        true
    }

    /// Copies the selected notes, counted from the start of the earliest one.
    pub fn copy_selection(&self) -> (notes: Option<Vec<Note>>)
        ensures
            match notes {
                Some(notes) => self@.chosen().len() > 0 && notes@ == copied(
                    self@.editor.notes,
                    self@.chosen(),
                ),
                None => self@.chosen().len() == 0,
            },
    {
        let indices = self.selection_sorted();
        if indices.len() == 0 {
            return None;
        }
        let count: usize = self.editor.notes.len();
        proof {
            lemma_chosen(self@.selection, count as int);
        }
        let base: i64 = find_earliest(&self.editor.notes, &indices);
        let ghost all = from_base(picked(self@.editor.notes, indices@), base);
        let mut ranked: Vec<ByStart> = Vec::new();
        let mut at: usize = 0;
        while at < indices.len()
            invariant
                at <= indices@.len(),
                forall|i: int|
                    0 <= i < indices@.len() ==> (#[trigger] indices@[i]) < self@.editor.notes.len(),
                all == from_base(picked(self@.editor.notes, indices@), base),
                ranked@ == all.take(at as int),
            decreases indices@.len() - at,
        {
            assert(indices@[at as int] < self@.editor.notes.len());
            let note = self.editor.notes[indices[at]];
            ranked.push(
                ByStart { note: Note { start_tick: minus(note.start_tick, base), ..note } },
            );
            assert(all.take(at + 1) =~= all.take(at as int).push(all[at as int]));
            at += 1;
        }
        assert(all.take(at as int) =~= all);
        let sorted = sort_stable(ranked);
        let mut notes: Vec<Note> = Vec::new();
        let mut done: usize = 0;
        while done < sorted.len()
            invariant
                done <= sorted@.len(),
                notes@ == plain(sorted@).take(done as int),
            decreases sorted@.len() - done,
        {
            notes.push(sorted[done].note);
            assert(plain(sorted@).take(done + 1) =~= plain(sorted@).take(done as int).push(
                plain(sorted@)[done as int],
            ));
            done += 1;
        }
        assert(plain(sorted@).take(done as int) =~= plain(sorted@));
        Some(notes)
    }

    /// Pastes notes with the position `at` as their start, and selects them.
    /// Returns whether there were any.
    pub fn paste_notes(&mut self, notes: &Vec<Note>, at: i64) -> (changed: bool)
        requires
            indices_fit(old(self)@.editor.notes),
            indices_fit(notes@),
        ensures
            final(self)@ == with_pasted(old(self)@, notes@, at),
            changed == (notes@.len() > 0),
    {
        if notes.len() == 0 {
            return false;
        }
        let ghost before = self@;
        let ghost added = all_pasted(notes@, at, before.editor.scale);
        let first: usize = self.editor.notes.len();
        let max_semitone: i32 = self.editor.scale.max_semitone();
        let mut done: usize = 0;
        assert(before.editor.notes + added.take(0) =~= before.editor.notes);
        while done < notes.len()
            invariant
                done <= notes@.len(),
                max_semitone == before.editor.scale.steps() - 1,
                11 <= max_semitone <= 12,
                added == all_pasted(notes@, at, before.editor.scale),
                self@ == before.with_notes(before.editor.notes + added.take(done as int)),
            decreases notes@.len() - done,
        {
            let mut note = notes[done];
            let start: i64 = plus(at, note.start_tick);
            note.start_tick = if start < 0 {
                0
            } else {
                start
            };
            note.semitone = if note.semitone < 0 {
                0
            } else if note.semitone > max_semitone {
                max_semitone
            } else {
                note.semitone
            };
            let ghost now = self@.editor.notes;
            self.editor.notes.push(note);
            proof {
                assert(note == added[done as int]);
                assert(added.take(done + 1) =~= added.take(done as int).push(note));
                assert(now.push(note) =~= before.editor.notes + added.take(done + 1));
                assert(self@ =~= before.with_notes(before.editor.notes + added.take(done + 1)));
            }
            done += 1;
        }
        let ghost all = before.editor.notes + added;
        proof {
            assert(added.take(done as int) =~= added);
            assert forall|i: int| 0 <= i < all.len() implies (#[trigger] all[i]).track < usize::MAX
                && all[i].lane < usize::MAX by {
                if i < before.editor.notes.len() {
                    assert(before.editor.notes[i].track < usize::MAX);
                } else {
                    assert(notes@[i - before.editor.notes.len()].track < usize::MAX);
                }
            }
        }
        self.editor.ensure_capacity_for_notes();
        let last: usize = self.editor.notes.len();
        let indices = number_run(first, last);
        self.select_many(indices);
        assert(self@ =~= with_pasted(before, notes@, at));
        true
    }
}

/// The numbers from `from` up to `to`.
pub fn number_run(from: usize, to: usize) -> (numbers: Vec<usize>)
    requires
        from <= to,
    ensures
        numbers@ == run_of(from as int, to as int),
{
    let mut numbers: Vec<usize> = Vec::new();
    let mut next: usize = from;
    while next < to
        invariant
            from <= next <= to,
            numbers@ == run_of(from as int, next as int),
        decreases to - next,
    {
        numbers.push(next);
        assert(numbers@ =~= run_of(from as int, next + 1));
        next += 1;
    }
    numbers
}

/// Tracks after the given lanes became controller lanes. Lanes of tracks that
/// are not there are left out.
pub open spec fn with_lane_ccs(
    tracks: Seq<TrackView>,
    lane_ccs: Seq<(usize, usize, u8)>,
) -> Seq<TrackView>
    decreases lane_ccs.len(),
{
    if lane_ccs.len() == 0 {
        tracks
    } else {
        let before = with_lane_ccs(tracks, lane_ccs.drop_last());
        let (track, lane, number) = lane_ccs.last();
        if track < before.len() {
            before.update(
                track as int,
                before[track as int].with_cc(lane as int, Some(number)),
            )
        } else {
            before
        }
    }
}

/// Notes with the steps held to the scale.
pub open spec fn held_to_scale(notes: Seq<Note>, scale: ScaleMode) -> Seq<Note> {
    Seq::new(
        notes.len(),
        |i: int| Note { semitone: clamped_semitone(notes[i].semitone, scale), ..notes[i] },
    )
}

/// A number held to `low` to `high`.
pub open spec fn within(value: u32, low: u32, high: u32) -> u32 {
    if value < low {
        low
    } else if value > high {
        high
    } else {
        value
    }
}

/// Whether a number is the lower number of a time signature.
pub open spec fn is_beat_type(beat_type: u32) -> bool {
    beat_type == 1 || beat_type == 2 || beat_type == 4 || beat_type == 8 || beat_type == 16
        || beat_type == 32
}

/// A sequence after its contents were replaced. What the new contents do not
/// tell stays.
pub open spec fn replaced(
    editor: EditorView,
    notes: Seq<Note>,
    tempo: Option<u32>,
    time_signature: Option<(u32, u32)>,
    lane_ccs: Seq<(usize, usize, u8)>,
) -> EditorView {
    let kept = if editor.tracks.len() > 1 {
        editor.tracks.take(1)
    } else {
        editor.tracks
    };
    EditorView {
        notes: held_to_scale(notes, editor.scale),
        tracks: with_lane_ccs(with_room(kept, notes), lane_ccs),
        tempo: match tempo {
            Some(tempo) => within(tempo, 20, 300),
            None => editor.tempo,
        },
        beats: match time_signature {
            Some((beats, _)) => within(beats, 1, 16),
            None => editor.beats,
        },
        beat_type: match time_signature {
            Some((_, beat_type)) if is_beat_type(beat_type) => beat_type,
            _ => editor.beat_type,
        },
        ..editor
    }
}

fn hold_within(value: u32, low: u32, high: u32) -> (result: u32)
    ensures
        result == within(value, low, high),
{
    if value < low {
        low
    } else if value > high {
        high
    } else {
        value
    }
}

impl EditorState {
    /// Replaces the sequence by a project that was opened. This can be undone.
    pub fn replace_project(&mut self, editor: MidiEditor)
        requires
            indices_fit(editor@.notes),
        ensures
            final(self)@ == (StateView {
                editor: EditorView {
                    tracks: with_room(editor@.tracks, editor@.notes),
                    ..editor@
                },
                dirty: true,
                ..old(self)@.recorded(EditGroup::Once).with_none()
            }),
    {
        let ghost before = self@;
        self.history.record(EditGroup::Once);
        self.editor = editor;
        self.editor.ensure_capacity_for_notes();
        self.clear_selection();
        self.dirty = true;
        assert(self@ =~= StateView {
            editor: EditorView { tracks: with_room(editor@.tracks, editor@.notes), ..editor@ },
            dirty: true,
            ..before.recorded(EditGroup::Once).with_none()
        });
    }

    /// Replaces the notes, and what else was read with them. This can be
    /// undone.
    pub fn replace_sequence(
        &mut self,
        notes: Vec<Note>,
        tempo: Option<u32>,
        time_signature: Option<(u32, u32)>,
        lane_ccs: &Vec<(usize, usize, u8)>,
    )
        requires
            indices_fit(notes@),
            forall|i: int| 0 <= i < lane_ccs@.len() ==> (#[trigger] lane_ccs@[i]).1 < usize::MAX,
        ensures
            final(self)@ == (StateView {
                editor: replaced(
                    old(self)@.editor,
                    notes@,
                    tempo,
                    time_signature,
                    lane_ccs@,
                ),
                dirty: true,
                ..old(self)@.recorded(EditGroup::Once).with_none()
            }),
    {
        let ghost before = self@;
        let ghost given = notes@;
        self.history.record(EditGroup::Once);
        let ghost old_tracks = self.editor.tracks@;
        self.editor.notes = notes;
        if self.editor.tracks.len() > 1 {
            self.editor.tracks.truncate(1);
            assert(self@.editor.tracks =~= before.editor.tracks.take(1));
        }
        self.editor.ensure_capacity_for_notes();
        let ghost roomy = self@.editor.tracks;
        let ghost seated = self@;
        let mut at: usize = 0;
        while at < lane_ccs.len()
            invariant
                at <= lane_ccs@.len(),
                forall|i: int|
                    0 <= i < lane_ccs@.len() ==> (#[trigger] lane_ccs@[i]).1 < usize::MAX,
                self@ == (StateView {
                    editor: EditorView {
                        tracks: with_lane_ccs(roomy, lane_ccs@.take(at as int)),
                        ..seated.editor
                    },
                    ..seated
                }),
            decreases lane_ccs@.len() - at,
        {
            let (track, lane, number): (usize, usize, u8) = lane_ccs[at];
            let ghost now = self@.editor.tracks;
            proof {
                assert(lane_ccs@[at as int].1 < usize::MAX);
                assert(lane_ccs@.take(at + 1).drop_last() =~= lane_ccs@.take(at as int));
            }
            if track < self.editor.tracks.len() {
                let mut info = self.editor.tracks[track].duplicate();
                info.set_lane_cc(lane, Some(number));
                self.editor.tracks.set(track, info);
                assert(self@.editor.tracks =~= now.update(
                    track as int,
                    now[track as int].with_cc(lane as int, Some(number)),
                ));
            }
            proof {
                assert(self@.editor.tracks =~= with_lane_ccs(roomy, lane_ccs@.take(at + 1)));
                assert(self@ =~= StateView {
                    editor: EditorView {
                        tracks: with_lane_ccs(roomy, lane_ccs@.take(at + 1)),
                        ..seated.editor
                    },
                    ..seated
                });
            }
            at += 1;
        }
        assert(lane_ccs@.take(at as int) =~= lane_ccs@);
        match tempo {
            Some(tempo) => {
                self.editor.tempo = hold_within(tempo, 20, 300);
            },
            None => {},
        }
        match time_signature {
            Some((beats, beat_type)) => {
                self.editor.beats = hold_within(beats, 1, 16);
                if beat_type == 1 || beat_type == 2 || beat_type == 4 || beat_type == 8
                    || beat_type == 16 || beat_type == 32 {
                    self.editor.beat_type = beat_type;
                }
            },
            None => {},
        }
        self.hold_semitones();
        self.clear_selection();
        self.dirty = true;
        assert(self@.editor =~= replaced(
            before.editor,
            given,
            tempo,
            time_signature,
            lane_ccs@,
        ));
    }

    /// Holds the steps of all notes to the scale.
    fn hold_semitones(&mut self)
        ensures
            final(self)@ == old(self)@.with_notes(
                held_to_scale(old(self)@.editor.notes, old(self)@.editor.scale),
            ),
    {
        let ghost before = self@;
        let ghost notes = before.editor.notes;
        let ghost after = held_to_scale(notes, before.editor.scale);
        let max_semitone: i32 = self.editor.scale.max_semitone();
        let mut at: usize = 0;
        assert(self@ =~= before.with_notes(notes));
        while at < self.editor.notes.len()
            invariant
                at <= notes.len(),
                notes == before.editor.notes,
                after == held_to_scale(notes, before.editor.scale),
                max_semitone == before.editor.scale.steps() - 1,
                11 <= max_semitone <= 12,
                self@ == before.with_notes(self@.editor.notes),
                self@.editor.notes.len() == notes.len(),
                forall|i: int|
                    0 <= i < notes.len() ==> #[trigger] self@.editor.notes[i] == (if i < at {
                        after[i]
                    } else {
                        notes[i]
                    }),
            decreases notes.len() - at,
        {
            let mut note = self.editor.notes[at];
            assert(note == notes[at as int]);
            note.semitone = if note.semitone < 0 {
                0
            } else if note.semitone > max_semitone {
                max_semitone
            } else {
                note.semitone
            };
            self.editor.notes.set(at, note);
            assert(self@ =~= before.with_notes(self@.editor.notes));
            at += 1;
        }
        assert(self@.editor.notes =~= after);
    }
}

/// The lowest and the highest position bound those of the notes.
proof fn lemma_extremes_bound(notes: Seq<Note>, indices: Seq<usize>, steps: int, i: int)
    requires
        0 <= i < indices.len(),
    ensures
        lowest(notes, indices, steps) <= position(notes[indices[i] as int], steps) <= highest(
            notes,
            indices,
            steps,
        ),
    decreases indices.len(),
{
    if indices.len() > 1 {
        if i < indices.len() - 1 {
            lemma_extremes_bound(notes, indices.drop_last(), steps, i);
        }
    }
}

/// The position of a transposed note.
proof fn lemma_transposed_position(note: Note, by: i64, steps: i32)
    requires
        12 <= steps <= 13,
        has_position(note, steps as int),
        -0x2_0000_0000 <= by <= 0x2_0000_0000,
    ensures
        ({
            let after = (Transpose { by, steps }).edited(note);
            &&& position(after, steps as int) == position(note, steps as int) + by
            &&& 0 <= after.semitone < steps
        }),
{
    let moved = position(note, steps as int) + by;
    let quotient = moved / steps as int;
    let rest = moved % steps as int;
    vstd::arithmetic::div_mod::lemma_fundamental_div_mod(moved, steps as int);
    assert(steps * quotient == quotient * steps) by (nonlinear_arith);
    assert(-0x8000_0000 <= quotient <= 0x7fff_ffff) by (nonlinear_arith)
        requires
            -0x3_0000_0000 <= moved <= 0x3_0000_0000,
            moved == steps * quotient + rest,
            0 <= rest < steps,
            12 <= steps <= 13,
    ;
}

/// Transposing keeps the intervals between the selected notes.
pub proof fn transposing_keeps_intervals(state: StateView, by: i32, i: int, j: int)
    requires
        by != 0 ==> pitches_fit(state),
        state.editor.notes.len() <= usize::MAX,
        0 <= i < state.chosen().len(),
        0 <= j < state.chosen().len(),
    ensures
        ({
            let steps = state.editor.scale.steps();
            let before = state.editor.notes;
            let after = transposed(state, by as int).0.editor.notes;
            let a = state.chosen()[i] as int;
            let b = state.chosen()[j] as int;
            position(after[a], steps) - position(after[b], steps) == position(before[a], steps)
                - position(before[b], steps)
        }),
{
    lemma_transposition(state, by, i);
    lemma_transposition(state, by, j);
}

/// How a selected note is transposed.
proof fn lemma_transposition(state: StateView, by: i32, i: int)
    requires
        by != 0 ==> pitches_fit(state),
        state.editor.notes.len() <= usize::MAX,
        0 <= i < state.chosen().len(),
    ensures
        ({
            let steps = state.editor.scale.steps();
            let amount = transposition(state.editor.notes, state.chosen(), by as int, steps);
            let at = state.chosen()[i] as int;
            let after = transposed(state, by as int).0.editor.notes;
            &&& 0 <= at < state.editor.notes.len()
            &&& by != 0 ==> position(after[at], steps) == position(state.editor.notes[at], steps)
                + amount
            &&& by == 0 ==> after == state.editor.notes
        }),
{
    let notes = state.editor.notes;
    let indices = state.chosen();
    let steps = state.editor.scale.steps();
    lemma_chosen(state.selection, notes.len() as int);
    if by != 0 {
        assert forall|k: int|
            #![trigger indices[k]]
            0 <= k < indices.len() implies has_position(notes[indices[k] as int], steps) by {
            assert(indices[k] == state.chosen()[k]);
        }
        lemma_extremes_fit(notes, indices, steps);
        let amount = transposition(notes, indices, by as int, steps);
        let at = indices[i];
        assert(indices.contains(at));
        assert(has_position(notes[at as int], steps));
        lemma_transposed_position(notes[at as int], amount as i64, steps as i32);
    }
}

/// Transposed notes stay in the octaves that there are, where they lay in them
/// before.
pub proof fn transposing_stays_in_range(state: StateView, by: i32, i: int)
    requires
        by != 0 ==> pitches_fit(state),
        state.editor.notes.len() <= usize::MAX,
        0 <= i < state.chosen().len(),
        forall|k: int|
            #![trigger state.chosen()[k]]
            0 <= k < state.chosen().len() ==> MIN_OCTAVE * state.editor.scale.steps() <= position(
                state.editor.notes[state.chosen()[k] as int],
                state.editor.scale.steps(),
            ) < (MAX_OCTAVE + 1) * state.editor.scale.steps(),
    ensures
        ({
            let steps = state.editor.scale.steps();
            let after = transposed(state, by as int).0.editor.notes;
            MIN_OCTAVE * steps <= position(after[state.chosen()[i] as int], steps) < (MAX_OCTAVE
                + 1) * steps
        }),
{
    let notes = state.editor.notes;
    let indices = state.chosen();
    let steps = state.editor.scale.steps();
    lemma_transposition(state, by, i);
    lemma_extremes_bound(notes, indices, steps, i);
    lemma_extremes_in(notes, indices, steps);
    let low = lowest(notes, indices, steps);
    let high = highest(notes, indices, steps);
}

/// The lowest and the highest position belong to some note.
proof fn lemma_extremes_in(notes: Seq<Note>, indices: Seq<usize>, steps: int)
    requires
        indices.len() > 0,
        steps == 12 || steps == 13,
        forall|k: int|
            #![trigger indices[k]]
            0 <= k < indices.len() ==> MIN_OCTAVE * steps <= position(
                notes[indices[k] as int],
                steps,
            ) < (MAX_OCTAVE + 1) * steps,
    ensures
        MIN_OCTAVE * steps <= lowest(notes, indices, steps),
        highest(notes, indices, steps) < (MAX_OCTAVE + 1) * steps,
    decreases indices.len(),
{
    if indices.len() > 1 {
        let shorter = indices.drop_last();
        assert forall|k: int|
            #![trigger shorter[k]]
            0 <= k < shorter.len() implies MIN_OCTAVE * steps <= position(
            notes[shorter[k] as int],
            steps,
        ) < (MAX_OCTAVE + 1) * steps by {
            assert(indices[k] == shorter[k]);
        }
        lemma_extremes_in(notes, shorter, steps);
        let last = indices[indices.len() - 1];
        assert(MIN_OCTAVE * steps <= position(notes[last as int], steps));
    } else {
        let first = indices[0];
        assert(MIN_OCTAVE * steps <= position(notes[first as int], steps));
    }
}

/// A velocity that was changed is one of MIDI.
pub proof fn changed_velocity_is_in_range(note: Note, delta: i32)
    ensures
        1 <= (ChangeVelocity { delta }).edited(note).velocity <= 127,
{
}

/// After stretching to the latest end, the selected notes end together.
pub proof fn stretched_notes_end_together(note: Note, end: i64)
    requires
        note.start_tick < end,
        note.start_tick >= 0,
    ensures
        (StretchTo { end }).edited(note).end() == end,
        (StretchTo { end }).edited(note).start_tick == note.start_tick,
{
}

/// Notes as items that are ranked by their starts.
pub open spec fn ranked(notes: Seq<Note>) -> Seq<ByStart> {
    Seq::new(notes.len(), |i: int| ByStart { note: notes[i] })
}

/// The earliest start is not behind any other.
proof fn lemma_earliest_bounds(notes: Seq<Note>, indices: Seq<usize>, i: int)
    requires
        0 <= i < indices.len(),
    ensures
        earliest(notes, indices) <= notes[indices[i] as int].start_tick,
    decreases indices.len(),
{
    if i < indices.len() - 1 {
        lemma_earliest_bounds(notes, indices.drop_last(), i);
    }
}

/// The earliest start is not before 0 where no start is.
proof fn lemma_earliest_positive(notes: Seq<Note>, indices: Seq<usize>)
    requires
        forall|i: int|
            #![trigger indices[i]]
            0 <= i < indices.len() ==> notes[indices[i] as int].start_tick >= 0,
    ensures
        earliest(notes, indices) >= 0,
    decreases indices.len(),
{
    if indices.len() > 0 {
        let shorter = indices.drop_last();
        assert forall|i: int|
            #![trigger shorter[i]]
            0 <= i < shorter.len() implies notes[shorter[i] as int].start_tick >= 0 by {
            assert(indices[i] == shorter[i]);
        }
        lemma_earliest_positive(notes, shorter);
        let last = indices[indices.len() - 1];
        assert(notes[last as int].start_tick >= 0);
    }
}

/// Pasting copied notes where they were copied from gives the same notes, in
/// the order of their starts.
pub proof fn pasting_in_place_gives_the_copied_notes(
    notes: Seq<Note>,
    indices: Seq<usize>,
    scale: ScaleMode,
)
    requires
        forall|i: int|
            #![trigger indices[i]]
            0 <= i < indices.len() ==> {
                &&& notes[indices[i] as int].start_tick >= 0
                &&& 0 <= notes[indices[i] as int].semitone < scale.steps()
            },
    ensures
        all_pasted(copied(notes, indices), earliest(notes, indices), scale) == plain(
            stable_sorted(ranked(picked(notes, indices))),
        ),
{
    broadcast use vstd::seq_lib::group_to_multiset_ensures;

    let base = earliest(notes, indices);
    let items = ranked(picked(notes, indices));
    let shift = |item: ByStart|
        ByStart {
            note: Note { start_tick: saturate(item.note.start_tick - base), ..item.note },
        };
    lemma_earliest_positive(notes, indices);
    assert forall|i: int| 0 <= i < items.len() implies base <= (
    #[trigger] items[i]).note.start_tick && items[i].note.start_tick >= 0 && 0
        <= items[i].note.semitone < scale.steps() by {
        lemma_earliest_bounds(notes, indices, i);
        assert(items[i].note == notes[indices[i] as int]);
    }
    assert forall|i: int, j: int|
        #![trigger items[i], items[j]]
        0 <= i < items.len() && 0 <= j < items.len() implies shift(items[i]).rank_le(
        shift(items[j]),
    ) == items[i].rank_le(items[j]) by {
    }
    stable_sort_of_images(items, shift);
    assert(mapped(items, shift) =~= from_base(picked(notes, indices), base));
    let sorted = stable_sorted(items);
    stable_sort_orders(items);
    let again = all_pasted(copied(notes, indices), base, scale);
    assert forall|k: int| 0 <= k < sorted.len() implies #[trigger] again[k] == sorted[k].note by {
        assert(sorted.to_multiset().count(sorted[k]) > 0);
        assert(items.contains(sorted[k]));
        let m = choose|m: int| 0 <= m < items.len() && items[m] == sorted[k];
        assert(base <= items[m].note.start_tick);
    }
    assert(again =~= plain(sorted));
}

proof fn lemma_places_left(notes: Seq<Note>, selection: Seq<usize>, count: int) -> (places: Seq<
    int,
>)
    requires
        0 <= count <= notes.len() <= usize::MAX,
    ensures
        places.len() == without(notes, selection, count).len(),
        forall|k: int|
            0 <= k < places.len() ==> 0 <= #[trigger] places[k] < count && without(
                notes,
                selection,
                count,
            )[k] == notes[places[k]],
        forall|k: int, l: int|
            #![trigger places[k], places[l]]
            0 <= k < l < places.len() ==> places[k] < places[l],
        forall|i: int|
            0 <= i < count ==> (!selection.contains(i as usize) <==> #[trigger] places.contains(i)),
    decreases count,
{
    if count == 0 {
        Seq::empty()
    } else {
        let before = lemma_places_left(notes, selection, count - 1);
        if selection.contains((count - 1) as usize) {
            assert forall|i: int| 0 <= i < count implies (!selection.contains(i as usize)
                <==> #[trigger] before.contains(i)) by {
                if i == count - 1 && before.contains(i) {
                    let k = choose|k: int| 0 <= k < before.len() && before[k] == i;
                    assert(before[k] < count - 1);
                }
            }
            before
        } else {
            let places = before.push(count - 1);
            assert forall|i: int| 0 <= i < count implies (!selection.contains(i as usize)
                <==> #[trigger] places.contains(i)) by {
                if i == count - 1 {
                    assert(places[before.len() as int] == i);
                } else if before.contains(i) {
                    let k = choose|k: int| 0 <= k < before.len() && before[k] == i;
                    assert(places[k] == i);
                } else if places.contains(i) {
                    let k = choose|k: int| 0 <= k < places.len() && places[k] == i;
                    assert(before[k] == i);
                }
            }
            places
        }
    }
}

/// Deleting takes away the selected notes and leaves all others, in their order
/// and as they were. Afterwards nothing is selected. The places of the notes
/// that are left are returned.
pub proof fn deleting_takes_the_selected_notes(state: StateView) -> (places: Seq<int>)
    requires
        state.editor.notes.len() <= usize::MAX,
    ensures
        ({
            let notes = state.editor.notes;
            let after = deleted(state).editor.notes;
            &&& places.len() == after.len()
            &&& forall|k: int|
                0 <= k < places.len() ==> 0 <= #[trigger] places[k] < notes.len() && after[k]
                    == notes[places[k]]
            &&& forall|k: int, l: int|
                #![trigger places[k], places[l]]
                0 <= k < l < places.len() ==> places[k] < places[l]
            &&& forall|i: int|
                0 <= i < notes.len() ==> (!state.selection.contains(i as usize) <==> #[trigger]
                places.contains(i))
            &&& deleted(state).editor.tracks == state.editor.tracks
            &&& after.len() < notes.len() ==> deleted(state).selection.len() == 0 && deleted(
                state,
            ).selected is None
        }),
{
    let notes = state.editor.notes;
    let places = lemma_places_left(notes, state.selection, notes.len() as int);
    lemma_chosen(state.selection, notes.len() as int);
    if state.chosen().len() == 0 {
        let all = Seq::new(notes.len(), |i: int| i);
        assert forall|i: int| 0 <= i < notes.len() implies (!state.selection.contains(i as usize)
            <==> #[trigger] all.contains(i)) by {
            assert(all[i] == i);
            assert(!state.chosen().contains(i as usize));
        }
        all
    } else {
        places
    }
}

/// What is copied are the selected notes, each with the time that it started
/// after the first of them, in the order of their starts. Nothing else of them
/// changes.
pub proof fn copying_takes_the_selected_notes(
    notes: Seq<Note>,
    indices: Seq<usize>,
    i: int,
    j: int,
)
    requires
        0 <= i < indices.len(),
        forall|k: int|
            #![trigger indices[k]]
            0 <= k < indices.len() ==> notes[indices[k] as int].start_tick >= 0,
    ensures
        ({
            let after = copied(notes, indices);
            let note = notes[indices[i] as int];
            &&& after.len() == indices.len()
            &&& after[0].start_tick == 0
            &&& exists|first: int|
                0 <= first < indices.len() && after.contains(
                    Note {
                        start_tick: (note.start_tick
                            - notes[#[trigger] indices[first] as int].start_tick) as i64,
                        ..note
                    },
                ) && note.start_tick >= notes[indices[first] as int].start_tick
            &&& 0 <= j < i ==> after[j].start_tick <= after[i].start_tick
        }),
{
    broadcast use vstd::seq_lib::group_to_multiset_ensures;

    let base = earliest(notes, indices);
    let first = lemma_earliest_is_there(notes, indices);
    lemma_earliest_positive(notes, indices);
    let items = from_base(picked(notes, indices), base);
    let sorted = stable_sorted(items);
    stable_sort_orders(items);
    let after = copied(notes, indices);
    let note = notes[indices[i] as int];
    lemma_earliest_bounds(notes, indices, i);
    assert(notes[indices[i] as int].start_tick >= 0);
    assert(items[i].note == (Note { start_tick: (note.start_tick - base) as i64, ..note }));
    assert(items.to_multiset().count(items[i]) > 0);
    assert(sorted.contains(items[i]));
    let k = choose|k: int| 0 <= k < sorted.len() && sorted[k] == items[i];
    assert(after[k] == items[i].note);
    assert(notes[indices[first] as int].start_tick == base);
    // The first of them starts at 0, and none before.
    assert(notes[indices[first] as int].start_tick >= 0);
    assert(items[first].note.start_tick == 0);
    assert(items.to_multiset().count(items[first]) > 0);
    assert(sorted.contains(items[first]));
    let m = choose|m: int| 0 <= m < sorted.len() && sorted[m] == items[first];
    assert(sorted[0].rank_le(sorted[m]));
    assert(sorted.to_multiset().count(sorted[0]) > 0);
    assert(items.contains(sorted[0]));
    let p = choose|p: int| 0 <= p < items.len() && items[p] == sorted[0];
    lemma_earliest_bounds(notes, indices, p);
    assert(notes[indices[p] as int].start_tick >= 0);
    assert(sorted[0].note.start_tick >= 0);
    if 0 <= j < i {
        assert(sorted[j].rank_le(sorted[i]));
    }
}

/// What is pasted comes behind the notes that are there, which stay as they are.
/// Each pasted note starts as much after the position as it started after the
/// first copied one; its pitch, length, velocity, track and lane are those that
/// were copied. The pasted notes are selected, and no others.
pub proof fn pasting_adds_the_copied_notes(state: StateView, notes: Seq<Note>, at: i64, i: int)
    requires
        0 <= i < notes.len(),
        state.editor.notes.len() + notes.len() <= usize::MAX,
        0 <= at + notes[i].start_tick <= i64::MAX,
    ensures
        ({
            let after = with_pasted(state, notes, at);
            let count = state.editor.notes.len();
            let new = after.editor.notes[count + i];
            &&& after.editor.notes.len() == count + notes.len()
            &&& after.editor.notes.take(count as int) == state.editor.notes
            &&& new.start_tick == at + notes[i].start_tick
            &&& new.duration == notes[i].duration
            &&& new.octave == notes[i].octave
            &&& new.velocity == notes[i].velocity
            &&& new.velocity_to == notes[i].velocity_to
            &&& new.track == notes[i].track
            &&& new.lane == notes[i].lane
            &&& 0 <= notes[i].semitone < state.editor.scale.steps() ==> new.semitone
                == notes[i].semitone
            &&& forall|k: usize| #[trigger]
                after.selection.contains(k) <==> count <= k < count + notes.len()
            &&& after.editor.tempo == state.editor.tempo
            &&& after.editor.scale == state.editor.scale
        }),
{
    let after = with_pasted(state, notes, at);
    let count = state.editor.notes.len();
    assert(after.editor.notes.take(count as int) =~= state.editor.notes);
    assert forall|k: usize| #[trigger] after.selection.contains(k) <==> count <= k < count
        + notes.len() by {
        if count <= k < count + notes.len() {
            assert(after.selection[k - count] == k);
        }
    }
}

/// Transposing by some steps moves the key of every selected note by as many
/// keys, if all of them stay within octaves -2 to 8; else all go together, as
/// far as the first of them to reach the end. Nothing else of a note changes,
/// and the other notes stay.
pub proof fn transposing_moves_every_key(state: StateView, by: i32, i: int)
    requires
        pitches_fit(state),
        by != 0,
        state.editor.notes.len() <= usize::MAX,
        is_chosen(state.editor.notes, state.selection, i),
    ensures
        ({
            let scale = state.editor.scale;
            let steps = scale.steps();
            let notes = state.editor.notes;
            let after = transposed(state, by as int).0.editor.notes;
            let stays = forall|k: int| #[trigger]
                is_chosen(notes, state.selection, k) ==> -2 * steps <= notes[k].octave * steps
                    + notes[k].semitone + by <= 8 * steps + steps - 1;
            let lay = forall|k: int| #[trigger]
                is_chosen(notes, state.selection, k) ==> -2 * steps <= notes[k].octave * steps
                    + notes[k].semitone <= 8 * steps + steps - 1;
            let amount = key_number(after[i].semitone as int, after[i].octave as int, scale)
                - key_number(notes[i].semitone as int, notes[i].octave as int, scale);
            &&& others_stay(notes, after, state.selection)
            &&& after[i] == (Note {
                semitone: after[i].semitone,
                octave: after[i].octave,
                ..notes[i]
            })
            &&& stays ==> amount == by
            &&& stays ==> 0 <= after[i].semitone < steps
            &&& lay && !stays && by > 0 ==> exists|k: int| #[trigger]
                is_chosen(notes, state.selection, k) && after[k].octave * steps + after[k].semitone
                    == 8 * steps + steps - 1
            &&& lay && !stays && by < 0 ==> exists|k: int| #[trigger]
                is_chosen(notes, state.selection, k) && after[k].octave * steps + after[k].semitone
                    == -2 * steps
        }),
{
    let scale = state.editor.scale;
    let steps = scale.steps();
    let notes = state.editor.notes;
    let indices = state.chosen();
    let result = transposed(state, by as int);
    let after = result.0.editor.notes;
    let at = lemma_place_of_chosen(notes, state.selection, i);
    lemma_chosen(state.selection, notes.len() as int);
    lemma_transposition(state, by, at);
    let amount = transposition(notes, indices, by as int, steps);
    let (low, high) = lemma_extremes_are_there(notes, indices, steps);
    assert(indices.contains(indices[low]) && indices.contains(indices[high]));
    assert(is_chosen(notes, state.selection, indices[low] as int));
    assert(is_chosen(notes, state.selection, indices[high] as int));
    assert forall|k: int|
        0 <= k < notes.len() && !is_chosen(notes, state.selection, k) implies #[trigger] after[k]
        == notes[k] by {
        assert(!indices.contains(k as usize));
    }
    assert(indices.contains(i as usize));
    assert((after[i].octave - 4) * steps == after[i].octave * steps - 4 * steps)
        by (nonlinear_arith);
    assert((notes[i].octave - 4) * steps == notes[i].octave * steps - 4 * steps)
        by (nonlinear_arith);
    assert(key_number(after[i].semitone as int, after[i].octave as int, scale) - key_number(
        notes[i].semitone as int,
        notes[i].octave as int,
        scale,
    ) == position(after[i], steps) - position(notes[i], steps));
    lemma_extremes_bound(notes, indices, steps, low);
    let stays = forall|k: int| #[trigger]
        is_chosen(notes, state.selection, k) ==> -2 * steps <= notes[k].octave * steps
            + notes[k].semitone + by <= 8 * steps + steps - 1;
    if stays {
        assert(amount == by);
        assert(has_position(notes[indices[at] as int], steps));
        lemma_transposed_position(notes[i], amount as i64, steps as i32);
    } else {
        let k = choose|k: int| #[trigger]
            is_chosen(notes, state.selection, k) && !(-2 * steps <= notes[k].octave * steps
                + notes[k].semitone + by <= 8 * steps + steps - 1);
        let place = lemma_place_of_chosen(notes, state.selection, k);
        lemma_extremes_bound(notes, indices, steps, place);
        lemma_transposition(state, by, high);
        lemma_transposition(state, by, low);
        let lay = forall|k: int| #[trigger]
            is_chosen(notes, state.selection, k) ==> -2 * steps <= notes[k].octave * steps
                + notes[k].semitone <= 8 * steps + steps - 1;
        if lay && by > 0 {
            assert(amount == 8 * steps + steps - 1 - highest(notes, indices, steps));
            assert(position(after[indices[high] as int], steps) == 8 * steps + steps - 1);
        }
        if lay && by < 0 {
            assert(amount == -2 * steps - lowest(notes, indices, steps));
            assert(position(after[indices[low] as int], steps) == -2 * steps);
        }
    }
}

proof fn lemma_extremes_are_there(notes: Seq<Note>, indices: Seq<usize>, steps: int) -> (at: (
    int,
    int,
))
    requires
        indices.len() > 0,
    ensures
        0 <= at.0 < indices.len(),
        0 <= at.1 < indices.len(),
        position(notes[indices[at.0] as int], steps) == lowest(notes, indices, steps),
        position(notes[indices[at.1] as int], steps) == highest(notes, indices, steps),
    decreases indices.len(),
{
    if indices.len() == 1 {
        (0, 0)
    } else {
        let shorter = indices.drop_last();
        let before = lemma_extremes_are_there(notes, shorter, steps);
        let here = position(notes[indices.last() as int], steps);
        (
            if here < lowest(notes, shorter, steps) {
                indices.len() - 1
            } else {
                before.0
            },
            if here > highest(notes, shorter, steps) {
                indices.len() - 1
            } else {
                before.1
            },
        )
    }
}

/// What was read replaces the notes and the tempo, the time signature and the
/// controller lanes that it tells of. Notes whose steps the scale has are taken
/// as they are. A tempo from 20 to 300 and a number of beats from 1 to 16 are
/// taken as they are, and others become the nearest of these; what is no lower
/// number of a time signature is not taken. The first track stays.
pub proof fn what_was_read_replaces_the_sequence(
    editor: EditorView,
    notes: Seq<Note>,
    tempo: Option<u32>,
    time_signature: Option<(u32, u32)>,
    lane_ccs: Seq<(usize, usize, u8)>,
    i: int,
)
    requires
        indices_fit(notes),
        0 <= i < notes.len(),
    ensures
        ({
            let after = replaced(editor, notes, tempo, time_signature, lane_ccs);
            &&& after.notes.len() == notes.len()
            &&& after.notes[i] == (Note { semitone: after.notes[i].semitone, ..notes[i] })
            &&& 0 <= notes[i].semitone < editor.scale.steps() ==> after.notes[i] == notes[i]
            &&& notes[i].semitone < 0 ==> after.notes[i].semitone == 0
            &&& notes[i].semitone >= editor.scale.steps() ==> after.notes[i].semitone
                == editor.scale.steps() - 1
            &&& tempo is None ==> after.tempo == editor.tempo
            &&& tempo is Some && 20 <= tempo->0 <= 300 ==> after.tempo == tempo->0
            &&& tempo is Some && tempo->0 < 20 ==> after.tempo == 20
            &&& tempo is Some && tempo->0 > 300 ==> after.tempo == 300
            &&& time_signature is None ==> after.beats == editor.beats && after.beat_type
                == editor.beat_type
            &&& time_signature is Some ==> {
                let (beats, beat_type) = time_signature->0;
                &&& 1 <= beats <= 16 ==> after.beats == beats
                &&& beats < 1 ==> after.beats == 1
                &&& beats > 16 ==> after.beats == 16
                &&& (beat_type == 1 || beat_type == 2 || beat_type == 4 || beat_type == 8
                    || beat_type == 16 || beat_type == 32) ==> after.beat_type == beat_type
                &&& !(beat_type == 1 || beat_type == 2 || beat_type == 4 || beat_type == 8
                    || beat_type == 16 || beat_type == 32) ==> after.beat_type
                    == editor.beat_type
            }
            &&& after.scale == editor.scale
            &&& after.swing_peak_ratio == editor.swing_peak_ratio
            &&& after.waltz_ratio == editor.waltz_ratio
            &&& notes[i].track < after.tracks.len()
            &&& notes[i].lane < after.tracks[notes[i].track as int].lane_count()
            &&& editor.tracks.len() > 0 ==> after.tracks.len() > 0 && after.tracks[0].name
                == editor.tracks[0].name
        }),
{
    let kept = if editor.tracks.len() > 1 {
        editor.tracks.take(1)
    } else {
        editor.tracks
    };
    let roomy = with_room(kept, notes);
    every_note_gets_a_lane(kept, notes, i, 0);
    lemma_numbering_keeps_lanes(roomy, lane_ccs, notes[i].track as int);
    if editor.tracks.len() > 0 {
        lemma_numbering_keeps_lanes(roomy, lane_ccs, 0);
    }
}

proof fn lemma_numbering_keeps_lanes(
    tracks: Seq<TrackView>,
    lane_ccs: Seq<(usize, usize, u8)>,
    t: int,
)
    requires
        0 <= t < tracks.len(),
    ensures
        with_lane_ccs(tracks, lane_ccs).len() == tracks.len(),
        with_lane_ccs(tracks, lane_ccs)[t].lanes == tracks[t].lanes,
        with_lane_ccs(tracks, lane_ccs)[t].name == tracks[t].name,
    decreases lane_ccs.len(),
{
    if lane_ccs.len() > 0 {
        lemma_numbering_keeps_lanes(tracks, lane_ccs.drop_last(), t);
    }
}

/// A lane for which a controller was read, and for no other afterwards, becomes
/// a lane of that controller. Any other lane keeps its number.
pub proof fn a_lane_gets_the_controller_that_was_read(
    tracks: Seq<TrackView>,
    lane_ccs: Seq<(usize, usize, u8)>,
    track: usize,
    lane: usize,
    number: u8,
)
    requires
        track < tracks.len(),
    ensures
        (exists|k: int|
            0 <= k < lane_ccs.len() && #[trigger] lane_ccs[k] == (track, lane, number)) && (
        forall|k: int|
            0 <= k < lane_ccs.len() && (#[trigger] lane_ccs[k]).0 == track && lane_ccs[k].1 == lane
                ==> lane_ccs[k].2 == number) ==> with_lane_ccs(tracks, lane_ccs)[track as int].cc_at(
            lane as int,
        ) == Some(number),
        (forall|k: int|
            0 <= k < lane_ccs.len() ==> !((#[trigger] lane_ccs[k]).0 == track && lane_ccs[k].1
                == lane)) ==> with_lane_ccs(tracks, lane_ccs)[track as int].cc_at(lane as int)
            == tracks[track as int].cc_at(lane as int),
    decreases lane_ccs.len(),
{
    if lane_ccs.len() > 0 {
        let shorter = lane_ccs.drop_last();
        let last = lane_ccs[lane_ccs.len() - 1];
        lemma_numbering_keeps_lanes(tracks, shorter, track as int);
        a_lane_gets_the_controller_that_was_read(tracks, shorter, track, lane, number);
        assert forall|k: int| 0 <= k < shorter.len() implies #[trigger] shorter[k] == lane_ccs[k] by {
        }
        if (exists|k: int|
            0 <= k < lane_ccs.len() && #[trigger] lane_ccs[k] == (track, lane, number)) && (
        forall|k: int|
            0 <= k < lane_ccs.len() && (#[trigger] lane_ccs[k]).0 == track && lane_ccs[k].1 == lane
                ==> lane_ccs[k].2 == number) {
            if !(last.0 == track && last.1 == lane) {
                let k = choose|k: int|
                    0 <= k < lane_ccs.len() && #[trigger] lane_ccs[k] == (track, lane, number);
                assert(shorter[k] == (track, lane, number));
            }
        }
    }
}

/// A number inside of a range is taken as it is; any other one becomes the
/// nearest that is inside.
pub proof fn a_number_is_held_to_its_range(value: u32, low: u32, high: u32)
    requires
        low <= high,
    ensures
        low <= value <= high ==> within(value, low, high) == value,
        value < low ==> within(value, low, high) == low,
        value > high ==> within(value, low, high) == high,
{
}

} // verus!
