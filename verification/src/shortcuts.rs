//! What the keyboard does.

use crate::edit::{
    copied, deleted, earliest, edited_at, ends_are_aligned, from_base, latest_end,
    lemma_ends_are_aligned, lemma_starts_are_aligned, picked, pitches_fit, starts_are_aligned,
    transposed, with_pasted, without, MoveTo, StretchTo,
};
use crate::history::{EditGroup, SnapshotView};
use crate::lanes::indices_fit;
use crate::playback::EditorCommand;
use crate::sequencer::{Note, ScaleMode};
use crate::sorting::{stable_sort_orders, stable_sorted};
use crate::state::{lemma_chosen, EditorState, StateView};
use vstd::prelude::*;

verus! {

/// The keys that were pressed in a frame.
#[derive(Clone, Copy, PartialEq, Eq, Structural, Debug)]
pub struct Shortcuts {
    pub copy: bool,
    pub cut: bool,
    pub paste: bool,
    pub undo: bool,
    pub redo: bool,
    pub delete: bool,
    /// Align the starts of the selected notes.
    pub align_head: bool,
    /// Align their ends.
    pub align_tail: bool,
    /// By how many steps to transpose them.
    pub transpose: i32,
    /// Save the project.
    pub save: bool,
}

/// By how many steps the arrow keys transpose: a step each, or with shift an
/// octave.
pub fn arrow_steps(
    octave_up: bool,
    octave_down: bool,
    up: bool,
    down: bool,
    scale: ScaleMode,
) -> (steps: i32)
    ensures
        steps == (if octave_up {
            scale.steps()
        } else {
            0
        }) - (if octave_down {
            scale.steps()
        } else {
            0
        }) + (if up {
            1int
        } else {
            0
        }) - (if down {
            1int
        } else {
            0
        }),
{
    let octave: i32 = scale.steps_per_octave();
    let mut steps: i32 = 0;
    if octave_up {
        steps += octave;
    }
    if octave_down {
        steps -= octave;
    }
    if up {
        steps += 1;
    }
    if down {
        steps -= 1;
    }
    steps
}

impl StateView {
    /// After a change: recorded, and to be sent on.
    pub open spec fn changed(self, group: EditGroup) -> StateView {
        StateView { dirty: true, ..self.recorded(group) }
    }

    /// After the transposing keys.
    #[verifier::opaque]
    pub open spec fn keyed_transpose(self, steps: int) -> StateView {
        let (after, moved) = transposed(self, steps);
        if moved {
            after.changed(EditGroup::Semitone)
        } else {
            self
        }
    }

    /// After the key that aligns starts.
    #[verifier::opaque]
    pub open spec fn keyed_heads(self, pressed: bool) -> StateView {
        let notes = edited_at(
            self.editor.notes,
            self.chosen(),
            (MoveTo { start: earliest(self.editor.notes, self.chosen()) }),
        );
        if pressed && self.chosen().len() >= 2 && notes != self.editor.notes {
            self.with_notes(notes).changed(EditGroup::Once)
        } else {
            self
        }
    }

    /// After the key that aligns ends.
    #[verifier::opaque]
    pub open spec fn keyed_tails(self, pressed: bool) -> StateView {
        let notes = edited_at(
            self.editor.notes,
            self.chosen(),
            (StretchTo { end: latest_end(self.editor.notes, self.chosen()) }),
        );
        if pressed && self.chosen().len() >= 2 && notes != self.editor.notes {
            self.with_notes(notes).changed(EditGroup::Once)
        } else {
            self
        }
    }

    /// After the keys that copy.
    #[verifier::opaque]
    pub open spec fn keyed_copy(self, pressed: bool) -> StateView {
        if pressed && self.chosen().len() > 0 {
            StateView { note_clipboard: copied(self.editor.notes, self.chosen()), ..self }
        } else {
            self
        }
    }

    /// After a key that deletes the selected notes.
    #[verifier::opaque]
    pub open spec fn keyed_delete(self, pressed: bool) -> StateView {
        if pressed && self.selection.len() > 0 {
            StateView { dirty: true, ..deleted(self.recorded(EditGroup::Once)) }
        } else {
            self
        }
    }

    /// After the keys that paste at a position.
    #[verifier::opaque]
    pub open spec fn keyed_paste(self, pressed: bool, pos: i64) -> StateView {
        if pressed && self.note_clipboard.len() > 0 {
            StateView {
                dirty: true,
                ..with_pasted(
                    self.recorded(EditGroup::Once),
                    self.note_clipboard,
                    if pos < 0 {
                        0
                    } else {
                        pos
                    },
                )
            }
        } else {
            self
        }
    }

    /// After a step was taken back. The numbers of the notes may have changed,
    /// so nothing is selected.
    #[verifier::opaque]
    pub open spec fn undone(self) -> StateView {
        if self.history.undo.len() > 0 {
            StateView {
                dirty: true,
                ..StateView {
                    editor: self.history.undone_editor(self.editor),
                    history: self.history.undone(self.editor),
                    ..self
                }.with_none()
            }
        } else {
            self
        }
    }

    /// After a step was done again.
    #[verifier::opaque]
    pub open spec fn redone(self) -> StateView {
        if self.history.redo.len() > 0 {
            StateView {
                dirty: true,
                ..StateView {
                    editor: self.history.redone_editor(self.editor),
                    history: self.history.redone(self.editor),
                    ..self
                }.with_none()
            }
        } else {
            self
        }
    }

    /// After the keys that undo and redo.
    #[verifier::opaque]
    pub open spec fn keyed_history(self, undo: bool, redo: bool) -> StateView {
        let back = if undo {
            self.undone()
        } else {
            self
        };
        if redo {
            back.redone()
        } else {
            back
        }
    }

    /// After all the keys of a frame, in their order. During a drag they do
    /// nothing.
    pub open spec fn keyed(self, keys: Shortcuts, pos: i64) -> StateView {
        if self.drag is Some {
            self
        } else {
            self.keyed_transpose(keys.transpose as int).keyed_heads(keys.align_head).keyed_tails(
                keys.align_tail,
            ).keyed_copy(keys.copy || keys.cut).keyed_delete(keys.cut).keyed_paste(
                keys.paste,
                pos,
            ).keyed_delete(keys.delete).keyed_history(keys.undo, keys.redo)
        }
    }

    /// Whether all notes, those of the clipboard too, have indices that tracks
    /// and lanes can have.
    pub open spec fn cells_fit(self) -> bool {
        indices_fit(self.editor.notes) && indices_fit(self.note_clipboard)
    }
}

proof fn lemma_without_fits(notes: Seq<Note>, selection: Seq<usize>, count: int)
    requires
        indices_fit(notes),
        0 <= count <= notes.len(),
    ensures
        indices_fit(without(notes, selection, count)),
    decreases count,
{
    if count > 0 {
        lemma_without_fits(notes, selection, count - 1);
        let before = without(notes, selection, count - 1);
        let now = without(notes, selection, count);
        assert forall|i: int| 0 <= i < now.len() implies (#[trigger] now[i]).track < usize::MAX
            && now[i].lane < usize::MAX by {
            assert(notes[count - 1].track < usize::MAX);
            if i < before.len() {
                assert(before[i].track < usize::MAX);
            }
        }
    }
}

proof fn lemma_copied_fits(notes: Seq<Note>, indices: Seq<usize>)
    requires
        indices_fit(notes),
        forall|i: int| 0 <= i < indices.len() ==> (#[trigger] indices[i]) < notes.len(),
    ensures
        indices_fit(copied(notes, indices)),
{
    let base = from_base(picked(notes, indices), earliest(notes, indices));
    let sorted = stable_sorted(base);
    stable_sort_orders(base);
    let all = copied(notes, indices);
    assert forall|i: int| 0 <= i < all.len() implies (#[trigger] all[i]).track < usize::MAX
        && all[i].lane < usize::MAX by {
        broadcast use vstd::seq_lib::group_to_multiset_ensures;

        assert(sorted.contains(sorted[i]));
        assert(sorted.to_multiset().count(sorted[i]) > 0);
        assert(base.contains(sorted[i]));
        let j = choose|j: int| 0 <= j < base.len() && base[j] == sorted[i];
        assert(indices[j] < notes.len());
        assert(notes[indices[j] as int].track < usize::MAX);
    }
}

impl EditorState {
    /// Takes the last step back.
    pub fn undo(&mut self)
        ensures
            final(self)@ == old(self)@.undone(),
    {
        let ghost before = self@;
        if self.history.undo(&mut self.editor) {
            self.clear_selection();
            self.dirty = true;
        }
        proof {
            reveal(StateView::undone);
            assert(self@ =~= before.undone());
        }
    }

    /// Does the step that was taken back last again.
    pub fn redo(&mut self)
        ensures
            final(self)@ == old(self)@.redone(),
    {
        let ghost before = self@;
        if self.history.redo(&mut self.editor) {
            self.clear_selection();
            self.dirty = true;
        }
        proof {
            reveal(StateView::redone);
            assert(self@ =~= before.redone());
        }
    }

    /// Deletes the selected notes, where there are any, as a step that can be
    /// taken back.
    pub fn delete_step(&mut self, pressed: bool)
        ensures
            final(self)@ == old(self)@.keyed_delete(pressed),
    {
        let ghost before = self@;
        proof {
            reveal(StateView::keyed_delete);
        }
        if pressed && self.selection.len() > 0 {
            self.history.record(EditGroup::Once);
            assert(self@ =~= before.recorded(EditGroup::Once));
            self.delete_selection();
            self.dirty = true;
            assert(self@ =~= before.keyed_delete(pressed));
        }
    }

    fn transpose_step(&mut self, steps: i32)
        requires
            steps != 0 ==> pitches_fit(old(self)@),
        ensures
            final(self)@ == old(self)@.keyed_transpose(steps as int),
    {
        let ghost before = self@;
        if steps != 0 {
            if self.transpose_selection(steps) {
                self.history.record(EditGroup::Semitone);
                self.dirty = true;
            }
        }
        proof {
            reveal(StateView::keyed_transpose);
            assert(self@ =~= before.keyed_transpose(steps as int));
        }
    }

    fn align_heads_step(&mut self, pressed: bool)
        ensures
            final(self)@ == old(self)@.keyed_heads(pressed),
    {
        let ghost before = self@;
        if pressed {
            if self.align_selection_starts() {
                self.history.record(EditGroup::Once);
                self.dirty = true;
            }
        }
        proof {
            reveal(StateView::keyed_heads);
            assert(self@ =~= before.keyed_heads(pressed));
        }
    }

    fn align_tails_step(&mut self, pressed: bool)
        ensures
            final(self)@ == old(self)@.keyed_tails(pressed),
    {
        let ghost before = self@;
        if pressed {
            if self.align_selection_ends() {
                self.history.record(EditGroup::Once);
                self.dirty = true;
            }
        }
        proof {
            reveal(StateView::keyed_tails);
            assert(self@ =~= before.keyed_tails(pressed));
        }
    }

    fn copy_step(&mut self, pressed: bool) -> (copied: bool)
        ensures
            final(self)@ == old(self)@.keyed_copy(pressed),
            copied == (pressed && old(self)@.chosen().len() > 0),
    {
        let ghost before = self@;
        let mut copied: bool = false;
        if pressed {
            match self.copy_selection() {
                Some(notes) => {
                    self.note_clipboard = notes;
                    copied = true;
                },
                None => {},
            }
        }
        proof {
            reveal(StateView::keyed_copy);
            assert(self@ =~= before.keyed_copy(pressed));
        }
        copied
    }

    fn paste_step(&mut self, pressed: bool, pos: i64)
        requires
            old(self)@.cells_fit(),
        ensures
            final(self)@ == old(self)@.keyed_paste(pressed, pos),
    {
        let ghost before = self@;
        proof {
            reveal(StateView::keyed_paste);
        }
        if pressed && self.note_clipboard.len() > 0 {
            let notes = crate::history::copy_notes(&self.note_clipboard);
            self.history.record(EditGroup::Once);
            assert(self@ =~= before.recorded(EditGroup::Once));
            let at: i64 = if pos < 0 {
                0
            } else {
                pos
            };
            self.paste_notes(&notes, at);
            self.dirty = true;
            assert(self@ =~= before.keyed_paste(pressed, pos));
        }
    }

    fn history_step(&mut self, undo: bool, redo: bool)
        ensures
            final(self)@ == old(self)@.keyed_history(undo, redo),
    {
        proof {
            reveal(StateView::keyed_history);
        }
        if undo {
            self.undo();
        }
        if redo {
            self.redo();
        }
    }

    /// Does what the keys of a frame say. Returns whether notes were copied.
    pub fn apply_shortcuts(
        &mut self,
        keys: &Shortcuts,
        pos: i64,
        commands: &mut Vec<EditorCommand>,
    ) -> (copied: bool)
        requires
            old(self)@.drag is None && keys.transpose != 0 ==> pitches_fit(old(self)@),
            old(self)@.cells_fit(),
        ensures
            final(self)@ == old(self)@.keyed(*keys, pos),
            final(commands)@ == (if old(self)@.drag is None && keys.save {
                old(commands)@.push(EditorCommand::SaveProject)
            } else {
                old(commands)@
            }),
            copied == (old(self)@.drag is None && (keys.copy || keys.cut) && old(
                self,
            )@.chosen().len() > 0),
    {
        if self.drag.is_some() {
            return false;
        }
        if keys.save {
            commands.push(EditorCommand::SaveProject);
        }
        let count: usize = self.editor.notes.len();
        proof {
            lemma_keys_keep_cells(self@, *keys, pos);
        }
        self.transpose_step(keys.transpose);
        self.align_heads_step(keys.align_head);
        self.align_tails_step(keys.align_tail);
        let copied: bool = self.copy_step(keys.copy || keys.cut);
        self.delete_step(keys.cut);
        self.paste_step(keys.paste, pos);
        self.delete_step(keys.delete);
        self.history_step(keys.undo, keys.redo);
        copied
    }
}

proof fn lemma_edited_fits<E: crate::edit::NoteEdit>(
    notes: Seq<Note>,
    indices: Seq<usize>,
    edit: E,
)
    requires
        indices_fit(notes),
        forall|note: Note| #[trigger]
            edit.edited(note).track == note.track && edit.edited(note).lane == note.lane,
    ensures
        indices_fit(edited_at(notes, indices, edit)),
{
    let after = edited_at(notes, indices, edit);
    assert forall|i: int| 0 <= i < after.len() implies (#[trigger] after[i]).track < usize::MAX
        && after[i].lane < usize::MAX by {
        assert(notes[i].track < usize::MAX);
        assert(edit.edited(notes[i]).track == notes[i].track);
    }
}

/// The keys up to pasting leave the selection's numbers in range, and the notes
/// on lanes that can be.
proof fn lemma_keys_keep_cells(state: StateView, keys: Shortcuts, pos: i64)
    requires
        state.cells_fit(),
        state.editor.notes.len() <= usize::MAX,
    ensures
        ({
            let aligned = state.keyed_transpose(keys.transpose as int).keyed_heads(
                keys.align_head,
            ).keyed_tails(keys.align_tail);
            let cut = aligned.keyed_copy(keys.copy || keys.cut).keyed_delete(keys.cut);
            &&& cut.cells_fit()
            &&& aligned.chosen() == state.chosen()
            &&& aligned.selection == state.selection
        }),
{
    reveal(StateView::keyed_transpose);
    reveal(StateView::keyed_heads);
    reveal(StateView::keyed_tails);
    reveal(StateView::keyed_copy);
    reveal(StateView::keyed_delete);
    let first = state.keyed_transpose(keys.transpose as int);
    assert(first.cells_fit() && first.editor.notes.len() == state.editor.notes.len()
        && first.selection == state.selection) by {
        let notes = state.editor.notes;
        let steps = state.editor.scale.steps();
        let amount = crate::edit::transposition(
            notes,
            state.chosen(),
            keys.transpose as int,
            steps,
        );
        lemma_edited_fits(
            notes,
            state.chosen(),
            crate::edit::Transpose { by: amount as i64, steps: steps as i32 },
        );
    }
    let second = first.keyed_heads(keys.align_head);
    assert(second.cells_fit() && second.editor.notes.len() == state.editor.notes.len()
        && second.selection == state.selection) by {
        lemma_edited_fits(
            first.editor.notes,
            first.chosen(),
            MoveTo { start: earliest(first.editor.notes, first.chosen()) },
        );
    }
    let third = second.keyed_tails(keys.align_tail);
    assert(third.cells_fit() && third.editor.notes.len() == state.editor.notes.len()
        && third.selection == state.selection) by {
        lemma_edited_fits(
            second.editor.notes,
            second.chosen(),
            StretchTo { end: latest_end(second.editor.notes, second.chosen()) },
        );
    }
    let fourth = third.keyed_copy(keys.copy || keys.cut);
    assert(fourth.cells_fit()) by {
        lemma_chosen(third.selection, third.editor.notes.len() as int);
        lemma_copied_fits(third.editor.notes, third.chosen());
    }
    lemma_without_fits(
        fourth.editor.notes,
        fourth.selection,
        fourth.editor.notes.len() as int,
    );
}

/// Undoing takes back a deletion, and a paste.
pub proof fn undo_takes_back_an_edit(state: StateView, pos: i64)
    requires
        state.history.baseline == SnapshotView::of(state.editor),
        state.history.group != Some(EditGroup::Once),
    ensures
        state.selection.len() > 0 ==> state.keyed_delete(true).undone().editor == state.editor,
        state.note_clipboard.len() > 0 ==> ({
            let back = state.keyed_paste(true, pos).undone().editor;
            back == state.editor
        }),
{
    reveal(StateView::keyed_delete);
    reveal(StateView::keyed_paste);
    reveal(StateView::undone);
    let recorded = state.history.recorded(EditGroup::Once);
    assert(recorded.undo.len() > 0);
    assert(recorded.undo.last() == state.history.baseline);
    if state.selection.len() > 0 {
        assert(state.keyed_delete(true).undone().editor =~= state.editor);
    }
    if state.note_clipboard.len() > 0 {
        assert(state.keyed_paste(true, pos).undone().editor =~= state.editor);
    }
}

/// Redoing does again what was undone.
pub proof fn redo_does_it_again(state: StateView)
    requires
        state.history.undo.len() > 0,
    ensures
        state.undone().redone().editor == state.editor,
{
    reveal(StateView::undone);
    reveal(StateView::redone);
    assert(state.undone().redone().editor =~= state.editor);
}

/// What was copied can be pasted as often as one likes, and copying and pasting
/// do not touch the notes that are there.
pub proof fn pasting_keeps_what_is_there(state: StateView, pos: i64, k: int)
    requires
        0 <= k < state.editor.notes.len(),
    ensures
        state.keyed_paste(true, pos).note_clipboard == state.note_clipboard,
        state.keyed_paste(true, pos).editor.notes[k] == state.editor.notes[k],
        state.keyed_copy(true).editor == state.editor,
{
    reveal(StateView::keyed_copy);
    reveal(StateView::keyed_paste);
}

/// The keys that do nothing.
pub open spec fn no_keys() -> Shortcuts {
    Shortcuts {
        copy: false,
        cut: false,
        paste: false,
        undo: false,
        redo: false,
        delete: false,
        align_head: false,
        align_tail: false,
        transpose: 0,
        save: false,
    }
}

/// Each key does what it is for, and nothing else: without keys nothing changes,
/// and copying changes no note. Cutting copies and deletes. During a drag no key
/// does anything.
pub proof fn every_key_does_its_own(state: StateView, pos: i64, steps: i32)
    requires
        state.editor.notes.len() <= usize::MAX,
    ensures
        state.drag is Some ==> state.keyed(
            Shortcuts { delete: true, cut: true, paste: true, undo: true, ..no_keys() },
            pos,
        ) == state,
        state.drag is None ==> {
            let copy = state.keyed(Shortcuts { copy: true, ..no_keys() }, pos);
            let cut = state.keyed(Shortcuts { cut: true, ..no_keys() }, pos);
            let delete = state.keyed(Shortcuts { delete: true, ..no_keys() }, pos);
            let paste = state.keyed(Shortcuts { paste: true, ..no_keys() }, pos);
            let moved = state.keyed(Shortcuts { transpose: steps, ..no_keys() }, pos);
            let back = state.keyed(Shortcuts { undo: true, ..no_keys() }, pos);
            let again = state.keyed(Shortcuts { redo: true, ..no_keys() }, pos);
            let at = if pos < 0 {
                0i64
            } else {
                pos
            };
            &&& state.keyed(no_keys(), pos) == state
            &&& copy.editor == state.editor
            &&& copy.selection == state.selection
            &&& state.chosen().len() > 0 ==> copy.note_clipboard == copied(
                state.editor.notes,
                state.chosen(),
            )
            &&& state.chosen().len() == 0 ==> copy.note_clipboard == state.note_clipboard
            &&& cut.note_clipboard == copy.note_clipboard
            &&& cut.editor == delete.editor
            &&& delete.editor == deleted(state).editor
            &&& delete.note_clipboard == state.note_clipboard
            &&& paste.editor == with_pasted(state, state.note_clipboard, at).editor
            &&& paste.selection == with_pasted(state, state.note_clipboard, at).selection
            &&& moved.editor == transposed(state, steps as int).0.editor
            &&& back.editor == state.history.undone_editor(state.editor)
            &&& again.editor == state.history.redone_editor(state.editor)
        },
{
    reveal(StateView::keyed_transpose);
    reveal(StateView::keyed_heads);
    reveal(StateView::keyed_tails);
    reveal(StateView::keyed_copy);
    reveal(StateView::keyed_delete);
    reveal(StateView::keyed_paste);
    reveal(StateView::undone);
    reveal(StateView::redone);
    reveal(StateView::keyed_history);
    lemma_chosen(state.selection, state.editor.notes.len() as int);
    if state.selection.len() == 0 && state.chosen().len() > 0 {
        assert(state.chosen().contains(state.chosen()[0]));
    }
}

/// The key for the starts aligns them, and the one for the ends aligns those.
pub proof fn the_keys_for_aligning_align(state: StateView, pos: i64)
    requires
        state.drag is None,
        state.editor.notes.len() <= usize::MAX,
    ensures
        starts_are_aligned(
            state.editor.notes,
            state.keyed(Shortcuts { align_head: true, ..no_keys() }, pos).editor.notes,
            state.selection,
        ),
        ends_are_aligned(
            state.editor.notes,
            state.keyed(Shortcuts { align_tail: true, ..no_keys() }, pos).editor.notes,
            state.selection,
        ),
{
    reveal(StateView::keyed_transpose);
    reveal(StateView::keyed_heads);
    reveal(StateView::keyed_tails);
    reveal(StateView::keyed_copy);
    reveal(StateView::keyed_delete);
    reveal(StateView::keyed_paste);
    reveal(StateView::keyed_history);
    lemma_starts_are_aligned(state.editor.notes, state.selection);
    lemma_ends_are_aligned(state.editor.notes, state.selection);
}

} // verus!
