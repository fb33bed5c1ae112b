//! Which edits can be taken back, and what taking them back brings.

use crate::canvas::{Canvas, Hit};
use crate::geometry::{are_row_starts, offsets_of, row_of, the_lane_of_a_row_leads_back};
use crate::gestures::{are_targets, lemma_put_back, moved_targets, resized_targets};
use crate::lanes::{lemma_row_start_grows, row_start};
use crate::sequencer::{EditorView, Note, ScaleMode};
use crate::state::{DragView, StateView};
use crate::toolbar::Detail;
use vstd::prelude::*;

verus! {

/// Whether a frame begins: nothing has changed in it, and nothing is being
/// collected.
pub open spec fn begins_frame(state: StateView) -> bool {
    &&& state.history.baseline.notes == state.editor.notes
    &&& state.history.baseline.tracks == state.editor.tracks
    &&& state.history.baseline.scale == state.editor.scale
    &&& state.history.group is None
}

/// Whether taking the last step back brings the notes, the tracks and the scale
/// that there were before, with nothing left to be done again until then.
pub open spec fn is_a_step(before: StateView, after: StateView) -> bool {
    let back = after.history.undone_editor(after.editor);
    &&& after.history.undo.len() > 0
    &&& after.history.redo.len() == 0
    &&& back.notes == before.editor.notes
    &&& back.tracks == before.editor.tracks
    &&& back.scale == before.editor.scale
}

/// Whatever a key changes can be taken back, and is sent on.
pub proof fn keys_make_steps(state: StateView, steps: int, pos: i64)
    requires
        begins_frame(state),
    ensures
        ({
            let moved = state.keyed_transpose(steps);
            let heads = state.keyed_heads(true);
            let tails = state.keyed_tails(true);
            let deleted = state.keyed_delete(true);
            let pasted = state.keyed_paste(true, pos);
            &&& moved.editor != state.editor ==> is_a_step(state, moved) && moved.dirty
            &&& heads.editor != state.editor ==> is_a_step(state, heads) && heads.dirty
            &&& tails.editor != state.editor ==> is_a_step(state, tails) && tails.dirty
            &&& deleted.editor != state.editor ==> is_a_step(state, deleted) && deleted.dirty
            &&& pasted.editor != state.editor ==> is_a_step(state, pasted) && pasted.dirty
        }),
{
    reveal(StateView::keyed_transpose);
    reveal(StateView::keyed_heads);
    reveal(StateView::keyed_tails);
    reveal(StateView::keyed_delete);
    reveal(StateView::keyed_paste);
}

/// Taking a step back or doing it again is sent on, and nothing is selected then.
pub proof fn steps_are_sent_on(state: StateView)
    ensures
        state.history.undo.len() > 0 ==> {
            &&& state.undone().dirty
            &&& state.undone().selection.len() == 0
            &&& state.undone().selected is None
            &&& state.undone().editor.notes == state.history.undo.last().notes
            &&& state.undone().editor.tracks == state.history.undo.last().tracks
            &&& state.undone().editor.scale == state.history.undo.last().scale
        },
        state.history.undo.len() == 0 ==> state.undone() == state,
        state.history.redo.len() > 0 ==> {
            &&& state.redone().dirty
            &&& state.redone().selection.len() == 0
            &&& state.redone().selected is None
            &&& state.redone().editor.notes == state.history.redo.last().notes
            &&& state.redone().editor.tracks == state.history.redo.last().tracks
            &&& state.redone().editor.scale == state.history.redo.last().scale
        },
        state.history.redo.len() == 0 ==> state.redone() == state,
{
    reveal(StateView::undone);
    reveal(StateView::redone);
}

/// Whatever a click changes can be taken back, and is sent on.
pub proof fn clicks_make_steps(
    state: StateView,
    canvas: Canvas,
    pos: (i64, i64),
    track: usize,
    lane: usize,
)
    requires
        begins_frame(state),
    ensures
        ({
            let made = state.double_clicked(canvas, pos);
            let deleted = state.secondary_clicked(canvas, pos);
            let swapped = state.strip_clicked(track, lane);
            &&& made.editor != state.editor ==> is_a_step(state, made) && made.dirty
            &&& deleted.editor != state.editor ==> is_a_step(state, deleted) && deleted.dirty
            &&& swapped.editor != state.editor ==> is_a_step(state, swapped) && swapped.dirty
        }),
{
}

/// Whatever the toolbar or the wheel changes of the notes can be taken back, and
/// is sent on.
pub proof fn changes_of_notes_make_steps(
    state: StateView,
    scale: ScaleMode,
    detail: Detail,
    milli_notches: int,
)
    requires
        begins_frame(state),
    ensures
        ({
            let rescaled = state.rescaled(scale);
            let detailed = state.detailed(detail);
            let turned = state.velocity_turned(milli_notches);
            &&& rescaled.editor != state.editor ==> is_a_step(state, rescaled) && rescaled.dirty
            &&& detailed.editor != state.editor ==> is_a_step(state, detailed) && detailed.dirty
            &&& turned.editor != state.editor ==> is_a_step(state, turned) && turned.dirty
        }),
{
}

/// A change of the tracks is a step.
pub proof fn changes_of_tracks_make_steps(state: StateView, editor: EditorView)
    requires
        begins_frame(state),
    ensures
        is_a_step(state, state.stepped_to(editor)),
        state.stepped_to(editor).editor == editor,
{
}

/// Copies that are dragged are a step, though they have not been moved yet.
pub proof fn copies_make_a_step(state: StateView, index: usize, origin: (i64, i64))
    requires
        begins_frame(state),
    ensures
        is_a_step(state, state.grabbing(index, Hit::Body, true, origin)),
{
}

proof fn lemma_placed(
    notes: Seq<Note>,
    targets: Seq<(usize, Note)>,
    placed: Seq<(usize, Note)>,
    i: int,
)
    requires
        are_targets(notes, targets),
        placed.len() == targets.len(),
        forall|k: int| 0 <= k < targets.len() ==> (#[trigger] placed[k]).0 == targets[k].0,
        0 <= i < targets.len(),
    ensures
        crate::gestures::put_back(notes, placed)[targets[i].0 as int] == placed[i].1,
{
    assert forall|k: int| 0 <= k < placed.len() implies (#[trigger] placed[k]).0 < notes.len() by {
        assert(targets[k].0 < notes.len());
    }
    assert forall|k: int, l: int|
        #![trigger placed[k], placed[l]]
        0 <= k < l < placed.len() implies placed[k].0 != placed[l].0 by {
        assert(targets[k].0 != targets[l].0);
    }
    lemma_put_back(notes, placed, i);
}

/// A drag that resizes a note is a step.
pub proof fn resizing_makes_a_step(
    state: StateView,
    drag: DragView,
    dx_raw: int,
    from_left: bool,
    i: int,
)
    requires
        begins_frame(state),
        are_targets(state.editor.notes, drag.targets),
        0 <= i < drag.targets.len(),
        state.resized(drag, dx_raw, from_left).editor.notes[drag.targets[i].0 as int]
            != drag.targets[i].1,
    ensures
        is_a_step(state, state.resized(drag, dx_raw, from_left)),
{
    let dx = crate::geometry::resizing(drag.targets, dx_raw, state.step(), from_left);
    let placed = resized_targets(drag.targets, dx, from_left);
    lemma_placed(state.editor.notes, drag.targets, placed, i);
}

/// A drag that takes a note to another time or into another row is a step.
pub proof fn moving_makes_a_step(
    state: StateView,
    drag: DragView,
    dx_raw: int,
    d_row_raw: int,
    i: int,
)
    requires
        begins_frame(state),
        state.is_laid_out(),
        state.editor.tracks.len() <= usize::MAX,
        are_targets(state.editor.notes, drag.targets),
        0 <= i < drag.targets.len(),
        drag.targets[i].1.start_tick >= 0,
        0 <= row_of(offsets_of(state.editor), drag.targets[i].1) < state.rows(),
        ({
            let before = drag.targets[i].1;
            let after = state.moved(drag, dx_raw, d_row_raw).editor.notes[drag.targets[i].0 as int];
            ||| after.start_tick != before.start_tick
            ||| row_of(offsets_of(state.editor), after) != row_of(
                offsets_of(state.editor),
                before,
            )
        }),
    ensures
        is_a_step(state, state.moved(drag, dx_raw, d_row_raw)),
{
    let offsets = offsets_of(state.editor);
    let (dx, d_row) = crate::geometry::movement(
        drag.targets,
        offsets,
        state.editor,
        dx_raw,
        d_row_raw,
        state.step(),
        state.shown_rows(),
    );
    let placed = moved_targets(drag.targets, offsets, state.editor, dx, d_row);
    lemma_placed(state.editor.notes, drag.targets, placed, i);
    assert(are_row_starts(offsets, state.editor)) by {
        assert forall|t: int| 0 <= t < offsets.len() implies #[trigger] offsets[t] == row_start(
            state.editor.tracks,
            t,
        ) by {
            lemma_row_start_grows(state.editor.tracks, t, state.editor.tracks.len() as int);
        }
    }
    the_lane_of_a_row_leads_back(offsets, state.editor, row_of(offsets, drag.targets[i].1));
}

} // verus!
