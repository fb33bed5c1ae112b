//! Undo and redo.
//!
//! What the sequence was at the start of the frame is kept as a baseline. When
//! something changes, the baseline becomes one step of the history, so that no
//! operation has to remember what was there before it.

pub mod steps;

use crate::sequencer::{
    same_notes, same_tracks, track_views, EditorView, MidiEditor, Note, ScaleMode, TrackInfo,
    TrackView,
};
use vstd::prelude::*;

verus! {

/// The most steps that can be undone; older ones are dropped.
pub const HISTORY_LIMIT: usize = 200;

/// Operations of the same kind that follow each other without an end in
/// between become one step.
#[derive(Clone, Copy, PartialEq, Eq, Structural, Debug)]
pub enum EditGroup {
    /// An operation that is complete in itself.
    Once,
    Move,
    Resize,
    Semitone,
    Octave,
    Velocity,
}

/// The part of a sequence that a step brings back: the notes, the tracks and
/// the scale, on which the notes depend.
#[derive(Debug)]
pub struct Snapshot {
    pub notes: Vec<Note>,
    pub tracks: Vec<TrackInfo>,
    pub scale: ScaleMode,
}

/// What a [`Snapshot`] holds.
#[verifier::ext_equal]
pub struct SnapshotView {
    pub notes: Seq<Note>,
    pub tracks: Seq<TrackView>,
    pub scale: ScaleMode,
}

impl View for Snapshot {
    type V = SnapshotView;

    open spec fn view(&self) -> SnapshotView {
        SnapshotView {
            notes: self.notes@,
            tracks: track_views(self.tracks@),
            scale: self.scale,
        }
    }
}

impl SnapshotView {
    /// The part of `editor` that a step brings back.
    pub open spec fn of(editor: EditorView) -> SnapshotView {
        SnapshotView { notes: editor.notes, tracks: editor.tracks, scale: editor.scale }
    }

    /// `editor` with that part brought back.
    pub open spec fn put_into(self, editor: EditorView) -> EditorView {
        EditorView { notes: self.notes, tracks: self.tracks, scale: self.scale, ..editor }
    }
}

/// The views of a stack of snapshots.
pub open spec fn snapshot_views(snapshots: Seq<Snapshot>) -> Seq<SnapshotView> {
    Seq::new(snapshots.len(), |i: int| snapshots[i]@)
}

/// Copies a vector of notes.
pub fn copy_notes(notes: &Vec<Note>) -> (copy: Vec<Note>)
    ensures
        copy@ == notes@,
{
    let copy = notes.clone();
    assert(copy@ =~= notes@);
    copy
}

/// Copies a vector of tracks.
pub fn copy_tracks(tracks: &Vec<TrackInfo>) -> (copy: Vec<TrackInfo>)
    ensures
        track_views(copy@) == track_views(tracks@),
{
    let mut copy: Vec<TrackInfo> = Vec::new();
    let mut at: usize = 0;
    while at < tracks.len()
        invariant
            at <= tracks@.len(),
            track_views(copy@) == track_views(tracks@).take(at as int),
        decreases tracks@.len() - at,
    {
        let track = tracks[at].duplicate();
        let ghost before = copy@;
        copy.push(track);
        proof {
            let all = track_views(tracks@);
            assert(track_views(copy@) =~= track_views(before).push(track@));
            assert(all.take(at + 1) =~= all.take(at as int).push(all[at as int]));
        }
        at += 1;
    }
    assert(track_views(tracks@).take(at as int) =~= track_views(tracks@));
    copy
}

impl Snapshot {
    /// Takes a snapshot.
    pub fn capture(editor: &MidiEditor) -> (snapshot: Snapshot)
        ensures
            snapshot@ == SnapshotView::of(editor@),
    {
        Snapshot {
            notes: copy_notes(&editor.notes),
            tracks: copy_tracks(&editor.tracks),
            scale: editor.scale,
        }
    }

    /// Brings a snapshot back.
    pub fn restore(&self, editor: &mut MidiEditor)
        ensures
            final(editor)@ == self@.put_into(old(editor)@),
    {
        editor.tracks = copy_tracks(&self.tracks);
        editor.notes = copy_notes(&self.notes);
        editor.scale = self.scale;
    }

    /// A copy of the snapshot.
    pub fn duplicate(&self) -> (copy: Snapshot)
        ensures
            copy@ == self@,
    {
        Snapshot {
            notes: copy_notes(&self.notes),
            tracks: copy_tracks(&self.tracks),
            scale: self.scale,
        }
    }

    /// Whether two snapshots hold the same.
    pub fn same(&self, other: &Snapshot) -> (yes: bool)
        ensures
            yes == (self@ == other@),
    {
        self.scale == other.scale && same_notes(&self.notes, &other.notes) && same_tracks(
            &self.tracks,
            &other.tracks,
        )
    }

    /// Whether the sequence is as it was when the snapshot was taken.
    pub fn matches(&self, editor: &MidiEditor) -> (yes: bool)
        ensures
            yes == (self@ == SnapshotView::of(editor@)),
    {
        self.scale == editor.scale && same_notes(&self.notes, &editor.notes) && same_tracks(
            &self.tracks,
            &editor.tracks,
        )
    }
}

/// The history of changes.
#[derive(Debug)]
pub struct History {
    /// The sequence at the start of the frame.
    baseline: Snapshot,
    undo: Vec<Snapshot>,
    redo: Vec<Snapshot>,
    /// The kind of operation that is being collected into one step.
    group: Option<EditGroup>,
}

/// What a [`History`] holds.
#[verifier::ext_equal]
pub struct HistoryView {
    pub baseline: SnapshotView,
    pub undo: Seq<SnapshotView>,
    pub redo: Seq<SnapshotView>,
    pub group: Option<EditGroup>,
}

impl View for History {
    type V = HistoryView;

    closed spec fn view(&self) -> HistoryView {
        HistoryView {
            baseline: self.baseline@,
            undo: snapshot_views(self.undo@),
            redo: snapshot_views(self.redo@),
            group: self.group,
        }
    }
}

impl HistoryView {
    /// A history without steps.
    pub open spec fn fresh(editor: EditorView) -> HistoryView {
        HistoryView {
            baseline: SnapshotView::of(editor),
            undo: Seq::empty(),
            redo: Seq::empty(),
            group: None,
        }
    }

    /// The steps that can be undone after the baseline has become one. It is
    /// not put there twice, and the oldest step is dropped where there are too
    /// many.
    pub open spec fn with_step(self) -> Seq<SnapshotView> {
        if self.undo.len() > 0 && self.undo.last() == self.baseline {
            self.undo
        } else if self.undo.len() < HISTORY_LIMIT {
            self.undo.push(self.baseline)
        } else {
            self.undo.push(self.baseline).skip(1)
        }
    }

    /// After something has changed. A change of the kind that is being
    /// collected adds nothing.
    pub open spec fn recorded(self, group: EditGroup) -> HistoryView {
        if self.group == Some(group) {
            self
        } else {
            HistoryView {
                undo: self.with_step(),
                redo: Seq::empty(),
                group: if group == EditGroup::Once {
                    None
                } else {
                    Some(group)
                },
                ..self
            }
        }
    }

    /// After a step was undone, with `editor` the sequence before that.
    pub open spec fn undone(self, editor: EditorView) -> HistoryView {
        if self.undo.len() == 0 {
            self
        } else {
            HistoryView {
                baseline: self.undo.last(),
                undo: self.undo.drop_last(),
                redo: self.redo.push(SnapshotView::of(editor)),
                group: None,
            }
        }
    }

    /// The sequence after a step was undone.
    pub open spec fn undone_editor(self, editor: EditorView) -> EditorView {
        if self.undo.len() == 0 {
            editor
        } else {
            self.undo.last().put_into(editor)
        }
    }

    /// After a step was done again, with `editor` the sequence before that.
    pub open spec fn redone(self, editor: EditorView) -> HistoryView {
        if self.redo.len() == 0 {
            self
        } else {
            HistoryView {
                baseline: self.redo.last(),
                undo: self.undo.push(SnapshotView::of(editor)),
                redo: self.redo.drop_last(),
                group: None,
            }
        }
    }

    /// The sequence after a step was done again.
    pub open spec fn redone_editor(self, editor: EditorView) -> EditorView {
        if self.redo.len() == 0 {
            editor
        } else {
            self.redo.last().put_into(editor)
        }
    }

    /// After the frame has ended.
    pub open spec fn at_frame_end(self, editor: EditorView) -> HistoryView {
        HistoryView { baseline: SnapshotView::of(editor), ..self }
    }

    /// Whether the steps stay within the limit.
    pub open spec fn within_limit(self) -> bool {
        self.undo.len() + self.redo.len() <= HISTORY_LIMIT
    }

    /// What holds of every history: the steps stay within the limit, and while
    /// changes are being collected there is nothing to do again.
    pub open spec fn is_sound(self) -> bool {
        &&& self.within_limit()
        &&& self.group is Some ==> self.redo.len() == 0
        &&& self.group != Some(EditGroup::Once)
    }

    /// After frames, each with a change of the same kind. What the sequence is at
    /// their ends is given.
    pub open spec fn after_frames(self, group: EditGroup, editors: Seq<EditorView>) -> HistoryView
        decreases editors.len(),
    {
        if editors.len() == 0 {
            self
        } else {
            self.after_frames(group, editors.drop_last()).recorded(group).at_frame_end(
                editors.last(),
            )
        }
    }
}

/// What can happen to a history and its sequence.
pub enum Call {
    /// The sequence becomes another one.
    Edit(EditorView),
    Record(EditGroup),
    EndGroup,
    Undo,
    Redo,
    EndFrame,
}

/// A history and its sequence after something has happened.
pub open spec fn called(state: (HistoryView, EditorView), call: Call) -> (HistoryView, EditorView) {
    let (history, editor) = state;
    match call {
        Call::Edit(changed) => (history, changed),
        Call::Record(group) => (history.recorded(group), editor),
        Call::EndGroup => (HistoryView { group: None, ..history }, editor),
        Call::Undo => (history.undone(editor), history.undone_editor(editor)),
        Call::Redo => (history.redone(editor), history.redone_editor(editor)),
        Call::EndFrame => (history.at_frame_end(editor), editor),
    }
}

/// A history and its sequence after everything that has happened.
pub open spec fn after_calls(state: (HistoryView, EditorView), calls: Seq<Call>) -> (
    HistoryView,
    EditorView,
)
    decreases calls.len(),
{
    if calls.len() == 0 {
        state
    } else {
        called(after_calls(state, calls.drop_last()), calls.last())
    }
}

impl History {
    /// A history without steps.
    pub fn new(editor: &MidiEditor) -> (history: History)
        ensures
            history@ == HistoryView::fresh(editor@),
    {
        let history = History {
            baseline: Snapshot::capture(editor),
            undo: Vec::new(),
            redo: Vec::new(),
            group: None,
        };
        assert(history@ =~= HistoryView::fresh(editor@));
        history
    }

    /// Tells the history that something has changed.
    pub fn record(&mut self, group: EditGroup)
        ensures
            final(self)@ == old(self)@.recorded(group),
    {
        let collecting: bool = match self.group {
            Some(current) => current == group,
            None => false,
        };
        if collecting {
            return;
        }
        let ghost before = self@;
        let count: usize = self.undo.len();
        let known: bool = count > 0 && self.undo[count - 1].same(&self.baseline);
        if !known {
            let ghost steps = self.undo@;
            let step = self.baseline.duplicate();
            self.undo.push(step);
            assert(snapshot_views(self.undo@) =~= snapshot_views(steps).push(before.baseline));
            if self.undo.len() > HISTORY_LIMIT {
                let ghost longer = self.undo@;
                self.undo.remove(0);
                assert(snapshot_views(self.undo@) =~= snapshot_views(longer).skip(1));
            }
        }
        self.redo.clear();
        self.group = if group == EditGroup::Once {
            None
        } else {
            Some(group)
        };
        assert(snapshot_views(self.redo@) =~= Seq::<SnapshotView>::empty());
        assert(self@ =~= before.recorded(group));
    }

    /// Ends the step that is being collected.
    pub fn end_group(&mut self)
        ensures
            final(self)@ == (HistoryView { group: None, ..old(self)@ }),
    {
        self.group = None;
    }

    /// Whether there is a step to undo.
    pub fn can_undo(&self) -> (yes: bool)
        ensures
            yes == (self@.undo.len() > 0),
    {
        self.undo.len() > 0
    }

    /// Whether there is a step to do again.
    pub fn can_redo(&self) -> (yes: bool)
        ensures
            yes == (self@.redo.len() > 0),
    {
        self.redo.len() > 0
    }

    /// Undoes a step. Returns whether there was one.
    pub fn undo(&mut self, editor: &mut MidiEditor) -> (done: bool)
        ensures
            done == (old(self)@.undo.len() > 0),
            final(self)@ == old(self)@.undone(old(editor)@),
            final(editor)@ == old(self)@.undone_editor(old(editor)@),
    {
        let ghost before = self@;
        let ghost steps = self.undo@;
        let ghost undone = self.redo@;
        match self.undo.pop() {
            None => false,
            Some(previous) => {
                let now = Snapshot::capture(editor);
                self.redo.push(now);
                previous.restore(editor);
                self.baseline = previous;
                self.group = None;
                proof {
                    assert(snapshot_views(self.redo@) =~= snapshot_views(undone).push(now@));
                    assert(snapshot_views(self.undo@) =~= snapshot_views(steps).drop_last());
                    assert(self@ =~= before.undone(old(editor)@));
                }
                true
            },
        }
    }

    /// Does a step again. Returns whether there was one.
    pub fn redo(&mut self, editor: &mut MidiEditor) -> (done: bool)
        ensures
            done == (old(self)@.redo.len() > 0),
            final(self)@ == old(self)@.redone(old(editor)@),
            final(editor)@ == old(self)@.redone_editor(old(editor)@),
    {
        let ghost before = self@;
        let ghost steps = self.undo@;
        let ghost undone = self.redo@;
        match self.redo.pop() {
            None => false,
            Some(next) => {
                let now = Snapshot::capture(editor);
                self.undo.push(now);
                next.restore(editor);
                self.baseline = next;
                self.group = None;
                proof {
                    assert(snapshot_views(self.undo@) =~= snapshot_views(steps).push(now@));
                    assert(snapshot_views(self.redo@) =~= snapshot_views(undone).drop_last());
                    assert(self@ =~= before.redone(old(editor)@));
                }
                true
            },
        }
    }

    /// Takes the baseline of the next frame.
    pub fn end_frame(&mut self, editor: &MidiEditor)
        ensures
            final(self)@ == old(self)@.at_frame_end(editor@),
    {
        if !self.baseline.matches(editor) {
            self.baseline = Snapshot::capture(editor);
        }
    }
}

/// A change that was recorded is taken back by one undo: notes, tracks and
/// scale are what they were at the start of the frame.
pub proof fn undo_takes_back_a_recorded_change(
    history: HistoryView,
    group: EditGroup,
    editor: EditorView,
)
    requires
        history.group != Some(group),
    ensures
        ({
            let recorded = history.recorded(group);
            &&& recorded.undo.len() > 0
            &&& SnapshotView::of(recorded.undone_editor(editor)) == history.baseline
            &&& recorded.undone(editor).baseline == history.baseline
        }),
{
}

/// Redo takes back an undo: the sequence and the steps are what they were.
pub proof fn redo_takes_back_an_undo(history: HistoryView, editor: EditorView)
    requires
        history.undo.len() > 0,
    ensures
        ({
            let undone = history.undone(editor);
            let before = history.undone_editor(editor);
            let redone = undone.redone(before);
            &&& undone.redo.len() > 0
            &&& undone.redone_editor(before) == editor
            &&& redone.undo == history.undo
            &&& redone.redo == history.redo
        }),
{
    let undone = history.undone(editor);
    let before = history.undone_editor(editor);
    assert(SnapshotView::of(before) == history.undo.last());
    assert(history.undo.drop_last().push(history.undo.last()) =~= history.undo);
    assert(undone.redo.drop_last() =~= history.redo);
    assert(undone.redone_editor(before) =~= editor);
}

/// Undo takes back a redo.
pub proof fn undo_takes_back_a_redo(history: HistoryView, editor: EditorView)
    requires
        history.redo.len() > 0,
    ensures
        ({
            let redone = history.redone(editor);
            let after = history.redone_editor(editor);
            let undone = redone.undone(after);
            &&& redone.undo.len() > 0
            &&& redone.undone_editor(after) == editor
            &&& undone.undo == history.undo
            &&& undone.redo == history.redo
        }),
{
    let redone = history.redone(editor);
    let after = history.redone_editor(editor);
    assert(history.redo.drop_last().push(history.redo.last()) =~= history.redo);
    assert(redone.undo.drop_last() =~= history.undo);
    assert(redone.undone_editor(after) =~= editor);
}

/// No operation lets the history grow over its limit.
pub proof fn history_stays_within_limit(
    history: HistoryView,
    group: EditGroup,
    editor: EditorView,
)
    requires
        history.within_limit(),
    ensures
        history.recorded(group).within_limit(),
        history.undone(editor).within_limit(),
        history.redone(editor).within_limit(),
        history.at_frame_end(editor).within_limit(),
        HistoryView::fresh(editor).within_limit(),
{
}

/// Whatever happens, a history stays sound.
pub proof fn every_history_is_sound(state: (HistoryView, EditorView), calls: Seq<Call>)
    requires
        state.0.is_sound(),
    ensures
        after_calls(state, calls).0.is_sound(),
        HistoryView::fresh(state.1).is_sound(),
    decreases calls.len(),
{
    if calls.len() > 0 {
        every_history_is_sound(state, calls.drop_last());
    }
}

/// Undos in a row take one step each until there is none, so there are never more
/// of them than the limit.
pub proof fn undos_run_out(state: (HistoryView, EditorView), count: nat)
    requires
        state.0.is_sound(),
    ensures
        ({
            let calls = Seq::new(count, |i: int| Call::Undo);
            let left = after_calls(state, calls).0.undo.len();
            &&& left == if count < state.0.undo.len() {
                state.0.undo.len() - count
            } else {
                0
            }
            &&& count >= HISTORY_LIMIT ==> left == 0
        }),
    decreases count,
{
    if count > 0 {
        let calls = Seq::new(count, |i: int| Call::Undo);
        let fewer = Seq::new((count - 1) as nat, |i: int| Call::Undo);
        undos_run_out(state, (count - 1) as nat);
        assert(calls.drop_last() =~= fewer);
        assert(calls.last() == Call::Undo);
    }
}

/// Changes of the same kind that follow each other, however many frames they
/// take, are one step: one undo brings back what was there before the first.
pub proof fn changes_of_a_kind_are_one_step(
    history: HistoryView,
    group: EditGroup,
    start: EditorView,
    editors: Seq<EditorView>,
)
    requires
        group != EditGroup::Once,
        history.group != Some(group),
        history.baseline == SnapshotView::of(start),
        editors.len() > 0,
    ensures
        ({
            let after = history.after_frames(group, editors);
            let undone = after.undone_editor(editors.last());
            &&& after.undo == history.recorded(group).undo
            &&& after.undo.len() > 0
            &&& SnapshotView::of(undone) == SnapshotView::of(start)
            &&& after.undone(editors.last()).undo == after.undo.drop_last()
            &&& after.group == Some(group)
            &&& after.redo.len() == 0
        }),
    decreases editors.len(),
{
    let shorter = editors.drop_last();
    if shorter.len() > 0 {
        changes_of_a_kind_are_one_step(history, group, start, shorter);
    } else {
        assert(history.after_frames(group, shorter) == history);
    }
}

/// No change leaves anything to do again, whether it starts a step or goes on
/// with one.
pub proof fn a_change_clears_redo(history: HistoryView, group: EditGroup)
    requires
        history.is_sound(),
    ensures
        history.recorded(group).redo.len() == 0,
{
}

/// Taking a change back brings the notes, the tracks and the scale that there
/// were at the start of the frame. The tempo, the time signature and the groove
/// stay as they are.
pub proof fn undo_brings_the_start_of_the_frame_back(
    history: HistoryView,
    group: EditGroup,
    before: EditorView,
    after: EditorView,
)
    requires
        history.group != Some(group),
    ensures
        ({
            let back = history.at_frame_end(before).recorded(group).undone_editor(after);
            &&& back.notes == before.notes
            &&& back.tracks == before.tracks
            &&& back.scale == before.scale
            &&& back.tempo == after.tempo
            &&& back.beats == after.beats
            &&& back.beat_type == after.beat_type
            &&& back.swing_peak_ratio == after.swing_peak_ratio
            &&& back.waltz_ratio == after.waltz_ratio
        }),
{
}

/// A change is a step of its own behind the steps that there are, which stay in
/// their order. Where there are too many, the oldest one goes.
pub proof fn a_change_is_the_last_step(history: HistoryView, group: EditGroup)
    requires
        history.group != Some(group),
        history.undo.len() <= HISTORY_LIMIT,
    ensures
        ({
            let after = history.recorded(group);
            let count = history.undo.len() as int;
            &&& after.undo.len() > 0
            &&& after.undo.last() == history.baseline
            &&& count > 0 && history.undo.last() == history.baseline ==> after.undo == history.undo
            &&& (count == 0 || history.undo.last() != history.baseline) && count < HISTORY_LIMIT
                ==> after.undo.take(count) == history.undo && after.undo.len() == count + 1
            &&& count > 0 && history.undo.last() != history.baseline && count == HISTORY_LIMIT
                ==> after.undo.len() == count && after.undo.take(count - 1) == history.undo.skip(1)
            &&& after.redo.len() == 0
            &&& after.baseline == history.baseline
            &&& group == EditGroup::Once <==> after.group is None
        }),
{
    let after = history.recorded(group);
    let count = history.undo.len() as int;
    if count < HISTORY_LIMIT {
        assert(history.undo.push(history.baseline).take(count) =~= history.undo);
    } else {
        assert(history.undo.push(history.baseline).skip(1).take(count - 1)
            =~= history.undo.skip(1));
    }
}

/// A step that is taken back is the last one. It can be done again, and the steps
/// before it stay.
pub proof fn undo_takes_the_last_step(history: HistoryView, editor: EditorView)
    requires
        history.undo.len() > 0,
    ensures
        ({
            let after = history.undone(editor);
            &&& after.undo == history.undo.take(history.undo.len() - 1)
            &&& after.redo.take(history.redo.len() as int) == history.redo
            &&& after.redo.len() == history.redo.len() + 1
            &&& after.redo.last().notes == editor.notes
            &&& after.redo.last().tracks == editor.tracks
            &&& after.redo.last().scale == editor.scale
            &&& after.group is None
        }),
{
    let after = history.undone(editor);
    assert(after.undo =~= history.undo.take(history.undo.len() - 1));
    assert(after.redo.take(history.redo.len() as int) =~= history.redo);
}

} // verus!
