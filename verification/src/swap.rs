//! Swapping two lanes.

use crate::sequencer::{EditorView, LaneKind, MidiEditor, Note};
use vstd::prelude::*;

verus! {

/// Whether two lanes hold the same kind of thing. The numbers of two
/// controllers may differ.
pub open spec fn same_kind(a: LaneKind, b: LaneKind) -> bool {
    match (a, b) {
        (LaneKind::Note, LaneKind::Note) => true,
        (LaneKind::Cc(_), LaneKind::Cc(_)) => true,
        (LaneKind::Velocity, LaneKind::Velocity) => true,
        _ => false,
    }
}

/// The note on the other lane, where it lies on one of the two.
pub open spec fn swapped_note(note: Note, a: (usize, usize), b: (usize, usize)) -> Note {
    if note.track == a.0 && note.lane == a.1 {
        Note { track: b.0, lane: b.1, ..note }
    } else if note.track == b.0 && note.lane == b.1 {
        Note { track: a.0, lane: a.1, ..note }
    } else {
        note
    }
}

/// All notes with those of two lanes exchanged.
pub open spec fn swapped_notes(
    notes: Seq<Note>,
    a: (usize, usize),
    b: (usize, usize),
) -> Seq<Note> {
    Seq::new(notes.len(), |i: int| swapped_note(notes[i], a, b))
}

impl EditorView {
    /// Whether a lane is there.
    pub open spec fn has_lane(self, cell: (usize, usize)) -> bool {
        cell.0 < self.tracks.len() && cell.1 < self.tracks[cell.0 as int].lane_count()
    }

    /// Whether two lanes can be swapped: both are there, they are not the same
    /// one, and they hold the same kind of thing.
    pub open spec fn can_swap(self, a: (usize, usize), b: (usize, usize)) -> bool {
        &&& a != b
        &&& self.has_lane(a)
        &&& self.has_lane(b)
        &&& same_kind(
            self.tracks[a.0 as int].kind_at(a.1 as int),
            self.tracks[b.0 as int].kind_at(b.1 as int),
        )
    }

    /// With the controller number of a lane that has one changed.
    pub open spec fn with_number(self, cell: (usize, usize), number: Option<u8>) -> EditorView {
        self.with_track_at(cell.0 as int, self.tracks[cell.0 as int].with_cc(cell.1 as int, number))
    }

    /// With two lanes swapped: their notes, and their controller numbers.
    pub open spec fn swapped(self, a: (usize, usize), b: (usize, usize)) -> EditorView {
        let numbered = match (
            self.tracks[a.0 as int].kind_at(a.1 as int),
            self.tracks[b.0 as int].kind_at(b.1 as int),
        ) {
            (LaneKind::Cc(of_a), LaneKind::Cc(of_b)) => self.with_number(a, Some(of_b)).with_number(
                b,
                Some(of_a),
            ),
            _ => self,
        };
        EditorView { notes: swapped_notes(self.notes, a, b), ..numbered }
    }
}

/// Whether two lanes hold the same kind of thing.
pub fn kinds_match(a: LaneKind, b: LaneKind) -> (yes: bool)
    ensures
        yes == same_kind(a, b),
{
    match (a, b) {
        (LaneKind::Note, LaneKind::Note) => true,
        (LaneKind::Cc(_), LaneKind::Cc(_)) => true,
        (LaneKind::Velocity, LaneKind::Velocity) => true,
        _ => false,
    }
}

impl MidiEditor {
    fn holds_lane(&self, cell: (usize, usize)) -> (yes: bool)
        ensures
            yes == self@.has_lane(cell),
    {
        cell.0 < self.tracks.len() && cell.1 < self.tracks[cell.0].lane_count()
    }

    fn set_number(&mut self, cell: (usize, usize), number: Option<u8>)
        requires
            cell.0 < old(self)@.tracks.len(),
            cell.1 < usize::MAX,
        ensures
            final(self)@ == old(self)@.with_number(cell, number),
    {
        let mut track = self.tracks[cell.0].duplicate();
        track.set_lane_cc(cell.1, number);
        self.set_track(cell.0, track);
    }

    /// Swaps two lanes with all that they hold. Says whether it did.
    pub fn swap_lanes(&mut self, a: (usize, usize), b: (usize, usize)) -> (done: bool)
        ensures
            done == old(self)@.can_swap(a, b),
            final(self)@ == (if done {
                old(self)@.swapped(a, b)
            } else {
                old(self)@
            }),
    {
        let same: bool = a.0 == b.0 && a.1 == b.1;
        if same || !self.holds_lane(a) || !self.holds_lane(b) {
            return false;
        }
        let of_a = self.tracks[a.0].kind(a.1);
        let of_b = self.tracks[b.0].kind(b.1);
        if !kinds_match(of_a, of_b) {
            return false;
        }
        let ghost before = self@;
        match (of_a, of_b) {
            (LaneKind::Cc(number_a), LaneKind::Cc(number_b)) => {
                self.set_number(a, Some(number_b));
                self.set_number(b, Some(number_a));
            },
            _ => {},
        }
        let ghost numbered = self@;
        let count: usize = self.notes.len();
        let mut at: usize = 0;
        while at < count
            invariant
                count == before.notes.len(),
                at <= count,
                self@.notes.len() == count,
                forall|i: int|
                    0 <= i < count ==> #[trigger] self@.notes[i] == (if i < at {
                        swapped_note(before.notes[i], a, b)
                    } else {
                        before.notes[i]
                    }),
                self@ == (EditorView { notes: self@.notes, ..numbered }),
            decreases count - at,
        {
            let mut note = self.notes[at];
            if note.track == a.0 && note.lane == a.1 {
                note.track = b.0;
                note.lane = b.1;
            } else if note.track == b.0 && note.lane == b.1 {
                note.track = a.0;
                note.lane = a.1;
            }
            self.notes.set(at, note);
            at += 1;
        }
        assert(self@ =~= before.swapped(a, b));
        true
    }
}

/// Two lanes that were swapped can be swapped again, and that takes the first
/// swap back.
pub proof fn swapping_twice_changes_nothing(
    editor: EditorView,
    a: (usize, usize),
    b: (usize, usize),
)
    requires
        editor.can_swap(a, b),
    ensures
        editor.swapped(a, b).can_swap(a, b),
        editor.swapped(a, b).swapped(a, b) == editor,
{
    let once = editor.swapped(a, b);
    let twice = once.swapped(a, b);
    assert(twice.notes =~= editor.notes);
    assert forall|t: int| 0 <= t < editor.tracks.len() implies #[trigger] twice.tracks[t]
        == editor.tracks[t] by {
        assert(twice.tracks[t] =~= editor.tracks[t]);
    }
    assert(twice.tracks =~= editor.tracks);
}

/// It does not matter which of two lanes is named first.
pub proof fn swapping_is_symmetric(editor: EditorView, a: (usize, usize), b: (usize, usize))
    requires
        editor.can_swap(a, b),
    ensures
        editor.can_swap(b, a),
        editor.swapped(a, b) == editor.swapped(b, a),
{
    let there = editor.swapped(a, b);
    let back = editor.swapped(b, a);
    assert(there.notes =~= back.notes);
    assert forall|t: int| 0 <= t < editor.tracks.len() implies #[trigger] there.tracks[t]
        == back.tracks[t] by {
        assert(there.tracks[t] =~= back.tracks[t]);
    }
    assert(there.tracks =~= back.tracks);
}

/// Swapping two lanes takes what lies on each to the other. Every lane keeps its
/// kind, the two controllers change places, and nothing else changes.
pub proof fn swapping_exchanges_two_lanes(
    editor: EditorView,
    a: (usize, usize),
    b: (usize, usize),
    i: int,
    cell: (usize, usize),
)
    requires
        editor.can_swap(a, b),
        0 <= i < editor.notes.len(),
        editor.has_lane(cell),
    ensures
        ({
            let after = editor.swapped(a, b);
            let old = editor.notes[i];
            let new = after.notes[i];
            &&& after.notes.len() == editor.notes.len()
            &&& new == (Note { track: new.track, lane: new.lane, ..old })
            &&& (old.track, old.lane) == a ==> (new.track, new.lane) == b
            &&& (old.track, old.lane) == b ==> (new.track, new.lane) == a
            &&& (old.track, old.lane) != a && (old.track, old.lane) != b ==> new == old
            &&& after.kind_at(a.0 as int, a.1 as int) == editor.kind_at(b.0 as int, b.1 as int)
            &&& after.kind_at(b.0 as int, b.1 as int) == editor.kind_at(a.0 as int, a.1 as int)
            &&& cell != a && cell != b ==> after.kind_at(cell.0 as int, cell.1 as int)
                == editor.kind_at(cell.0 as int, cell.1 as int)
            &&& after.tracks.len() == editor.tracks.len()
            &&& after.lane_count(cell.0 as int) == editor.lane_count(cell.0 as int)
            &&& after.tracks[cell.0 as int].name == editor.tracks[cell.0 as int].name
            &&& after.tracks[cell.0 as int].muted == editor.tracks[cell.0 as int].muted
            &&& after.tracks[cell.0 as int].soloed == editor.tracks[cell.0 as int].soloed
        }),
{
}

/// Two lanes can be swapped if both are there, they are not one, and both hold
/// notes, both a controller, or both the velocity.
pub proof fn lanes_of_one_kind_can_be_swapped(
    editor: EditorView,
    a: (usize, usize),
    b: (usize, usize),
)
    requires
        a.0 < editor.tracks.len(),
        b.0 < editor.tracks.len(),
    ensures
        ({
            let of_a = editor.kind_at(a.0 as int, a.1 as int);
            let of_b = editor.kind_at(b.0 as int, b.1 as int);
            editor.can_swap(a, b) <==> (a.0 != b.0 || a.1 != b.1) && a.1 < editor.lane_count(
                a.0 as int,
            ) && b.1 < editor.lane_count(b.0 as int) && ((of_a is Note && of_b is Note) || (
            of_a is Cc && of_b is Cc) || (of_a is Velocity && of_b is Velocity))
        }),
{
}

} // verus!
