//! Tracks and lanes of a sequence: room for notes, adding, removing, swapping.

use crate::sequencer::{
    track_views, EditorView, LaneKind, MidiEditor, Note, TrackInfo, TrackView,
};
use vstd::prelude::*;

verus! {

/// The row of the first lane of a track, with the lanes of all tracks below
/// each other.
pub open spec fn row_start(tracks: Seq<TrackView>, track: int) -> int
    decreases track,
{
    if track <= 0 {
        0
    } else {
        row_start(tracks, track - 1) + tracks[track - 1].lane_count()
    }
}

impl TrackView {
    /// The track with lane `lane` turned into a controller lane, or back.
    pub open spec fn with_cc(self, lane: int, number: Option<u8>) -> TrackView {
        TrackView {
            lane_ccs: if lane < self.lane_ccs.len() {
                self.lane_ccs.update(lane, number)
            } else {
                Seq::new(
                    (lane + 1) as nat,
                    |i: int|
                        if i < self.lane_ccs.len() {
                            self.lane_ccs[i]
                        } else if i == lane {
                            number
                        } else {
                            None
                        },
                )
            },
            ..self
        }
    }

    /// The number of lanes, among the first `count`, up to the last one that
    /// holds notes.
    pub open spec fn normal_among(self, count: int) -> int
        decreases count,
    {
        if count <= 0 {
            0
        } else if self.kind_at(count - 1) == LaneKind::Note {
            count
        } else {
            self.normal_among(count - 1)
        }
    }

    /// The number of lanes above the control lanes at the bottom.
    pub open spec fn normal_count(self) -> int {
        self.normal_among(self.lane_count())
    }
}

impl TrackInfo {
    /// Turns a lane into a controller lane, or back.
    pub fn set_lane_cc(&mut self, lane: usize, number: Option<u8>)
        requires
            lane < usize::MAX,
        ensures
            final(self)@ == old(self)@.with_cc(lane as int, number),
    {
        let ghost before = self@;
        if lane < self.lane_ccs.len() {
            self.lane_ccs.set(lane, number);
        } else {
            let ghost numbers = self.lane_ccs@;
            while self.lane_ccs.len() < lane
                invariant
                    lane < usize::MAX,
                    numbers.len() <= self.lane_ccs@.len() <= lane,
                    forall|i: int| 0 <= i < numbers.len() ==> self.lane_ccs@[i] == numbers[i],
                    forall|i: int|
                        numbers.len() <= i < self.lane_ccs@.len() ==> self.lane_ccs@[i] is None,
                    self@ == (TrackView { lane_ccs: self.lane_ccs@, ..before }),
                decreases lane - self.lane_ccs@.len(),
            {
                self.lane_ccs.push(None);
            }
            self.lane_ccs.push(number);
        }
        assert(self@ =~= before.with_cc(lane as int, number));
    }

    /// What a lane holds.
    pub fn kind(&self, lane: usize) -> (kind: LaneKind)
        ensures
            kind == self@.kind_at(lane as int),
    {
        let ramp: bool = match self.velocity_lane {
            Some(at) => at == lane,
            None => false,
        };
        if ramp {
            LaneKind::Velocity
        } else {
            match self.lane_cc(lane) {
                Some(number) => LaneKind::Cc(number),
                None => LaneKind::Note,
            }
        }
    }

    /// The number of lanes; at least one.
    pub fn lane_count(&self) -> (count: usize)
        ensures
            count == self@.lane_count(),
    {
        if self.lanes == 0 {
            1
        } else {
            self.lanes
        }
    }

    /// The number of lanes above the control lanes at the bottom.
    pub fn normal_lanes(&self) -> (count: usize)
        ensures
            count == self@.normal_count(),
            count <= self@.lane_count(),
    {
        let mut count: usize = self.lane_count();
        while count > 0 && self.kind(count - 1) != LaneKind::Note
            invariant
                count <= self@.lane_count(),
                self@.normal_count() == self@.normal_among(count as int),
            decreases count,
        {
            count -= 1;
        }
        count
    }
}

/// Whether a note lies on a lane.
pub open spec fn lies_on(note: Note, track: int, lane: int) -> bool {
    note.track == track && note.lane == lane
}

/// Whether any note lies on a lane.
pub open spec fn is_occupied(notes: Seq<Note>, track: int, lane: int) -> bool {
    exists|i: int| 0 <= i < notes.len() && lies_on(#[trigger] notes[i], track, lane)
}

/// The number of tracks that notes need.
pub open spec fn needed_tracks(notes: Seq<Note>) -> int
    decreases notes.len(),
{
    if notes.len() == 0 {
        0
    } else {
        let before = needed_tracks(notes.drop_last());
        if notes.last().track + 1 > before {
            notes.last().track + 1
        } else {
            before
        }
    }
}

/// The number of lanes that notes need on a track.
pub open spec fn needed_lanes(notes: Seq<Note>, track: int) -> int
    decreases notes.len(),
{
    if notes.len() == 0 {
        0
    } else {
        let before = needed_lanes(notes.drop_last(), track);
        if notes.last().track == track && notes.last().lane + 1 > before {
            notes.last().lane + 1
        } else {
            before
        }
    }
}

/// `tracks` with tracks and lanes added at the end such that every note lies
/// on one of them.
pub open spec fn with_room(tracks: Seq<TrackView>, notes: Seq<Note>) -> Seq<TrackView> {
    Seq::new(
        if needed_tracks(notes) > tracks.len() {
            needed_tracks(notes) as nat
        } else {
            tracks.len()
        },
        |t: int|
            {
                let track = if t < tracks.len() {
                    tracks[t]
                } else {
                    TrackView::fresh(t)
                };
                if needed_lanes(notes, t) > track.lanes {
                    TrackView { lanes: needed_lanes(notes, t) as usize, ..track }
                } else {
                    track
                }
            },
    )
}

/// Whether every note has an index that a track or lane can have.
pub open spec fn indices_fit(notes: Seq<Note>) -> bool {
    forall|i: int|
        0 <= i < notes.len() ==> (#[trigger] notes[i]).track < usize::MAX && notes[i].lane
            < usize::MAX
}

proof fn lemma_needed_lanes_fit(notes: Seq<Note>, track: int)
    requires
        indices_fit(notes),
    ensures
        0 <= needed_lanes(notes, track) <= usize::MAX,
        0 <= needed_tracks(notes) <= usize::MAX,
        track >= needed_tracks(notes) ==> needed_lanes(notes, track) == 0,
    decreases notes.len(),
{
    if notes.len() > 0 {
        assert(notes[notes.len() - 1].track < usize::MAX);
        assert forall|i: int| 0 <= i < notes.drop_last().len() implies (
        #[trigger] notes.drop_last()[i]).track < usize::MAX && notes.drop_last()[i].lane
            < usize::MAX by {
            assert(notes[i].track < usize::MAX);
        }
        lemma_needed_lanes_fit(notes.drop_last(), track);
    }
}

impl MidiEditor {
    /// Adds tracks and lanes such that every note lies on one of them.
    pub fn ensure_capacity_for_notes(&mut self)
        requires
            indices_fit(old(self)@.notes),
        ensures
            final(self)@ == (EditorView {
                tracks: with_room(old(self)@.tracks, old(self)@.notes),
                ..old(self)@
            }),
    {
        let ghost start = self@;
        let mut at: usize = 0;
        assert(with_room(start.tracks, start.notes.take(0)) =~= start.tracks);
        while at < self.notes.len()
            invariant
                at <= start.notes.len(),
                indices_fit(start.notes),
                self@ == (EditorView {
                    tracks: with_room(start.tracks, start.notes.take(at as int)),
                    ..start
                }),
            decreases start.notes.len() - at,
        {
            let note = self.notes[at];
            let ghost done = start.notes.take(at as int);
            let ghost next = start.notes.take(at + 1);
            proof {
                assert(next.drop_last() =~= done);
                assert(next.last() == note);
                assert(indices_fit(done)) by {
                    assert forall|i: int| 0 <= i < done.len() implies (#[trigger] done[i]).track
                        < usize::MAX && done[i].lane < usize::MAX by {
                        assert(start.notes[i].track < usize::MAX);
                    }
                }
                assert(start.notes[at as int].track < usize::MAX);
            }
            let ghost before = self@.tracks;
            while self.tracks.len() <= note.track
                invariant
                    note.track < usize::MAX,
                    before.len() <= self.tracks@.len(),
                    forall|t: int|
                        0 <= t < self@.tracks.len() ==> #[trigger] self@.tracks[t] == (if t
                            < before.len() {
                            before[t]
                        } else {
                            TrackView::fresh(t)
                        }),
                    self@ == (EditorView { tracks: self@.tracks, ..start }),
                    self.tracks@.len() <= note.track + 1 || self.tracks@.len() == before.len(),
                decreases note.track + 1 - self.tracks@.len(),
            {
                let ghost old_tracks = self.tracks@;
                let track = TrackInfo::new(self.tracks.len());
                self.tracks.push(track);
                proof {
                    assert(track_views(self.tracks@) =~= track_views(old_tracks).push(track@));
                    assert(self@ =~= EditorView { tracks: self@.tracks, ..start });
                }
            }
            let ghost grown = self@.tracks;
            if self.tracks[note.track].lanes < note.lane + 1 {
                let lanes: usize = note.lane + 1;
                let mut track = self.tracks[note.track].duplicate();
                track.lanes = lanes;
                self.tracks.set(note.track, track);
                proof {
                    assert(track@ =~= TrackView { lanes, ..grown[note.track as int] });
                    assert(self@.tracks =~= grown.update(note.track as int, track@));
                }
            }
            proof {
                assert forall|t: int| needed_lanes(done, t) >= 0 && (t >= needed_tracks(done)
                    ==> #[trigger] needed_lanes(done, t) == 0) by {
                    lemma_needed_lanes_fit(done, t);
                }
                let room = with_room(start.tracks, next);
                assert forall|t: int| 0 <= t < room.len() implies #[trigger] self@.tracks[t]
                    == room[t] by {
                    lemma_needed_lanes_fit(done, t);
                    let base = if t < start.tracks.len() {
                        start.tracks[t]
                    } else {
                        TrackView::fresh(t)
                    };
                    assert(grown[t] == if needed_lanes(done, t) > base.lanes {
                        TrackView { lanes: needed_lanes(done, t) as usize, ..base }
                    } else {
                        base
                    });
                    if t == note.track {
                        assert(self@.tracks[t] == if note.lane + 1 > grown[t].lanes {
                            TrackView { lanes: (note.lane + 1) as usize, ..grown[t] }
                        } else {
                            grown[t]
                        });
                    } else {
                        assert(self@.tracks[t] == grown[t]);
                    }
                }
                assert(self@.tracks.len() == room.len()) by {
                    lemma_needed_lanes_fit(done, 0);
                }
                assert(self@.tracks =~= room);
                assert(self@ =~= EditorView { tracks: room, ..start });
            }
            at += 1;
        }
        assert(start.notes.take(at as int) =~= start.notes);
    }
}

/// Notes after a lane was put in at `lane`: those on it and below go down.
pub open spec fn pushed_down(notes: Seq<Note>, track: int, lane: int) -> Seq<Note> {
    Seq::new(
        notes.len(),
        |i: int|
            if notes[i].track == track && notes[i].lane >= lane {
                Note { lane: (notes[i].lane + 1) as usize, ..notes[i] }
            } else {
                notes[i]
            },
    )
}

/// Notes after lane `lane` was taken out: those below it go up.
pub open spec fn pulled_up(notes: Seq<Note>, track: int, lane: int) -> Seq<Note> {
    Seq::new(
        notes.len(),
        |i: int|
            if notes[i].track == track && notes[i].lane > lane {
                Note { lane: (notes[i].lane - 1) as usize, ..notes[i] }
            } else {
                notes[i]
            },
    )
}

impl TrackView {
    /// The track with a note lane put in at `lane`.
    pub open spec fn with_lane_at(self, lane: int) -> TrackView {
        TrackView {
            lanes: (self.lane_count() + 1) as usize,
            lane_ccs: if lane < self.lane_ccs.len() {
                self.lane_ccs.insert(lane, None)
            } else {
                self.lane_ccs
            },
            velocity_lane: match self.velocity_lane {
                Some(at) if at >= lane => Some((at + 1) as usize),
                other => other,
            },
            ..self
        }
    }

    /// The track without lane `lane`.
    pub open spec fn without_lane(self, lane: int) -> TrackView {
        TrackView {
            lanes: (self.lane_count() - 1) as usize,
            lane_ccs: if lane < self.lane_ccs.len() {
                self.lane_ccs.remove(lane)
            } else {
                self.lane_ccs
            },
            velocity_lane: match self.velocity_lane {
                Some(at) if at == lane => None,
                Some(at) if at > lane => Some((at - 1) as usize),
                other => other,
            },
            ..self
        }
    }
}

impl EditorView {
    /// Whether the last track can be removed: it is not the only one and has
    /// no notes.
    pub open spec fn can_remove_track(self) -> bool {
        &&& self.tracks.len() > 1
        &&& forall|i: int|
            0 <= i < self.notes.len() ==> (#[trigger] self.notes[i]).track != self.tracks.len() - 1
    }

    /// Whether the last note lane of a track can be removed: it is not the
    /// only one and no note lies on it.
    pub open spec fn can_remove_normal_lane(self, track: int) -> bool {
        let normal = self.tracks[track].normal_count();
        normal > 1 && !is_occupied(self.notes, track, normal - 1)
    }

    /// Whether the last control lane of a track can be removed: there is one,
    /// and no block lies on it.
    pub open spec fn can_remove_control_lane(self, track: int) -> bool {
        let count = self.tracks[track].lane_count();
        self.tracks[track].normal_count() < count && !is_occupied(self.notes, track, count - 1)
    }

    /// With a track added at the end.
    pub open spec fn with_new_track(self) -> EditorView {
        EditorView {
            tracks: self.tracks.push(TrackView::fresh(self.tracks.len() as int)),
            ..self
        }
    }

    /// Without the last track, where it can be removed.
    pub open spec fn without_last_track(self) -> EditorView {
        if self.can_remove_track() {
            EditorView { tracks: self.tracks.drop_last(), ..self }
        } else {
            self
        }
    }

    /// With a lane for notes put in above the control lanes of a track.
    pub open spec fn with_new_lane(self, track: int) -> EditorView {
        let info = self.tracks[track];
        let lane = info.normal_count();
        EditorView {
            notes: pushed_down(self.notes, track, lane),
            ..self.with_track_at(track, info.with_lane_at(lane))
        }
    }

    /// With a controller lane added at the bottom of a track.
    pub open spec fn with_cc_lane(self, track: int, number: u8) -> EditorView {
        let info = self.tracks[track];
        let count = info.lane_count();
        self.with_track_at(
            track,
            (TrackView { lanes: (count + 1) as usize, ..info }).with_cc(count, Some(number)),
        )
    }

    /// With a velocity lane added at the bottom of a track.
    pub open spec fn with_velocity_lane(self, track: int) -> EditorView {
        let info = self.tracks[track];
        let count = info.lane_count();
        self.with_track_at(
            track,
            TrackView {
                lanes: (count + 1) as usize,
                velocity_lane: Some(count as usize),
                ..info
            },
        )
    }

    /// Without a lane, which no note lies on.
    pub open spec fn without_lane(self, track: int, lane: int) -> EditorView {
        EditorView {
            notes: pulled_up(self.notes, track, lane),
            ..self.with_track_at(track, self.tracks[track].without_lane(lane))
        }
    }

    /// Without the last note lane of a track, where it can be removed.
    pub open spec fn without_normal_lane(self, track: int) -> EditorView {
        if self.can_remove_normal_lane(track) {
            self.without_lane(track, self.tracks[track].normal_count() - 1)
        } else {
            self
        }
    }

    /// Without the last control lane of a track, where it can be removed.
    pub open spec fn without_control_lane(self, track: int) -> EditorView {
        if self.can_remove_control_lane(track) {
            self.without_lane(track, self.tracks[track].lane_count() - 1)
        } else {
            self
        }
    }

    /// The sequence with track `track` replaced.
    pub open spec fn with_track_at(self, track: int, info: TrackView) -> EditorView {
        EditorView { tracks: self.tracks.update(track, info), ..self }
    }
}

/// Whether any note lies on a lane.
pub fn occupied(notes: &Vec<Note>, track: usize, lane: usize) -> (yes: bool)
    ensures
        yes == is_occupied(notes@, track as int, lane as int),
{
    let mut at: usize = 0;
    while at < notes.len()
        invariant
            at <= notes@.len(),
            forall|i: int|
                0 <= i < at ==> !lies_on(#[trigger] notes@[i], track as int, lane as int),
        decreases notes@.len() - at,
    {
        if notes[at].track == track && notes[at].lane == lane {
            assert(lies_on(notes@[at as int], track as int, lane as int));
            return true;
        }
        at += 1;
    }
    false
}

impl MidiEditor {
    /// The number of tracks.
    pub fn track_count(&self) -> (count: usize)
        ensures
            count == self@.tracks.len(),
    {
        self.tracks.len()
    }

    /// The number of rows: the lanes of all tracks.
    pub fn total_rows(&self) -> (rows: usize)
        requires
            row_start(self@.tracks, self@.tracks.len() as int) <= usize::MAX,
        ensures
            rows == row_start(self@.tracks, self@.tracks.len() as int),
    {
        let mut rows: usize = 0;
        let mut at: usize = 0;
        while at < self.tracks.len()
            invariant
                at <= self.tracks@.len(),
                rows == row_start(self@.tracks, at as int),
                row_start(self@.tracks, self@.tracks.len() as int) <= usize::MAX,
            decreases self.tracks@.len() - at,
        {
            proof {
                lemma_row_start_grows(self@.tracks, at + 1, self@.tracks.len() as int);
            }
            rows += self.lanes(at);
            at += 1;
        }
        rows
    }

    /// Replaces a track.
    pub(crate) fn set_track(&mut self, track: usize, info: TrackInfo)
        requires
            track < old(self)@.tracks.len(),
        ensures
            final(self)@ == old(self)@.with_track_at(track as int, info@),
    {
        let ghost before = self@;
        self.tracks.set(track, info);
        assert(self@ =~= before.with_track_at(track as int, info@));
    }

    /// Adds a track at the end.
    pub fn add_track(&mut self)
        ensures
            final(self)@ == old(self)@.with_new_track(),
    {
        let ghost before = self@;
        let ghost tracks = self.tracks@;
        let track = TrackInfo::new(self.tracks.len());
        self.tracks.push(track);
        assert(track_views(self.tracks@) =~= track_views(tracks).push(track@));
    }

    /// Whether the last track can be removed.
    pub fn can_remove_last_track(&self) -> (yes: bool)
        ensures
            yes == self@.can_remove_track(),
    {
        if self.tracks.len() <= 1 {
            return false;
        }
        let last: usize = self.tracks.len() - 1;
        let mut at: usize = 0;
        while at < self.notes.len()
            invariant
                at <= self.notes@.len(),
                last == self@.tracks.len() - 1,
                forall|i: int| 0 <= i < at ==> (#[trigger] self@.notes[i]).track != last,
            decreases self.notes@.len() - at,
        {
            if self.notes[at].track == last {
                assert(self@.notes[at as int].track == last);
                return false;
            }
            at += 1;
        }
        true
    }

    /// Removes the last track, where it can be removed.
    pub fn remove_last_track(&mut self)
        ensures
            final(self)@ == old(self)@.without_last_track(),
    {
        let ghost tracks = self.tracks@;
        if self.can_remove_last_track() {
            self.tracks.pop();
            assert(track_views(self.tracks@) =~= track_views(tracks).drop_last());
        }
    }

    /// Puts in a lane for notes above the control lanes of a track.
    pub fn add_lane(&mut self, track: usize)
        requires
            track < old(self)@.tracks.len(),
            old(self)@.tracks[track as int].lane_count() < usize::MAX,
            old(self)@.tracks[track as int].velocity_lane matches Some(at) ==> at < usize::MAX,
            indices_fit(old(self)@.notes),
        ensures
            final(self)@ == old(self)@.with_new_lane(track as int),
    {
        let ghost before = self@;
        let ghost old_info = before.tracks[track as int];
        let mut info = self.tracks[track].duplicate();
        let lane: usize = info.normal_lanes();
        info.lanes = info.lane_count() + 1;
        if lane < info.lane_ccs.len() {
            info.lane_ccs.insert(lane, None);
        }
        info.velocity_lane = match info.velocity_lane {
            Some(at) => if at >= lane {
                Some(at + 1)
            } else {
                Some(at)
            },
            None => None,
        };
        assert(info@ =~= old_info.with_lane_at(lane as int));
        self.set_track(track, info);
        let ghost notes = before.notes;
        let ghost moved = pushed_down(notes, track as int, lane as int);
        let ghost relaid = self@;
        let mut at: usize = 0;
        while at < self.notes.len()
            invariant
                at <= notes.len(),
                indices_fit(notes),
                moved == pushed_down(notes, track as int, lane as int),
                relaid.notes == notes,
                self@ == (EditorView { notes: self@.notes, ..relaid }),
                self@.notes.len() == notes.len(),
                forall|i: int|
                    0 <= i < notes.len() ==> #[trigger] self@.notes[i] == (if i < at {
                        moved[i]
                    } else {
                        notes[i]
                    }),
            decreases notes.len() - at,
        {
            let mut note = self.notes[at];
            assert(notes[at as int].lane < usize::MAX);
            if note.track == track && note.lane >= lane {
                note.lane = note.lane + 1;
                self.notes.set(at, note);
            }
            assert(self@ =~= EditorView { notes: self@.notes, ..relaid });
            at += 1;
        }
        assert(self@.notes =~= moved);
    }

    /// Adds a controller lane at the bottom of a track.
    pub fn add_cc_lane(&mut self, track: usize, number: u8)
        requires
            track < old(self)@.tracks.len(),
            old(self)@.tracks[track as int].lane_count() < usize::MAX,
        ensures
            final(self)@ == old(self)@.with_cc_lane(track as int, number),
    {
        let mut info = self.tracks[track].duplicate();
        let count: usize = info.lane_count();
        info.lanes = count + 1;
        assert(info@ =~= TrackView { lanes: (count + 1) as usize, ..self@.tracks[track as int] });
        info.set_lane_cc(count, Some(number));
        self.set_track(track, info);
    }

    /// Adds a velocity lane at the bottom of a track.
    pub fn add_velocity_lane(&mut self, track: usize)
        requires
            track < old(self)@.tracks.len(),
            old(self)@.tracks[track as int].lane_count() < usize::MAX,
        ensures
            final(self)@ == old(self)@.with_velocity_lane(track as int),
    {
        let ghost old_info = self@.tracks[track as int];
        let mut info = self.tracks[track].duplicate();
        let count: usize = info.lane_count();
        info.lanes = count + 1;
        info.velocity_lane = Some(count);
        assert(info@ =~= TrackView {
            lanes: (count + 1) as usize,
            velocity_lane: Some(count),
            ..old_info
        });
        self.set_track(track, info);
    }

    /// Whether the last note lane of a track can be removed.
    pub fn can_remove_last_normal_lane(&self, track: usize) -> (yes: bool)
        requires
            track < self@.tracks.len(),
        ensures
            yes == self@.can_remove_normal_lane(track as int),
    {
        let normal: usize = self.tracks[track].normal_lanes();
        normal > 1 && !occupied(&self.notes, track, normal - 1)
    }

    /// Whether the last control lane of a track can be removed.
    pub fn can_remove_last_control_lane(&self, track: usize) -> (yes: bool)
        requires
            track < self@.tracks.len(),
        ensures
            yes == self@.can_remove_control_lane(track as int),
    {
        let count: usize = self.tracks[track].lane_count();
        self.tracks[track].normal_lanes() < count && !occupied(&self.notes, track, count - 1)
    }

    /// Takes a lane out of a track. No note may lie on it.
    fn take_out_lane(&mut self, track: usize, lane: usize)
        requires
            track < old(self)@.tracks.len(),
            lane < old(self)@.tracks[track as int].lane_count(),
        ensures
            final(self)@ == (EditorView {
                notes: pulled_up(old(self)@.notes, track as int, lane as int),
                ..old(self)@.with_track_at(
                    track as int,
                    old(self)@.tracks[track as int].without_lane(lane as int),
                )
            }),
    {
        let ghost before = self@;
        let ghost old_info = before.tracks[track as int];
        let mut info = self.tracks[track].duplicate();
        info.lanes = info.lane_count() - 1;
        if lane < info.lane_ccs.len() {
            info.lane_ccs.remove(lane);
        }
        info.velocity_lane = match info.velocity_lane {
            Some(at) => if at == lane {
                None
            } else if at > lane {
                Some(at - 1)
            } else {
                Some(at)
            },
            None => None,
        };
        assert(info@ =~= old_info.without_lane(lane as int));
        self.set_track(track, info);
        let ghost notes = before.notes;
        let ghost moved = pulled_up(notes, track as int, lane as int);
        let ghost relaid = self@;
        let mut at: usize = 0;
        while at < self.notes.len()
            invariant
                at <= notes.len(),
                moved == pulled_up(notes, track as int, lane as int),
                relaid.notes == notes,
                self@ == (EditorView { notes: self@.notes, ..relaid }),
                self@.notes.len() == notes.len(),
                forall|i: int|
                    0 <= i < notes.len() ==> #[trigger] self@.notes[i] == (if i < at {
                        moved[i]
                    } else {
                        notes[i]
                    }),
            decreases notes.len() - at,
        {
            let mut note = self.notes[at];
            assert(note == notes[at as int]);
            if note.track == track && note.lane > lane {
                note.lane = note.lane - 1;
                self.notes.set(at, note);
            }
            assert(self@ =~= EditorView { notes: self@.notes, ..relaid });
            at += 1;
        }
        assert(self@.notes =~= moved);
    }

    /// Removes the last note lane of a track, where it can be removed.
    pub fn remove_last_normal_lane(&mut self, track: usize)
        requires
            track < old(self)@.tracks.len(),
        ensures
            final(self)@ == old(self)@.without_normal_lane(track as int),
    {
        if self.can_remove_last_normal_lane(track) {
            let lane: usize = self.tracks[track].normal_lanes() - 1;
            self.take_out_lane(track, lane);
        }
    }

    /// Removes the last control lane of a track, where it can be removed.
    pub fn remove_last_control_lane(&mut self, track: usize)
        requires
            track < old(self)@.tracks.len(),
        ensures
            final(self)@ == old(self)@.without_control_lane(track as int),
    {
        if self.can_remove_last_control_lane(track) {
            let lane: usize = self.tracks[track].lane_count() - 1;
            self.take_out_lane(track, lane);
        }
    }
}

/// Tracks only ever add rows.
pub proof fn lemma_row_start_grows(tracks: Seq<TrackView>, a: int, b: int)
    requires
        0 <= a <= b,
    ensures
        0 <= row_start(tracks, a) <= row_start(tracks, b),
        b - a <= row_start(tracks, b) - row_start(tracks, a),
    decreases b,
{
    if b > 0 {
        if a < b {
            lemma_row_start_grows(tracks, a, b - 1);
        } else {
            lemma_row_start_grows(tracks, a - 1, b - 1);
        }
    }
}

/// The lanes from the last note lane on are control lanes.
proof fn lemma_control_lanes_follow(track: TrackView, count: int)
    requires
        count >= 0,
    ensures
        0 <= track.normal_among(count) <= count,
        forall|lane: int|
            track.normal_among(count) <= lane < count ==> #[trigger] track.kind_at(lane)
                != LaneKind::Note,
    decreases count,
{
    if count > 0 && track.kind_at(count - 1) != LaneKind::Note {
        lemma_control_lanes_follow(track, count - 1);
    }
}

/// The last note lane is the one with control lanes alone behind it.
proof fn lemma_last_note_lane(track: TrackView, count: int, normal: int)
    requires
        0 < normal <= count,
        track.kind_at(normal - 1) == LaneKind::Note,
        forall|lane: int|
            normal <= lane < count ==> #[trigger] track.kind_at(lane) != LaneKind::Note,
    ensures
        track.normal_among(count) == normal,
    decreases count,
{
    if normal < count {
        assert(track.kind_at(count - 1) != LaneKind::Note);
        lemma_last_note_lane(track, count - 1, normal);
    }
}

/// A new track can be removed again, and then all is as before.
pub proof fn a_new_track_can_be_removed(editor: EditorView)
    requires
        editor.tracks.len() > 0,
        forall|i: int|
            0 <= i < editor.notes.len() ==> (#[trigger] editor.notes[i]).track
                < editor.tracks.len(),
    ensures
        editor.with_new_track().without_last_track() == editor,
{
    assert(editor.with_new_track().tracks.drop_last() =~= editor.tracks);
}

/// A new note lane can be removed again, and then all is as before. The track
/// must have one already: the only note lane stays.
pub proof fn a_new_lane_can_be_removed(editor: EditorView, track: int)
    requires
        0 <= track < editor.tracks.len() <= usize::MAX,
        0 < editor.tracks[track].lanes < usize::MAX,
        editor.tracks[track].normal_count() > 0,
        editor.tracks[track].velocity_lane matches Some(at) ==> at < usize::MAX,
        indices_fit(editor.notes),
    ensures
        editor.with_new_lane(track).without_normal_lane(track) == editor,
{
    let info = editor.tracks[track];
    let count = info.lane_count();
    let normal = info.normal_count();
    lemma_control_lanes_follow(info, count);
    let with = editor.with_new_lane(track);
    let grown = info.with_lane_at(normal);
    assert(with.tracks[track] == grown);
    assert(grown.lane_count() == count + 1);
    assert forall|lane: int| normal + 1 <= lane < count + 1 implies #[trigger] grown.kind_at(lane)
        != LaneKind::Note by {
        assert(info.kind_at(lane - 1) != LaneKind::Note);
    }
    assert(grown.kind_at(normal) == LaneKind::Note);
    lemma_last_note_lane(grown, count + 1, normal + 1);
    assert(!is_occupied(with.notes, track, normal)) by {
        assert forall|i: int| 0 <= i < with.notes.len() implies !lies_on(
            #[trigger] with.notes[i],
            track,
            normal,
        ) by {
            assert(editor.notes[i].lane < usize::MAX);
        }
    }
    let back = with.without_normal_lane(track);
    assert forall|i: int| 0 <= i < editor.notes.len() implies #[trigger] back.notes[i]
        == editor.notes[i] by {
        assert(editor.notes[i].lane < usize::MAX);
    }
    assert(back.notes =~= editor.notes);
    assert(grown.without_lane(normal) =~= info);
    assert(back.tracks =~= editor.tracks);
}

/// A control lane can be removed as long as nothing lies on it, and then all is
/// as before.
pub proof fn a_new_cc_lane_can_be_removed(editor: EditorView, track: int, number: u8)
    requires
        0 <= track < editor.tracks.len() <= usize::MAX,
        0 < editor.tracks[track].lanes < usize::MAX,
        editor.tracks[track].velocity_lane matches Some(at) ==> at < editor.tracks[track].lanes,
        editor.tracks[track].lane_ccs.len() == editor.tracks[track].lanes,
        forall|i: int|
            0 <= i < editor.notes.len() && (#[trigger] editor.notes[i]).track == track
                ==> editor.notes[i].lane < editor.tracks[track].lanes,
    ensures
        editor.with_cc_lane(track, number).without_control_lane(track) == editor,
{
    let info = editor.tracks[track];
    let count = info.lane_count();
    let with = editor.with_cc_lane(track, number);
    let grown = with.tracks[track];
    assert(grown.lane_count() == count + 1);
    assert(grown.kind_at(count) == LaneKind::Cc(number));
    lemma_control_lanes_follow(grown, count);
    assert(grown.normal_count() < count + 1);
    let back = with.without_control_lane(track);
    assert(back.notes =~= editor.notes);
    assert(grown.without_lane(count) =~= info);
    assert(back.tracks =~= editor.tracks);
}

/// Whether two tracks are alike in all but their lanes.
pub open spec fn alike_but_lanes(a: TrackView, b: TrackView) -> bool {
    &&& a.name == b.name
    &&& a.muted == b.muted
    &&& a.soloed == b.soloed
    &&& a.swing == b.swing
    &&& a.waltz == b.waltz
}

/// Whether two sequences are alike in all but their notes and one track.
pub open spec fn alike_but_track(a: EditorView, b: EditorView, track: int) -> bool {
    &&& a.tracks.len() == b.tracks.len()
    &&& forall|t: int| 0 <= t < a.tracks.len() && t != track ==> #[trigger] a.tracks[t] == b.tracks[t]
    &&& alike_but_lanes(a.tracks[track], b.tracks[track])
    &&& a.tempo == b.tempo
    &&& a.beats == b.beats
    &&& a.beat_type == b.beat_type
    &&& a.scale == b.scale
    &&& a.swing_peak_ratio == b.swing_peak_ratio
    &&& a.waltz_ratio == b.waltz_ratio
}

/// Whether two notes are alike in all but the lane.
pub open spec fn alike_but_lane(a: Note, b: Note) -> bool {
    &&& a.start_tick == b.start_tick
    &&& a.duration == b.duration
    &&& a.semitone == b.semitone
    &&& a.octave == b.octave
    &&& a.velocity == b.velocity
    &&& a.velocity_to == b.velocity_to
    &&& a.track == b.track
}

/// The control lanes of a track are those below its last lane for notes.
pub proof fn control_lanes_lie_at_the_bottom(track: TrackView, lane: int)
    ensures
        0 <= track.normal_count() <= track.lane_count(),
        track.normal_count() > 0 ==> track.kind_at(track.normal_count() - 1) == LaneKind::Note,
        track.normal_count() <= lane < track.lane_count() ==> track.kind_at(lane)
            != LaneKind::Note,
{
    lemma_control_lanes_follow(track, track.lane_count());
    lemma_normal_is_note(track, track.lane_count());
}

proof fn lemma_normal_is_note(track: TrackView, count: int)
    ensures
        track.normal_among(count) > 0 ==> track.kind_at(track.normal_among(count) - 1)
            == LaneKind::Note,
    decreases count,
{
    if count > 0 && track.kind_at(count - 1) != LaneKind::Note {
        lemma_normal_is_note(track, count - 1);
    }
}

/// A lane that is put in holds notes and is empty. It stands below the lanes for
/// notes, and every lane keeps what it holds: those above it stay, and those
/// below it go down by one with what lies on them.
pub proof fn a_new_lane_is_empty(editor: EditorView, track: int, lane: int, i: int)
    requires
        0 <= track < editor.tracks.len(),
        editor.tracks[track].lane_count() < usize::MAX,
        editor.tracks[track].velocity_lane matches Some(at) ==> at < usize::MAX,
        indices_fit(editor.notes),
        0 <= lane < editor.lane_count(track),
        0 <= i < editor.notes.len(),
    ensures
        ({
            let after = editor.with_new_lane(track);
            let here = editor.tracks[track].normal_count();
            let old = editor.notes[i];
            let new = after.notes[i];
            &&& alike_but_track(after, editor, track)
            &&& after.lane_count(track) == editor.lane_count(track) + 1
            &&& after.kind_at(track, here) == LaneKind::Note
            &&& after.notes.len() == editor.notes.len()
            &&& !lies_on(new, track, here)
            &&& alike_but_lane(new, old)
            &&& lane < here ==> {
                &&& after.kind_at(track, lane) == editor.kind_at(track, lane)
                &&& lies_on(old, track, lane) <==> lies_on(new, track, lane)
            }
            &&& lane >= here ==> {
                &&& after.kind_at(track, lane + 1) == editor.kind_at(track, lane)
                &&& lies_on(old, track, lane) <==> lies_on(new, track, lane + 1)
            }
            &&& old.track != track ==> new == old
        }),
{
    let info = editor.tracks[track];
    let here = info.normal_count();
    lemma_control_lanes_follow(info, info.lane_count());
    assert(editor.notes[i].lane < usize::MAX);
    assert(editor.with_new_lane(track).tracks[track] == info.with_lane_at(here));
}

/// The last lane for notes can be removed if it is not the only one and nothing
/// lies on it. Every other lane keeps what it holds: those above it stay, and
/// those below it go up by one with what lies on them. Where it cannot be
/// removed, nothing changes.
pub proof fn a_removed_lane_was_empty(editor: EditorView, track: int, lane: int, i: int)
    requires
        0 <= track < editor.tracks.len(),
        0 <= lane < editor.lane_count(track),
        0 <= i < editor.notes.len(),
    ensures
        ({
            let after = editor.without_normal_lane(track);
            let here = editor.tracks[track].normal_count() - 1;
            let old = editor.notes[i];
            let new = after.notes[i];
            let can = here > 0 && forall|k: int|
                0 <= k < editor.notes.len() ==> !((#[trigger] editor.notes[k]).track == track
                    && editor.notes[k].lane == here);
            &&& !can ==> after == editor
            &&& can ==> {
                &&& alike_but_track(after, editor, track)
                &&& after.lane_count(track) == editor.lane_count(track) - 1
                &&& after.notes.len() == editor.notes.len()
                &&& alike_but_lane(new, old)
                &&& lane < here ==> {
                    &&& after.kind_at(track, lane) == editor.kind_at(track, lane)
                    &&& lies_on(old, track, lane) <==> lies_on(new, track, lane)
                }
                &&& lane > here ==> {
                    &&& after.kind_at(track, lane - 1) == editor.kind_at(track, lane)
                    &&& lies_on(old, track, lane) <==> lies_on(new, track, lane - 1)
                }
                &&& old.track != track ==> new == old
            }
        }),
{
    let info = editor.tracks[track];
    let here = info.normal_count() - 1;
    lemma_control_lanes_follow(info, info.lane_count());
    let can = here > 0 && forall|k: int|
        0 <= k < editor.notes.len() ==> !((#[trigger] editor.notes[k]).track == track
            && editor.notes[k].lane == here);
    if can {
        assert(!is_occupied(editor.notes, track, here));
        assert(editor.without_normal_lane(track).tracks[track] == info.without_lane(here));
        assert(!(editor.notes[i].track == track && editor.notes[i].lane == here));
    } else if here > 0 {
        let k = choose|k: int|
            0 <= k < editor.notes.len() && ((#[trigger] editor.notes[k]).track == track
                && editor.notes[k].lane == here);
        assert(lies_on(editor.notes[k], track, here));
    }
}

/// The last control lane can be removed if there is one and nothing lies on it.
/// The other lanes and all notes stay where they are.
pub proof fn a_removed_control_lane_was_empty(editor: EditorView, track: int, lane: int)
    requires
        0 <= track < editor.tracks.len(),
        0 <= lane < editor.lane_count(track) - 1,
        forall|k: int|
            0 <= k < editor.notes.len() && (#[trigger] editor.notes[k]).track == track
                ==> editor.notes[k].lane < editor.lane_count(track),
    ensures
        ({
            let after = editor.without_control_lane(track);
            let here = editor.lane_count(track) - 1;
            let can = editor.kind_at(track, here) != LaneKind::Note && forall|k: int|
                0 <= k < editor.notes.len() ==> !((#[trigger] editor.notes[k]).track == track
                    && editor.notes[k].lane == here);
            &&& !can ==> after == editor
            &&& can ==> {
                &&& alike_but_track(after, editor, track)
                &&& after.lane_count(track) == editor.lane_count(track) - 1
                &&& after.notes == editor.notes
                &&& after.kind_at(track, lane) == editor.kind_at(track, lane)
            }
        }),
{
    let info = editor.tracks[track];
    let here = info.lane_count() - 1;
    lemma_control_lanes_follow(info, here);
    assert(info.normal_count() < info.lane_count() <==> info.kind_at(here) != LaneKind::Note);
    let can = editor.kind_at(track, here) != LaneKind::Note && forall|k: int|
        0 <= k < editor.notes.len() ==> !((#[trigger] editor.notes[k]).track == track
            && editor.notes[k].lane == here);
    if can {
        assert(!is_occupied(editor.notes, track, here));
        let after = editor.without_control_lane(track);
        assert(after.tracks[track] == info.without_lane(here));
        assert(after.notes =~= editor.notes);
    } else if editor.kind_at(track, here) != LaneKind::Note {
        let k = choose|k: int|
            0 <= k < editor.notes.len() && ((#[trigger] editor.notes[k]).track == track
                && editor.notes[k].lane == here);
        assert(lies_on(editor.notes[k], track, here));
    }
}

/// A new controller lane stands at the bottom and is of the controller asked
/// for. A new velocity lane stands at the bottom too. The other lanes keep what
/// they hold, but a track has only one velocity lane; all notes stay.
pub proof fn a_new_control_lane_is_of_its_kind(
    editor: EditorView,
    track: int,
    number: u8,
    lane: int,
)
    requires
        0 <= track < editor.tracks.len(),
        editor.tracks[track].lane_count() < usize::MAX,
        editor.tracks[track].velocity_lane matches Some(at) ==> at < editor.lane_count(track),
        0 <= lane < editor.lane_count(track),
    ensures
        ({
            let after = editor.with_cc_lane(track, number);
            let here = editor.lane_count(track);
            &&& alike_but_track(after, editor, track)
            &&& after.notes == editor.notes
            &&& after.lane_count(track) == here + 1
            &&& after.kind_at(track, here) == LaneKind::Cc(number)
            &&& after.kind_at(track, lane) == editor.kind_at(track, lane)
        }),
        ({
            let after = editor.with_velocity_lane(track);
            let here = editor.lane_count(track);
            &&& alike_but_track(after, editor, track)
            &&& after.notes == editor.notes
            &&& after.lane_count(track) == here + 1
            &&& after.kind_at(track, here) == LaneKind::Velocity
            &&& editor.kind_at(track, lane) != LaneKind::Velocity ==> after.kind_at(track, lane)
                == editor.kind_at(track, lane)
            &&& after.kind_at(track, lane) != LaneKind::Velocity
        }),
{
    let here = editor.lane_count(track);
    let info = editor.tracks[track];
    let with = editor.with_cc_lane(track, number).tracks[track];
    assert(with.cc_at(here) == Some(number));
    assert(with.cc_at(lane) == info.cc_at(lane));
}

/// A new track stands behind the others and is like any new one. The last track
/// can be removed if it is not the only one and has no notes.
pub proof fn tracks_come_and_go_at_the_end(editor: EditorView)
    ensures
        ({
            let after = editor.with_new_track();
            &&& after.tracks.len() == editor.tracks.len() + 1
            &&& after.tracks.drop_last() == editor.tracks
            &&& after.tracks.last() == TrackView::fresh(editor.tracks.len() as int)
            &&& after.notes == editor.notes
            &&& after.tempo == editor.tempo
            &&& after.scale == editor.scale
        }),
        ({
            let after = editor.without_last_track();
            let last = editor.tracks.len() - 1;
            let can = last > 0 && forall|k: int|
                0 <= k < editor.notes.len() ==> (#[trigger] editor.notes[k]).track != last;
            &&& !can ==> after == editor
            &&& can ==> after.tracks == editor.tracks.take(last) && after.notes == editor.notes
                && after.tempo == editor.tempo && after.scale == editor.scale
        }),
{
    assert(editor.with_new_track().tracks.drop_last() =~= editor.tracks);
    assert(editor.tracks.len() > 0 ==> editor.tracks.drop_last() =~= editor.tracks.take(
        editor.tracks.len() - 1,
    ));
}

proof fn lemma_needed(notes: Seq<Note>, track: int, i: int)
    requires
        indices_fit(notes),
        0 <= i < notes.len(),
    ensures
        notes[i].track < needed_tracks(notes),
        notes[i].track == track ==> notes[i].lane < needed_lanes(notes, track),
    decreases notes.len(),
{
    if i < notes.len() - 1 {
        let shorter = notes.drop_last();
        assert forall|k: int| 0 <= k < shorter.len() implies (#[trigger] shorter[k]).track
            < usize::MAX && shorter[k].lane < usize::MAX by {
            assert(notes[k].track < usize::MAX);
        }
        lemma_needed(shorter, track, i);
    }
}

proof fn lemma_needed_is_used(notes: Seq<Note>, track: int) -> (at: (int, int))
    ensures
        needed_tracks(notes) > 0 ==> 0 <= at.0 < notes.len() && notes[at.0].track + 1
            == needed_tracks(notes),
        needed_lanes(notes, track) > 0 ==> 0 <= at.1 < notes.len() && notes[at.1].track == track
            && notes[at.1].lane + 1 == needed_lanes(notes, track),
    decreases notes.len(),
{
    if notes.len() == 0 {
        (0, 0)
    } else {
        let shorter = notes.drop_last();
        let before = lemma_needed_is_used(shorter, track);
        let last = notes.len() - 1;
        (
            if notes.last().track + 1 > needed_tracks(shorter) {
                last
            } else {
                before.0
            },
            if notes.last().track == track && notes.last().lane + 1 > needed_lanes(
                shorter,
                track,
            ) {
                last
            } else {
                before.1
            },
        )
    }
}

/// Room is made such that every note lies on a lane of a track, and no more of
/// it: a lane or a track that is added has a note on it or stands before one
/// that has. The tracks that are there stay as they are but for their lanes.
pub proof fn every_note_gets_a_lane(tracks: Seq<TrackView>, notes: Seq<Note>, i: int, t: int)
    requires
        indices_fit(notes),
        0 <= i < notes.len(),
        0 <= t < with_room(tracks, notes).len(),
    ensures
        ({
            let after = with_room(tracks, notes);
            &&& notes[i].track < after.len()
            &&& notes[i].lane < after[notes[i].track as int].lane_count()
            &&& tracks.len() <= after.len()
            &&& t < tracks.len() ==> {
                &&& alike_but_lanes(after[t], tracks[t])
                &&& after[t].lane_ccs == tracks[t].lane_ccs
                &&& after[t].velocity_lane == tracks[t].velocity_lane
                &&& after[t].lanes >= tracks[t].lanes
                &&& after[t].lanes > tracks[t].lanes ==> is_occupied(
                    notes,
                    t,
                    after[t].lanes - 1,
                )
            }
            &&& t >= tracks.len() ==> {
                &&& alike_but_lanes(after[t], TrackView::fresh(t))
                &&& after[t].lanes > 1 ==> is_occupied(notes, t, after[t].lanes - 1)
                &&& exists|k: int|
                    0 <= k < notes.len() && (#[trigger] notes[k]).track + 1 == after.len()
            }
        }),
{
    let at = notes[i].track as int;
    lemma_needed(notes, at, i);
    lemma_needed_lanes_fit(notes, at);
    lemma_needed_lanes_fit(notes, t);
    let used = lemma_needed_is_used(notes, t);
    let after = with_room(tracks, notes);
    if needed_lanes(notes, t) > 0 {
        assert(lies_on(notes[used.1], t, needed_lanes(notes, t) - 1));
    }
    if t >= tracks.len() {
        assert(notes[used.0].track + 1 == after.len());
    }
}

} // verus!
