//! The column of tracks: switches, lanes that come and go, and the strips beside
//! the lanes.

use crate::history::EditGroup;
use crate::lanes::indices_fit;
use crate::sequencer::{EditorView, MidiEditor, TrackView};
use crate::state::{a_lane_selects_its_notes, indices_on, EditorState, StateView};
use vstd::prelude::*;

verus! {

/// The controller that a new lane is for: the pedal, for which 0 is "up".
pub const PEDAL: u8 = 64;

/// The name of a controller that is often used.
pub open spec fn cc_name_of(number: u8) -> Seq<char> {
    match number {
        1 => "モジュレーション"@,
        11 => "エクスプレッション"@,
        64 => "ペダル (サステイン)"@,
        66 => "ソステヌート"@,
        67 => "ソフト"@,
        7 => "音量"@,
        _ => "その他"@,
    }
}

/// The name of a controller that is often used.
pub fn cc_name(number: u8) -> (name: &'static str)
    ensures
        name@ == cc_name_of(number),
        number == 1 ==> name@ == "モジュレーション"@,
        number == 7 ==> name@ == "音量"@,
        number == 11 ==> name@ == "エクスプレッション"@,
        number == 64 ==> name@ == "ペダル (サステイン)"@,
        number == 66 ==> name@ == "ソステヌート"@,
        number == 67 ==> name@ == "ソフト"@,
{
    match number {
        1 => "モジュレーション",
        11 => "エクスプレッション",
        64 => "ペダル (サステイン)",
        66 => "ソステヌート",
        67 => "ソフト",
        7 => "音量",
        _ => "その他",
    }
}

/// The controllers that are often used, in the order in which they are offered.
pub fn common_ccs() -> (numbers: Vec<u8>)
    ensures
        numbers@ == seq![1u8, 11, 64, 66, 67, 7],
{
    let numbers: Vec<u8> = vec![1, 11, 64, 66, 67, 7];
    assert(numbers@ =~= seq![1u8, 11, 64, 66, 67, 7]);
    numbers
}

/// Whether 0 is not neutral for a controller: volume, balance and pan. Outside
/// of its blocks such a lane is silent, or at the left.
pub fn zero_is_not_neutral(number: u8) -> (yes: bool)
    ensures
        yes == (number == 7 || number == 8 || number == 10),
{
    number == 7 || number == 8 || number == 10
}

/// A switch of a track.
#[derive(Clone, Copy, PartialEq, Eq, Structural, Debug)]
pub enum Switch {
    Mute,
    Solo,
    Swing,
    Waltz,
}

impl TrackView {
    /// With a switch turned over.
    pub open spec fn switched(self, switch: Switch) -> TrackView {
        match switch {
            Switch::Mute => TrackView { muted: !self.muted, ..self },
            Switch::Solo => TrackView { soloed: !self.soloed, ..self },
            Switch::Swing => TrackView { swing: !self.swing, ..self },
            Switch::Waltz => TrackView { waltz: !self.waltz, ..self },
        }
    }
}

/// How the strip of a lane looks.
#[derive(Clone, Copy, PartialEq, Eq, Structural, Debug)]
pub enum Strip {
    /// It waits for the lane that it is to be swapped with.
    Armed,
    /// Another lane waits, and this one can be swapped with it.
    Ready,
    /// Another lane waits, and this one holds something else.
    Blocked,
}

impl StateView {
    /// With the sequence changed as a step of its own.
    pub open spec fn stepped_to(self, editor: EditorView) -> StateView {
        StateView { editor, ..self.recorded(EditGroup::Once) }
    }

    /// How the strip of a lane looks.
    pub open spec fn strip_of(self, track: usize, lane: usize) -> Strip {
        match self.lane_swap_source {
            Some(source) => {
                if source == (track, lane) {
                    Strip::Armed
                } else if (self.editor.cc_at(source.0 as int, source.1 as int) is Some) == (
                self.editor.cc_at(track as int, lane as int) is Some) {
                    Strip::Ready
                } else {
                    Strip::Blocked
                }
            },
            None => Strip::Ready,
        }
    }

    /// With all the notes of a lane selected.
    pub open spec fn with_lane_selected(self, track: usize, lane: usize) -> StateView {
        self.with_many(
            indices_on(self.editor.notes, track, lane, self.editor.notes.len() as int),
        )
    }

    /// After a click on the strip of a lane. The first one selects the lane and
    /// makes it wait; the second one swaps it with the other lane, or on the
    /// same lane calls it off.
    pub open spec fn strip_clicked(self, track: usize, lane: usize) -> StateView {
        match self.lane_swap_source {
            None => StateView {
                lane_swap_source: Some((track, lane)),
                ..self.with_lane_selected(track, lane)
            },
            Some(source) => {
                if source == (track, lane) {
                    StateView { lane_swap_source: None, ..self }
                } else {
                    let recorded = self.recorded(EditGroup::Once);
                    let swapped = if self.editor.can_swap(source, (track, lane)) {
                        StateView {
                            editor: self.editor.swapped(source, (track, lane)),
                            dirty: true,
                            ..recorded
                        }
                    } else {
                        recorded
                    };
                    swapped.with_lane_selected(track, lane)
                }
            },
        }
    }
}

impl MidiEditor {
    /// Turns a switch of a track over.
    fn turn_switch(&mut self, track: usize, switch: Switch)
        requires
            track < old(self)@.tracks.len(),
        ensures
            final(self)@ == old(self)@.with_track_at(
                track as int,
                old(self)@.tracks[track as int].switched(switch),
            ),
    {
        let ghost before = self@.tracks[track as int];
        let mut info = self.tracks[track].duplicate();
        match switch {
            Switch::Mute => {
                info.muted = !info.muted;
            },
            Switch::Solo => {
                info.soloed = !info.soloed;
            },
            Switch::Swing => {
                info.swing = !info.swing;
            },
            Switch::Waltz => {
                info.waltz = !info.waltz;
            },
        }
        assert(info@ =~= before.switched(switch));
        self.set_track(track, info);
    }
}

impl EditorState {
    /// Turns a switch of a track over. What sounds changes, but that is no edit.
    pub fn press_switch(&mut self, track: usize, switch: Switch)
        requires
            track < old(self)@.editor.tracks.len(),
        ensures
            final(self)@ == (StateView {
                editor: old(self)@.editor.with_track_at(
                    track as int,
                    old(self)@.editor.tracks[track as int].switched(switch),
                ),
                dirty: true,
                ..old(self)@
            }),
    {
        self.editor.turn_switch(track, switch);
        self.dirty = true;
    }

    /// How the strip of a lane looks.
    pub fn strip(&self, track: usize, lane: usize) -> (strip: Strip)
        ensures
            strip == self@.strip_of(track, lane),
    {
        match self.lane_swap_source {
            Some((source_track, source_lane)) => {
                if source_track == track && source_lane == lane {
                    Strip::Armed
                } else if self.editor.lane_cc(source_track, source_lane).is_some()
                    == self.editor.lane_cc(track, lane).is_some() {
                    Strip::Ready
                } else {
                    Strip::Blocked
                }
            },
            None => Strip::Ready,
        }
    }

    /// A click on the strip of a lane.
    pub fn click_strip(&mut self, track: usize, lane: usize)
        ensures
            final(self)@ == old(self)@.strip_clicked(track, lane),
    {
        let ghost before = self@;
        match self.lane_swap_source {
            None => {
                self.select_lane(track, lane);
                self.lane_swap_source = Some((track, lane));
            },
            Some((source_track, source_lane)) => {
                if source_track == track && source_lane == lane {
                    self.lane_swap_source = None;
                } else {
                    self.history.record(EditGroup::Once);
                    if self.editor.swap_lanes((source_track, source_lane), (track, lane)) {
                        self.dirty = true;
                    }
                    self.select_lane(track, lane);
                    self.lane_swap_source = None;
                }
            },
        }
        assert(self@ =~= before.strip_clicked(track, lane));
    }

    /// Adds a track.
    pub fn press_add_track(&mut self)
        ensures
            final(self)@ == old(self)@.stepped_to(old(self)@.editor.with_new_track()),
    {
        self.history.record(EditGroup::Once);
        self.editor.add_track();
    }

    /// Removes the last track, where it can be removed.
    pub fn press_remove_track(&mut self)
        ensures
            final(self)@ == (if old(self)@.editor.can_remove_track() {
                old(self)@.stepped_to(old(self)@.editor.without_last_track())
            } else {
                old(self)@
            }),
    {
        if self.editor.can_remove_last_track() {
            self.history.record(EditGroup::Once);
            self.editor.remove_last_track();
        }
    }

    /// Adds a note lane to a track.
    pub fn press_add_lane(&mut self, track: usize)
        requires
            track < old(self)@.editor.tracks.len(),
            old(self)@.editor.tracks[track as int].lane_count() < usize::MAX,
            old(self)@.editor.tracks[track as int].velocity_lane matches Some(at) ==> at
                < usize::MAX,
            indices_fit(old(self)@.editor.notes),
        ensures
            final(self)@ == old(self)@.stepped_to(
                old(self)@.editor.with_new_lane(track as int),
            ),
    {
        self.history.record(EditGroup::Once);
        self.editor.add_lane(track);
    }

    /// Removes the last note lane of a track, where it can be removed. Control
    /// lanes stay.
    pub fn press_remove_lane(&mut self, track: usize)
        requires
            track < old(self)@.editor.tracks.len(),
        ensures
            final(self)@ == (if old(self)@.editor.can_remove_normal_lane(track as int) {
                old(self)@.stepped_to(old(self)@.editor.without_normal_lane(track as int))
            } else {
                old(self)@
            }),
    {
        if self.editor.can_remove_last_normal_lane(track) {
            self.history.record(EditGroup::Once);
            self.editor.remove_last_normal_lane(track);
        }
    }

    /// Adds a controller lane to a track, for the pedal, and opens the list of
    /// control lanes.
    pub fn press_add_cc_lane(&mut self, track: usize)
        requires
            track < old(self)@.editor.tracks.len(),
            old(self)@.editor.tracks[track as int].lane_count() < usize::MAX,
        ensures
            final(self)@ == (StateView {
                lane_config_track: Some(track),
                dirty: true,
                ..old(self)@.stepped_to(old(self)@.editor.with_cc_lane(track as int, PEDAL))
            }),
    {
        self.history.record(EditGroup::Once);
        self.editor.add_cc_lane(track, PEDAL);
        self.lane_config_track = Some(track);
        self.dirty = true;
    }

    /// Adds a velocity lane to a track, where it has none, and opens the list of
    /// control lanes.
    pub fn press_add_velocity_lane(&mut self, track: usize)
        requires
            track < old(self)@.editor.tracks.len(),
            old(self)@.editor.tracks[track as int].lane_count() < usize::MAX,
        ensures
            final(self)@ == (if old(self)@.editor.tracks[track as int].velocity_lane is None {
                StateView {
                    lane_config_track: Some(track),
                    dirty: true,
                    ..old(self)@.stepped_to(old(self)@.editor.with_velocity_lane(track as int))
                }
            } else {
                old(self)@
            }),
    {
        if self.editor.tracks[track].velocity_lane.is_none() {
            self.history.record(EditGroup::Once);
            self.editor.add_velocity_lane(track);
            self.lane_config_track = Some(track);
            self.dirty = true;
        }
    }

    /// Removes the last control lane of a track, where it can be removed.
    pub fn press_remove_control_lane(&mut self, track: usize)
        requires
            track < old(self)@.editor.tracks.len(),
        ensures
            final(self)@ == (if old(self)@.editor.can_remove_control_lane(track as int) {
                StateView {
                    dirty: true,
                    ..old(self)@.stepped_to(old(self)@.editor.without_control_lane(track as int))
                }
            } else {
                old(self)@
            }),
    {
        if self.editor.can_remove_last_control_lane(track) {
            self.history.record(EditGroup::Once);
            self.editor.remove_last_control_lane(track);
            self.dirty = true;
        }
    }

    /// Opens the list of control lanes of a track, or closes it.
    pub fn toggle_lane_config(&mut self, track: usize)
        ensures
            final(self)@ == (StateView {
                lane_config_track: if old(self)@.lane_config_track == Some(track) {
                    None
                } else {
                    Some(track)
                },
                ..old(self)@
            }),
    {
        let open: bool = match self.lane_config_track {
            Some(current) => current == track,
            None => false,
        };
        self.lane_config_track = if open {
            None
        } else {
            Some(track)
        };
    }

    /// The track whose control lanes are listed. The list of a track that is gone
    /// is closed.
    pub fn lane_config(&mut self) -> (track: Option<usize>)
        ensures
            track == (if old(self)@.lane_config_track matches Some(track) && track < old(
                self,
            )@.editor.tracks.len() {
                old(self)@.lane_config_track
            } else {
                None
            }),
            final(self)@ == (StateView { lane_config_track: track, ..old(self)@ }),
    {
        match self.lane_config_track {
            Some(track) => {
                if track >= self.editor.track_count() {
                    self.lane_config_track = None;
                }
            },
            None => {},
        }
        self.lane_config_track
    }

    /// Changes the number of a controller lane, up to 127.
    pub fn set_lane_number(&mut self, track: usize, lane: usize, number: u8)
        requires
            track < old(self)@.editor.tracks.len(),
            lane < usize::MAX,
        ensures
            final(self)@ == (StateView {
                dirty: true,
                ..old(self)@.stepped_to(
                    old(self)@.editor.with_track_at(
                        track as int,
                        old(self)@.editor.tracks[track as int].with_cc(
                            lane as int,
                            Some(
                                if number > 127 {
                                    127
                                } else {
                                    number
                                },
                            ),
                        ),
                    ),
                )
            }),
    {
        self.history.record(EditGroup::Once);
        let mut info = self.editor.tracks[track].duplicate();
        info.set_lane_cc(
            lane,
            Some(
                if number > 127 {
                    127
                } else {
                    number
                },
            ),
        );
        self.editor.set_track(track, info);
        self.dirty = true;
    }
}

/// A second click on the strip of the same lane calls the swap off and changes
/// nothing but that.
pub proof fn a_second_click_calls_the_swap_off(state: StateView, track: usize, lane: usize)
    requires
        state.lane_swap_source is None,
    ensures
        state.strip_clicked(track, lane).strip_clicked(track, lane)
            == state.with_lane_selected(track, lane),
        state.strip_clicked(track, lane).strip_of(track, lane) == Strip::Armed,
{
}

/// Clicks on the strips of two lanes swap them, and clicks on the same strips
/// swap them back.
pub proof fn two_clicks_swap_two_lanes(state: StateView, a: (usize, usize), b: (usize, usize))
    requires
        state.lane_swap_source is None,
        state.editor.can_swap(a, b),
    ensures
        ({
            let once = state.strip_clicked(a.0, a.1).strip_clicked(b.0, b.1);
            let twice = once.strip_clicked(a.0, a.1).strip_clicked(b.0, b.1);
            &&& once.editor == state.editor.swapped(a, b)
            &&& once.dirty
            &&& once.lane_swap_source is None
            &&& twice.editor == state.editor
        }),
{
    crate::swap::swapping_twice_changes_nothing(state.editor, a, b);
}

/// Turning a switch over twice leaves it as it was.
pub proof fn switching_twice_changes_nothing(track: TrackView, switch: Switch)
    ensures
        track.switched(switch).switched(switch) == track,
{
}

/// Each switch turns over what it is named for, and nothing else of the track.
pub proof fn a_switch_turns_what_it_is_for(track: TrackView, switch: Switch)
    ensures
        track.switched(switch).muted == (track.muted != (switch is Mute)),
        track.switched(switch).soloed == (track.soloed != (switch is Solo)),
        track.switched(switch).swing == (track.swing != (switch is Swing)),
        track.switched(switch).waltz == (track.waltz != (switch is Waltz)),
        track.switched(switch).name == track.name,
        track.switched(switch).lanes == track.lanes,
        track.switched(switch).lane_ccs == track.lane_ccs,
        track.switched(switch).velocity_lane == track.velocity_lane,
{
}

/// The first click on a strip selects the notes of its lane and makes the lane
/// wait; it changes no note. The second one, on another strip, swaps the two
/// lanes if they hold the same kind of thing, and changes nothing if they do
/// not. It selects the notes of the lane that was clicked last.
pub proof fn clicks_on_strips_select_and_swap(
    state: StateView,
    a: (usize, usize),
    b: (usize, usize),
    k: usize,
)
    requires
        state.lane_swap_source is None,
        state.editor.notes.len() <= usize::MAX,
        a != b,
    ensures
        ({
            let first = state.strip_clicked(a.0, a.1);
            let second = first.strip_clicked(b.0, b.1);
            &&& first.editor == state.editor
            &&& first.lane_swap_source == Some(a)
            &&& first.selection.contains(k) <==> k < state.editor.notes.len()
                && state.editor.notes[k as int].track == a.0 && state.editor.notes[k as int].lane
                == a.1
            &&& second.lane_swap_source is None
            &&& !state.editor.can_swap(a, b) ==> second.editor == state.editor && second.dirty
                == state.dirty
            &&& state.editor.can_swap(a, b) ==> second.editor == state.editor.swapped(a, b)
                && second.dirty
            &&& second.selection.contains(k) <==> k < second.editor.notes.len()
                && second.editor.notes[k as int].track == b.0
                && second.editor.notes[k as int].lane == b.1
        }),
{
    let count = state.editor.notes.len() as int;
    a_lane_selects_its_notes(state.editor.notes, a.0, a.1, count, k);
    let first = state.strip_clicked(a.0, a.1);
    let second = first.strip_clicked(b.0, b.1);
    a_lane_selects_its_notes(second.editor.notes, b.0, b.1, count, k);
}

/// While a lane waits, its own strip says so, strips of lanes that hold notes or
/// a controller as it does are ready, and others are not.
pub proof fn a_strip_says_what_a_click_would_do(state: StateView, track: usize, lane: usize)
    ensures
        state.lane_swap_source == Some((track, lane)) <==> state.strip_of(track, lane) is Armed,
        state.lane_swap_source is None ==> state.strip_of(track, lane) is Ready,
        state.lane_swap_source is Some && state.lane_swap_source != Some((track, lane)) ==> {
            let source = state.lane_swap_source->0;
            let there = state.editor.cc_at(source.0 as int, source.1 as int) is Some;
            let here = state.editor.cc_at(track as int, lane as int) is Some;
            state.strip_of(track, lane) is Ready <==> there == here
        },
{
}

} // verus!
