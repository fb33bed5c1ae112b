//! The sequence model: notes on lanes, lanes in tracks.

use crate::sorting::{Rank, Ranked};
use crate::text::{decimal, ordinal_text};
use crate::time::{plus, saturate};
use vstd::prelude::*;
use vstd::string::StringExecFns;

verus! {

/// The controller value that stands for "not pressed". Outside of its blocks a
/// controller lane holds this value.
pub const CC_RELEASE: u8 = 0;

/// How an octave is divided.
#[derive(Clone, Copy, PartialEq, Eq, Structural, Debug)]
pub enum ScaleMode {
    /// Twelve equal steps.
    Equal12,
    /// The Bohlen-Pierce scale, thirteen steps.
    BohlenPierce13,
}

impl ScaleMode {
    /// Steps in one octave.
    pub open spec fn steps(self) -> int {
        match self {
            ScaleMode::Equal12 => 12,
            ScaleMode::BohlenPierce13 => 13,
        }
    }

    /// Steps in one octave.
    pub fn steps_per_octave(self) -> (steps: i32)
        ensures
            steps == self.steps(),
            12 <= steps <= 13,
    {
        match self {
            ScaleMode::Equal12 => 12,
            ScaleMode::BohlenPierce13 => 13,
        }
    }

    /// The largest step number inside an octave.
    pub fn max_semitone(self) -> (semitone: i32)
        ensures
            semitone == self.steps() - 1,
            11 <= semitone <= 12,
    {
        self.steps_per_octave() - 1
    }

    /// The name shown to the user.
    pub open spec fn label_text(self) -> Seq<char> {
        match self {
            ScaleMode::Equal12 => "12平均律"@,
            ScaleMode::BohlenPierce13 => "ボーレン・ピアース"@,
        }
    }

    /// The name shown to the user.
    pub fn label(self) -> (text: &'static str)
        ensures
            text@ == self.label_text(),
            self is Equal12 ==> text@ == "12平均律"@,
            self is BohlenPierce13 ==> text@ == "ボーレン・ピアース"@,
    {
        match self {
            ScaleMode::Equal12 => "12平均律",
            ScaleMode::BohlenPierce13 => "ボーレン・ピアース",
        }
    }
}

/// A note, or a block on a controller or velocity lane.
#[derive(Clone, Copy, PartialEq, Eq, Structural, Debug)]
pub struct Note {
    /// Where it starts, in ticks.
    pub start_tick: i64,
    /// How long it lasts, in ticks.
    pub duration: i64,
    /// The step inside the octave.
    pub semitone: i32,
    pub octave: i32,
    /// Velocity, controller value, or the value at the start of a ramp.
    pub velocity: u8,
    /// The value at the end of a ramp; read on velocity lanes only.
    pub velocity_to: u8,
    pub track: usize,
    pub lane: usize,
}

/// The MIDI key of a step and an octave: step 0 of octave 4 is key 60.
pub open spec fn key_number(semitone: int, octave: int, scale: ScaleMode) -> int {
    60 + (octave - 4) * scale.steps() + semitone
}

impl Note {
    /// Where the note ends.
    pub open spec fn end(self) -> i64 {
        saturate(self.start_tick + self.duration)
    }

    /// Where the note ends.
    pub fn end_tick(&self) -> (end: i64)
        ensures
            end == self.end(),
    {
        plus(self.start_tick, self.duration)
    }

    /// The MIDI key, if there is one.
    pub open spec fn midi_key(self, scale: ScaleMode) -> Option<u8> {
        let key = key_number(self.semitone as int, self.octave as int, scale);
        if 0 <= key <= 127 {
            Some(key as u8)
        } else {
            None
        }
    }

    /// The MIDI key, or `None` where it would lie outside of 0 to 127.
    pub fn key(&self, scale: ScaleMode) -> (key: Option<u8>)
        ensures
            key == self.midi_key(scale),
    {
        let steps: i64 = scale.steps_per_octave() as i64;
        proof {
            let octaves = self.octave - 4;
            assert(octaves * steps <= 0x8000_0000 * 13 && octaves * steps >= -0x8000_0004 * 13)
                by (nonlinear_arith)
                requires
                    -0x8000_0004 <= octaves <= 0x8000_0000,
                    12 <= steps <= 13,
            ;
        }
        let key: i64 = 60 + (self.octave as i64 - 4) * steps + self.semitone as i64;
        if 0 <= key && key <= 127 {
            Some(key as u8)
        } else {
            None
        }
    }
}

/// Notes are listed by start, then by track and lane.
impl Rank for Note {
    open spec fn rank_le(self, other: Self) -> bool {
        ||| self.start_tick < other.start_tick
        ||| self.start_tick == other.start_tick && self.track < other.track
        ||| self.start_tick == other.start_tick && self.track == other.track && self.lane
            <= other.lane
    }

    proof fn rank_total(a: Self, b: Self) {
    }

    proof fn rank_transitive(a: Self, b: Self, c: Self) {
    }
}

impl Ranked for Note {
    fn not_after(&self, other: &Self) -> (yes: bool) {
        self.start_tick < other.start_tick || (self.start_tick == other.start_tick && self.track
            < other.track) || (self.start_tick == other.start_tick && self.track == other.track
            && self.lane <= other.lane)
    }
}

/// What a lane holds.
#[derive(Clone, Copy, PartialEq, Eq, Structural, Debug)]
pub enum LaneKind {
    /// Notes.
    Note,
    /// Blocks of the controller with this number.
    Cc(u8),
    /// Blocks that shape the velocity of the track's notes.
    Velocity,
}

/// A track: a name, its lanes and how it is played.
#[derive(Debug)]
pub struct TrackInfo {
    pub name: String,
    /// How many lanes it has.
    pub lanes: usize,
    pub muted: bool,
    pub soloed: bool,
    pub swing: bool,
    pub waltz: bool,
    /// The controller number of each lane; `None`, and lanes past the end, are
    /// not controller lanes.
    pub lane_ccs: Vec<Option<u8>>,
    /// The lane that holds velocity ramps, if there is one.
    pub velocity_lane: Option<usize>,
}

/// What a [`TrackInfo`] holds.
#[verifier::ext_equal]
pub struct TrackView {
    pub name: Seq<char>,
    pub lanes: usize,
    pub muted: bool,
    pub soloed: bool,
    pub swing: bool,
    pub waltz: bool,
    pub lane_ccs: Seq<Option<u8>>,
    pub velocity_lane: Option<usize>,
}

impl View for TrackInfo {
    type V = TrackView;

    open spec fn view(&self) -> TrackView {
        TrackView {
            name: self.name@,
            lanes: self.lanes,
            muted: self.muted,
            soloed: self.soloed,
            swing: self.swing,
            waltz: self.waltz,
            lane_ccs: self.lane_ccs@,
            velocity_lane: self.velocity_lane,
        }
    }
}

impl TrackView {
    /// A new track at position `index`: one lane, nothing switched on.
    pub open spec fn fresh(index: int) -> TrackView {
        TrackView {
            name: "トラック "@ + decimal((index + 1) as nat),
            lanes: 1,
            muted: false,
            soloed: false,
            swing: false,
            waltz: false,
            lane_ccs: Seq::empty(),
            velocity_lane: None,
        }
    }

    /// The number of lanes; a track always has one.
    pub open spec fn lane_count(self) -> int {
        if self.lanes == 0 {
            1
        } else {
            self.lanes as int
        }
    }

    /// The controller number of a lane.
    pub open spec fn cc_at(self, lane: int) -> Option<u8> {
        if 0 <= lane < self.lane_ccs.len() {
            self.lane_ccs[lane]
        } else {
            None
        }
    }

    /// What a lane holds.
    pub open spec fn kind_at(self, lane: int) -> LaneKind {
        if self.velocity_lane is Some && self.velocity_lane->0 == lane {
            LaneKind::Velocity
        } else {
            match self.cc_at(lane) {
                Some(number) => LaneKind::Cc(number),
                None => LaneKind::Note,
            }
        }
    }
}

impl TrackInfo {
    /// A new track at position `index`.
    pub fn new(index: usize) -> (info: TrackInfo)
        ensures
            info@ == TrackView::fresh(index as int),
    {
        let mut name = String::from_str("トラック ");
        name.append(ordinal_text(index).as_str());
        TrackInfo {
            name,
            lanes: 1,
            muted: false,
            soloed: false,
            swing: false,
            waltz: false,
            lane_ccs: Vec::new(),
            velocity_lane: None,
        }
    }

    /// A copy of the track.
    pub fn duplicate(&self) -> (copy: TrackInfo)
        ensures
            copy@ == self@,
    {
        let lane_ccs = self.lane_ccs.clone();
        proof {
            assert(lane_ccs@ =~= self.lane_ccs@);
        }
        TrackInfo {
            name: self.name.clone(),
            lanes: self.lanes,
            muted: self.muted,
            soloed: self.soloed,
            swing: self.swing,
            waltz: self.waltz,
            lane_ccs,
            velocity_lane: self.velocity_lane,
        }
    }

    /// The controller number of a lane, if it is a controller lane.
    pub fn lane_cc(&self, lane: usize) -> (number: Option<u8>)
        ensures
            number == self@.cc_at(lane as int),
    {
        if lane < self.lane_ccs.len() {
            self.lane_ccs[lane]
        } else {
            None
        }
    }
}

/// Whether two vectors hold the same notes.
pub fn same_notes(a: &Vec<Note>, b: &Vec<Note>) -> (yes: bool)
    ensures
        yes == (a@ == b@),
{
    if a.len() != b.len() {
        return false;
    }
    let mut at: usize = 0;
    while at < a.len()
        invariant
            at <= a@.len(),
            a@.len() == b@.len(),
            forall|i: int| 0 <= i < at ==> a@[i] == b@[i],
        decreases a@.len() - at,
    {
        if a[at] != b[at] {
            assert(a@[at as int] != b@[at as int]);
            return false;
        }
        at += 1;
    }
    assert(a@ =~= b@);
    true
}

fn same_numbers(a: &Vec<Option<u8>>, b: &Vec<Option<u8>>) -> (yes: bool)
    ensures
        yes == (a@ == b@),
{
    if a.len() != b.len() {
        return false;
    }
    let mut at: usize = 0;
    while at < a.len()
        invariant
            at <= a@.len(),
            a@.len() == b@.len(),
            forall|i: int| 0 <= i < at ==> a@[i] == b@[i],
        decreases a@.len() - at,
    {
        if a[at] != b[at] {
            assert(a@[at as int] != b@[at as int]);
            return false;
        }
        at += 1;
    }
    assert(a@ =~= b@);
    true
}

impl TrackInfo {
    /// Whether two tracks are the same in every respect.
    pub fn same(&self, other: &TrackInfo) -> (yes: bool)
        ensures
            yes == (self@ == other@),
    {
        self.name == other.name && self.lanes == other.lanes && self.muted == other.muted
            && self.soloed == other.soloed && self.swing == other.swing && self.waltz
            == other.waltz && self.velocity_lane == other.velocity_lane && same_numbers(
            &self.lane_ccs,
            &other.lane_ccs,
        )
    }
}

/// Whether two vectors hold the same tracks.
pub fn same_tracks(a: &Vec<TrackInfo>, b: &Vec<TrackInfo>) -> (yes: bool)
    ensures
        yes == (track_views(a@) == track_views(b@)),
{
    if a.len() != b.len() {
        assert(track_views(a@).len() != track_views(b@).len());
        return false;
    }
    let mut at: usize = 0;
    while at < a.len()
        invariant
            at <= a@.len(),
            a@.len() == b@.len(),
            forall|i: int| 0 <= i < at ==> (#[trigger] a@[i])@ == b@[i]@,
        decreases a@.len() - at,
    {
        if !a[at].same(&b[at]) {
            assert(track_views(a@)[at as int] != track_views(b@)[at as int]);
            return false;
        }
        at += 1;
    }
    assert(track_views(a@) =~= track_views(b@));
    true
}

/// A sequence.
#[derive(Debug)]
pub struct MidiEditor {
    pub notes: Vec<Note>,
    pub tracks: Vec<TrackInfo>,
    /// Beats per minute.
    pub tempo: u32,
    /// The upper number of the time signature.
    pub beats: u32,
    /// The lower number of the time signature.
    pub beat_type: u32,
    pub scale: ScaleMode,
    /// How deep the swing is: the bits of a single-precision number, carried
    /// along and not interpreted.
    pub swing_peak_ratio: u32,
    /// How uneven the beats are: the bits of a single-precision number, carried
    /// along and not interpreted.
    pub waltz_ratio: u32,
}

/// What a [`MidiEditor`] holds.
#[verifier::ext_equal]
pub struct EditorView {
    pub notes: Seq<Note>,
    pub tracks: Seq<TrackView>,
    pub tempo: u32,
    pub beats: u32,
    pub beat_type: u32,
    pub scale: ScaleMode,
    pub swing_peak_ratio: u32,
    pub waltz_ratio: u32,
}

/// The views of a sequence of tracks.
pub open spec fn track_views(tracks: Seq<TrackInfo>) -> Seq<TrackView> {
    Seq::new(tracks.len(), |i: int| tracks[i]@)
}

impl View for MidiEditor {
    type V = EditorView;

    open spec fn view(&self) -> EditorView {
        EditorView {
            notes: self.notes@,
            tracks: track_views(self.tracks@),
            tempo: self.tempo,
            beats: self.beats,
            beat_type: self.beat_type,
            scale: self.scale,
            swing_peak_ratio: self.swing_peak_ratio,
            waltz_ratio: self.waltz_ratio,
        }
    }
}

impl EditorView {
    /// The number of lanes of a track.
    pub open spec fn lane_count(self, track: int) -> int {
        if 0 <= track < self.tracks.len() {
            self.tracks[track].lane_count()
        } else {
            1
        }
    }

    /// The controller number of a lane.
    pub open spec fn cc_at(self, track: int, lane: int) -> Option<u8> {
        if 0 <= track < self.tracks.len() {
            self.tracks[track].cc_at(lane)
        } else {
            None
        }
    }

    /// What a lane holds.
    pub open spec fn kind_at(self, track: int, lane: int) -> LaneKind {
        if 0 <= track < self.tracks.len() {
            self.tracks[track].kind_at(lane)
        } else {
            LaneKind::Note
        }
    }
}

impl MidiEditor {
    /// The number of lanes of a track; at least one.
    pub fn lanes(&self, track: usize) -> (count: usize)
        ensures
            count == self@.lane_count(track as int),
    {
        if track < self.tracks.len() {
            let lanes: usize = self.tracks[track].lanes;
            if lanes == 0 {
                1
            } else {
                lanes
            }
        } else {
            1
        }
    }

    /// The controller number of a lane, if it is a controller lane.
    pub fn lane_cc(&self, track: usize, lane: usize) -> (number: Option<u8>)
        ensures
            number == self@.cc_at(track as int, lane as int),
    {
        if track < self.tracks.len() {
            self.tracks[track].lane_cc(lane)
        } else {
            None
        }
    }

    /// What a lane holds.
    pub fn lane_kind(&self, track: usize, lane: usize) -> (kind: LaneKind)
        ensures
            kind == self@.kind_at(track as int, lane as int),
    {
        if track >= self.tracks.len() {
            return LaneKind::Note;
        }
        let info = &self.tracks[track];
        let ramp: bool = match info.velocity_lane {
            Some(at) => at == lane,
            None => false,
        };
        if ramp {
            LaneKind::Velocity
        } else {
            match info.lane_cc(lane) {
                Some(number) => LaneKind::Cc(number),
                None => LaneKind::Note,
            }
        }
    }
}

/// What is said of a sequence is what stands in it.
pub proof fn a_sequence_is_seen_as_it_is(editor: MidiEditor, track: int)
    ensures
        editor@.notes == editor.notes@,
        editor@.tracks.len() == editor.tracks@.len(),
        editor@.tempo == editor.tempo,
        editor@.beats == editor.beats,
        editor@.beat_type == editor.beat_type,
        editor@.scale == editor.scale,
        editor@.swing_peak_ratio == editor.swing_peak_ratio,
        editor@.waltz_ratio == editor.waltz_ratio,
        0 <= track < editor.tracks@.len() ==> {
            let seen = editor@.tracks[track];
            let info = editor.tracks@[track];
            &&& seen.name == info.name@
            &&& seen.lanes == info.lanes
            &&& seen.muted == info.muted
            &&& seen.soloed == info.soloed
            &&& seen.swing == info.swing
            &&& seen.waltz == info.waltz
            &&& seen.lane_ccs == info.lane_ccs@
            &&& seen.velocity_lane == info.velocity_lane
        },
{
}

/// A new track has one lane for notes, and nothing is switched on.
pub proof fn a_new_track_is_plain(index: int, lane: int)
    ensures
        TrackView::fresh(index).name == "トラック "@ + decimal((index + 1) as nat),
        TrackView::fresh(index).lane_count() == 1,
        TrackView::fresh(index).kind_at(lane) == LaneKind::Note,
        !TrackView::fresh(index).muted,
        !TrackView::fresh(index).soloed,
        !TrackView::fresh(index).swing,
        !TrackView::fresh(index).waltz,
{
}

/// A lane shapes the velocity if it is the track's velocity lane. Any other one
/// is a controller's if it has a number, and else holds notes.
pub proof fn a_lane_holds_what_it_says(editor: MidiEditor, track: int, lane: int)
    requires
        0 <= track < editor.tracks@.len(),
        0 <= lane <= usize::MAX,
    ensures
        ({
            let info = editor.tracks@[track];
            let shapes = info.velocity_lane == Some(lane as usize);
            let numbered = lane < info.lane_ccs@.len() && info.lane_ccs@[lane] is Some;
            let kind = editor@.kind_at(track, lane);
            &&& shapes <==> kind is Velocity
            &&& !shapes && numbered <==> kind is Cc
            &&& kind is Cc ==> info.lane_ccs@[lane] == Some(kind->Cc_0)
            &&& !shapes && !numbered <==> kind is Note
            &&& numbered ==> editor@.cc_at(track, lane) == info.lane_ccs@[lane]
            &&& !numbered ==> editor@.cc_at(track, lane) is None
            &&& editor@.lane_count(track) == if info.lanes > 0 {
                info.lanes as int
            } else {
                1
            }
        }),
{
}

/// The first step of octave 4 is middle C, every step is one key higher than the
/// one before, and an octave spans twelve keys, or thirteen in the scale of
/// Bohlen and Pierce. Keys that a keyboard does not have are none.
pub proof fn keys_go_up_by_steps_and_octaves(note: Note, scale: ScaleMode, steps: int, octaves: int)
    requires
        note.semitone as int == steps,
        note.octave as int == 4 + octaves,
    ensures
        scale is Equal12 && 0 <= 60 + 12 * octaves + steps <= 127 ==> note.midi_key(scale) == Some(
            (60 + 12 * octaves + steps) as u8,
        ),
        scale is BohlenPierce13 && 0 <= 60 + 13 * octaves + steps <= 127 ==> note.midi_key(scale)
            == Some((60 + 13 * octaves + steps) as u8),
        scale is Equal12 && !(0 <= 60 + 12 * octaves + steps <= 127) ==> note.midi_key(
            scale,
        ) is None,
        scale is BohlenPierce13 && !(0 <= 60 + 13 * octaves + steps <= 127) ==> note.midi_key(
            scale,
        ) is None,
{
}

/// A note ends as long after its start as it lasts.
pub proof fn a_note_ends_after_its_length(note: Note)
    requires
        i64::MIN <= note.start_tick + note.duration <= i64::MAX,
    ensures
        note.end() - note.start_tick == note.duration,
{
}

/// Notes that start earlier come first; of those that start together, the ones
/// of earlier tracks, and then of earlier lanes.
pub proof fn earlier_notes_come_first(a: Note, b: Note)
    ensures
        a.start_tick < b.start_tick ==> a.rank_le(b) && !b.rank_le(a),
        a.start_tick == b.start_tick && a.track < b.track ==> a.rank_le(b) && !b.rank_le(a),
        a.start_tick == b.start_tick && a.track == b.track && a.lane < b.lane ==> a.rank_le(b)
            && !b.rank_le(a),
        a.start_tick == b.start_tick && a.track == b.track && a.lane == b.lane ==> a.rank_le(b)
            && b.rank_le(a),
{
}

} // verus!
