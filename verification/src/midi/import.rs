//! Reading a MIDI file as a sequence.

use crate::midi::names::{cell_of_name_bytes, parse_track_name};
use crate::sequencer::{Note, ScaleMode};
use crate::smf::{
    event_views, mended, read_file, smf_read, tracks_view, SmfEvent, SmfEventView, SmfFile,
    SmfKind, SmfKindView, SmfView,
};
use crate::sorting::{
    is_ascending, sort_stable, stable_sort_orders, stable_sorted, Rank, Ranked,
};
use crate::time::{round_quotient, rounded_quotient, TICKS_PER_QUARTER};
use std::collections::HashMap;
use vstd::prelude::*;
use vstd::string::StringExecFns;

verus! {

broadcast use vstd::std_specs::hash::group_hash_axioms;

/// Controllers from this number on are channel mode messages, which are not
/// written by hand and are skipped.
pub const FIRST_CHANNEL_MODE_CC: u8 = 120;

/// What was read from a file.
#[derive(Debug)]
pub struct Imported {
    pub notes: Vec<Note>,
    /// Beats per minute, if the file tells.
    pub tempo: Option<u32>,
    /// The time signature, if the file tells.
    pub time_signature: Option<(u32, u32)>,
    /// The lanes that are controller lanes: track, lane and controller number.
    /// Notes on them are controller blocks.
    pub lane_ccs: Vec<(usize, usize, u8)>,
}

/// What an [`Imported`] holds.
#[verifier::ext_equal]
pub struct ImportedView {
    pub notes: Seq<Note>,
    pub tempo: Option<u32>,
    pub time_signature: Option<(u32, u32)>,
    pub lane_ccs: Seq<(usize, usize, u8)>,
}

impl View for Imported {
    type V = ImportedView;

    open spec fn view(&self) -> ImportedView {
        ImportedView {
            notes: self.notes@,
            tempo: self.tempo,
            time_signature: self.time_signature,
            lane_ccs: self.lane_ccs@,
        }
    }
}

/// A note of a file, in ticks of the file.
#[derive(Clone, Copy, PartialEq, Eq, Structural, Debug)]
pub struct RawNote {
    pub start: u32,
    pub end: u64,
    pub key: u8,
    pub velocity: u8,
}

impl Rank for RawNote {
    open spec fn rank_le(self, other: Self) -> bool {
        ||| self.start < other.start
        ||| self.start == other.start && self.end < other.end
        ||| self.start == other.start && self.end == other.end && self.key <= other.key
    }

    proof fn rank_total(a: Self, b: Self) {
    }

    proof fn rank_transitive(a: Self, b: Self, c: Self) {
    }
}

impl Ranked for RawNote {
    fn not_after(&self, other: &Self) -> (yes: bool) {
        self.start < other.start || (self.start == other.start && self.end < other.end) || (
        self.start == other.start && self.end == other.end && self.key <= other.key)
    }
}

/// A controller set to a value, in ticks of the file.
#[derive(Clone, Copy, PartialEq, Eq, Structural, Debug)]
pub struct RawCc {
    pub tick: u32,
    pub number: u8,
    pub value: u8,
}

/// The messages that are read.
#[derive(Clone, Copy, PartialEq, Eq, Structural, Debug)]
pub enum Message {
    On { channel: u8, key: u8, velocity: u8 },
    Off { channel: u8, key: u8 },
    Control { number: u8, value: u8 },
    Other,
}

/// The message that bytes stand for. A note on without velocity is a note off.
pub open spec fn message_of(bytes: Seq<u8>) -> Message {
    if bytes.len() < 3 {
        Message::Other
    } else if 0x90 <= bytes[0] < 0xA0 && bytes[2] > 0 {
        Message::On { channel: (bytes[0] - 0x90) as u8, key: bytes[1], velocity: bytes[2] }
    } else if 0x90 <= bytes[0] < 0xA0 {
        Message::Off { channel: (bytes[0] - 0x90) as u8, key: bytes[1] }
    } else if 0x80 <= bytes[0] < 0x90 {
        Message::Off { channel: (bytes[0] - 0x80) as u8, key: bytes[1] }
    } else if 0xB0 <= bytes[0] < 0xC0 && bytes[1] < FIRST_CHANNEL_MODE_CC {
        Message::Control { number: bytes[1], value: bytes[2] }
    } else {
        Message::Other
    }
}

/// The number under which a sounding note is filed.
pub open spec fn sounding_key(channel: u8, key: u8) -> u32 {
    (channel * 256 + key) as u32
}

/// What has been read of a track.
#[verifier::ext_equal]
pub struct ScanView {
    /// The current time.
    pub at: u32,
    /// Start and velocity of the notes that sound, by channel and key.
    pub sounding: Map<u32, (u32, u8)>,
    /// The notes that have ended.
    pub notes: Seq<RawNote>,
    pub ccs: Seq<RawCc>,
    /// The lane that the name of the track stands for.
    pub name: Option<(usize, usize)>,
    pub tempo: Option<u32>,
    pub signature: Option<(u32, u32)>,
}

impl ScanView {
    /// Nothing read yet.
    pub open spec fn start() -> ScanView {
        ScanView {
            at: 0,
            sounding: Map::empty(),
            notes: Seq::empty(),
            ccs: Seq::empty(),
            name: None,
            tempo: None,
            signature: None,
        }
    }

    /// After a message at the current time.
    pub open spec fn after_message(self, message: Message) -> ScanView {
        match message {
            Message::On { channel, key, velocity } => ScanView {
                sounding: self.sounding.insert(
                    sounding_key(channel, key),
                    (self.at, velocity),
                ),
                ..self
            },
            Message::Off { channel, key } => {
                let filed = sounding_key(channel, key);
                if self.sounding.dom().contains(filed) {
                    let (start, velocity) = self.sounding[filed];
                    ScanView {
                        sounding: self.sounding.remove(filed),
                        notes: self.notes.push(
                            RawNote { start, end: later(self.at as u64, start), key, velocity },
                        ),
                        ..self
                    }
                } else {
                    self
                }
            },
            Message::Control { number, value } => ScanView {
                ccs: self.ccs.push(RawCc { tick: self.at, number, value }),
                ..self
            },
            Message::Other => self,
        }
    }

    /// After one more event.
    pub open spec fn after(self, event: SmfEventView) -> ScanView {
        let moved = ScanView { at: sum_held(self.at, event.delta), ..self };
        match event.kind {
            SmfKindView::Channel(bytes) => moved.after_message(message_of(bytes)),
            SmfKindView::Tempo(us) => ScanView {
                tempo: match moved.tempo {
                    Some(tempo) => Some(tempo),
                    None => Some(tempo_of(us)),
                },
                ..moved
            },
            SmfKindView::TimeSignature(numerator, power, _, _) => ScanView {
                signature: match moved.signature {
                    Some(signature) => Some(signature),
                    None => Some(signature_of(numerator, power)),
                },
                ..moved
            },
            SmfKindView::TrackName(bytes) => ScanView {
                name: match moved.name {
                    Some(cell) => Some(cell),
                    None => cell_of_name_bytes(bytes),
                },
                ..moved
            },
            SmfKindView::EndOfTrack => moved,
        }
    }
}

/// The sum of two times, held to 32 bits.
pub open spec fn sum_held(a: u32, b: u32) -> u32 {
    if a + b > u32::MAX {
        u32::MAX
    } else {
        (a + b) as u32
    }
}

/// `end`, or the tick behind `start` where that is later.
pub open spec fn later(end: u64, start: u32) -> u64 {
    if end > start {
        end
    } else {
        (start + 1) as u64
    }
}

/// Beats per minute of a quarter note's length in microseconds, held to 20 to
/// 300.
pub open spec fn tempo_of(us: u32) -> u32 {
    let tempo = 60_000_000u32 / if us == 0 {
        1
    } else {
        us
    };
    if tempo < 20 {
        20
    } else if tempo > 300 {
        300
    } else {
        tempo
    }
}

/// The time signature with the given numerator and power of two.
pub open spec fn signature_of(numerator: u8, power: u8) -> (u32, u32) {
    (
        if numerator == 0 {
            1
        } else {
            numerator as u32
        },
        if power == 0 {
            1
        } else if power == 1 {
            2
        } else if power == 2 {
            4
        } else if power == 3 {
            8
        } else if power == 4 {
            16
        } else {
            32
        },
    )
}

/// What is read of a whole track.
pub open spec fn scanned(events: Seq<SmfEventView>) -> ScanView
    decreases events.len(),
{
    if events.len() == 0 {
        ScanView::start()
    } else {
        scanned(events.drop_last()).after(events.last())
    }
}

/// The times and values of one controller.
pub open spec fn events_of(ccs: Seq<RawCc>, number: u8) -> Seq<(u32, u8)>
    decreases ccs.len(),
{
    if ccs.len() == 0 {
        Seq::empty()
    } else {
        let before = events_of(ccs.drop_last(), number);
        if ccs.last().number == number {
            before.push((ccs.last().tick, ccs.last().value))
        } else {
            before
        }
    }
}

/// Whether a controller ever changes its value.
pub open spec fn changes(events: Seq<(u32, u8)>) -> bool {
    exists|i: int| 0 <= i < events.len() && (#[trigger] events[i]).1 != events[0].1
}

/// The events of one controller.
#[derive(Debug)]
pub struct CcGroup {
    pub number: u8,
    pub events: Vec<(u32, u8)>,
}

/// What a [`CcGroup`] holds.
#[verifier::ext_equal]
pub struct GroupView {
    pub number: u8,
    pub events: Seq<(u32, u8)>,
}

impl View for CcGroup {
    type V = GroupView;

    open spec fn view(&self) -> GroupView {
        GroupView { number: self.number, events: self.events@ }
    }
}

/// The views of a sequence of groups.
pub open spec fn group_views(groups: Seq<CcGroup>) -> Seq<GroupView> {
    Seq::new(groups.len(), |i: int| groups[i]@)
}

/// The controllers below `limit` that change their value, in order of number.
pub open spec fn changing_groups(ccs: Seq<RawCc>, limit: int) -> Seq<GroupView>
    decreases limit,
{
    if limit <= 0 {
        Seq::empty()
    } else {
        let before = changing_groups(ccs, limit - 1);
        let events = events_of(ccs, (limit - 1) as u8);
        if changes(events) {
            before.push(GroupView { number: (limit - 1) as u8, events })
        } else {
            before
        }
    }
}

/// What was read of a track, ready to be laid out.
#[derive(Debug)]
pub struct ParsedTrack {
    pub name: Option<(usize, usize)>,
    pub notes: Vec<RawNote>,
    pub groups: Vec<CcGroup>,
}

/// What a [`ParsedTrack`] holds.
#[verifier::ext_equal]
pub struct ParsedView {
    pub name: Option<(usize, usize)>,
    pub notes: Seq<RawNote>,
    pub groups: Seq<GroupView>,
}

impl View for ParsedTrack {
    type V = ParsedView;

    open spec fn view(&self) -> ParsedView {
        ParsedView { name: self.name, notes: self.notes@, groups: group_views(self.groups@) }
    }
}

/// The views of a sequence of tracks.
pub open spec fn parsed_views(tracks: Seq<ParsedTrack>) -> Seq<ParsedView> {
    Seq::new(tracks.len(), |i: int| tracks[i]@)
}

/// What is read of a track, ready to be laid out.
pub open spec fn parsed(events: Seq<SmfEventView>) -> ParsedView {
    let scan = scanned(events);
    ParsedView {
        name: scan.name,
        notes: stable_sorted(scan.notes),
        groups: changing_groups(scan.ccs, FIRST_CHANNEL_MODE_CC as int),
    }
}

/// Whether a track has anything to lay out: a note, a controller or the name
/// of a lane.
pub open spec fn is_kept(track: ParsedView) -> bool {
    track.notes.len() > 0 || track.groups.len() > 0 || track.name is Some
}

/// The tracks of a file that have something to lay out.
pub open spec fn kept_tracks(tracks: Seq<Seq<SmfEventView>>) -> Seq<ParsedView>
    decreases tracks.len(),
{
    if tracks.len() == 0 {
        Seq::empty()
    } else {
        let before = kept_tracks(tracks.drop_last());
        let track = parsed(tracks.last());
        if is_kept(track) {
            before.push(track)
        } else {
            before
        }
    }
}

/// The first tempo of a file.
pub open spec fn first_tempo(tracks: Seq<Seq<SmfEventView>>) -> Option<u32>
    decreases tracks.len(),
{
    if tracks.len() == 0 {
        None
    } else {
        match first_tempo(tracks.drop_last()) {
            Some(tempo) => Some(tempo),
            None => scanned(tracks.last()).tempo,
        }
    }
}

/// The first time signature of a file.
pub open spec fn first_signature(tracks: Seq<Seq<SmfEventView>>) -> Option<(u32, u32)>
    decreases tracks.len(),
{
    if tracks.len() == 0 {
        None
    } else {
        match first_signature(tracks.drop_last()) {
            Some(signature) => Some(signature),
            None => scanned(tracks.last()).signature,
        }
    }
}

/// The larger of two times.
pub open spec fn latest(a: u64, b: u64) -> u64 {
    if a < b {
        b
    } else {
        a
    }
}

/// The last end of a note.
pub open spec fn last_note_end(notes: Seq<RawNote>) -> u64
    decreases notes.len(),
{
    if notes.len() == 0 {
        0
    } else {
        latest(last_note_end(notes.drop_last()), notes.last().end)
    }
}

/// The last time of a controller event.
pub open spec fn last_event_time(events: Seq<(u32, u8)>) -> u64
    decreases events.len(),
{
    if events.len() == 0 {
        0
    } else {
        latest(last_event_time(events.drop_last()), events.last().0 as u64)
    }
}

/// The last time of an event of a group.
pub open spec fn last_group_time(groups: Seq<GroupView>) -> u64
    decreases groups.len(),
{
    if groups.len() == 0 {
        0
    } else {
        latest(last_group_time(groups.drop_last()), last_event_time(groups.last().events))
    }
}

/// Where everything has ended.
pub open spec fn file_end(tracks: Seq<ParsedView>) -> u64
    decreases tracks.len(),
{
    if tracks.len() == 0 {
        0
    } else {
        latest(
            file_end(tracks.drop_last()),
            latest(last_note_end(tracks.last().notes), last_group_time(tracks.last().groups)),
        )
    }
}

/// A note that was put on a lane, and where it ends in the file.
#[derive(Clone, Copy, PartialEq, Eq, Structural, Debug)]
pub struct LaneEnd {
    pub track: usize,
    pub lane: usize,
    pub end: u64,
}

/// The index behind `index`; the largest index has none and stays.
pub open spec fn next_index(index: usize) -> usize {
    if index == usize::MAX {
        index
    } else {
        (index + 1) as usize
    }
}

/// Where the note that was last put on a lane ends.
pub open spec fn last_end(log: Seq<LaneEnd>, track: usize, lane: usize) -> Option<u64>
    decreases log.len(),
{
    if log.len() == 0 {
        None
    } else if log.last().track == track && log.last().lane == lane {
        Some(log.last().end)
    } else {
        last_end(log.drop_last(), track, lane)
    }
}

/// Whether the note that was last put on a lane still sounds at `start`; an
/// overlap of a ten-thousandth of a quarter note or less does not count.
pub open spec fn is_busy(
    log: Seq<LaneEnd>,
    track: usize,
    lane: usize,
    start: u32,
    resolution: u16,
) -> bool {
    match last_end(log, track, lane) {
        Some(end) => (end - start) * 10000 > resolution,
        None => false,
    }
}

/// The first lane, from `lane` on, that is not busy at `start`.
pub open spec fn free_lane(
    log: Seq<LaneEnd>,
    track: usize,
    lane: usize,
    start: u32,
    resolution: u16,
) -> usize
    decreases usize::MAX - lane,
{
    if lane == usize::MAX || !is_busy(log, track, lane, start, resolution) {
        lane
    } else {
        free_lane(log, track, (lane + 1) as usize, start, resolution)
    }
}

/// The number of lanes of a track up to the last one that something was put
/// on.
pub open spec fn used_lanes(log: Seq<LaneEnd>, track: usize) -> usize
    decreases log.len(),
{
    if log.len() == 0 {
        0
    } else {
        let before = used_lanes(log.drop_last(), track);
        if log.last().track == track && next_index(log.last().lane) > before {
            next_index(log.last().lane)
        } else {
            before
        }
    }
}

/// A length or position of a file in ticks of the library, to the nearest.
pub open spec fn library_ticks(ticks: int, resolution: u16) -> int {
    rounded_quotient(ticks * TICKS_PER_QUARTER, resolution as int)
}

/// A velocity held to 1 to 127.
pub open spec fn audible(velocity: u8) -> u8 {
    if velocity < 1 {
        1
    } else if velocity > 127 {
        127
    } else {
        velocity
    }
}

/// A note of the file as a note of the library. Key 60 is step 0 of octave 4.
pub open spec fn placed_note(
    raw: RawNote,
    track: usize,
    lane: usize,
    resolution: u16,
    scale: ScaleMode,
) -> Note {
    Note {
        start_tick: library_ticks(raw.start as int, resolution) as i64,
        duration: library_ticks(raw.end - raw.start, resolution) as i64,
        semitone: ((raw.key - 60) % scale.steps()) as i32,
        octave: (4 + (raw.key - 60) / scale.steps()) as i32,
        velocity: audible(raw.velocity),
        velocity_to: audible(raw.velocity),
        track,
        lane,
    }
}

/// How far the tracks of a file have been laid out.
#[verifier::ext_equal]
pub struct LayoutView {
    /// The track that the next file track without a lane's name goes to.
    pub next_track: usize,
    pub log: Seq<LaneEnd>,
    pub notes: Seq<Note>,
    pub pending: Seq<PendingView>,
}

/// Controllers that wait until the lanes of the notes are known.
#[derive(Debug)]
pub struct Pending {
    pub track: usize,
    /// The lane that the first controller goes to, if the name tells.
    pub lane: Option<usize>,
    pub groups: Vec<CcGroup>,
}

/// What a [`Pending`] holds.
#[verifier::ext_equal]
pub struct PendingView {
    pub track: usize,
    pub lane: Option<usize>,
    pub groups: Seq<GroupView>,
}

impl View for Pending {
    type V = PendingView;

    open spec fn view(&self) -> PendingView {
        PendingView { track: self.track, lane: self.lane, groups: group_views(self.groups@) }
    }
}

/// The views of a sequence of waiting controllers.
pub open spec fn pending_views(pending: Seq<Pending>) -> Seq<PendingView> {
    Seq::new(pending.len(), |i: int| pending[i]@)
}

impl LayoutView {
    /// Nothing laid out yet.
    pub open spec fn start() -> LayoutView {
        LayoutView {
            next_track: 0,
            log: Seq::empty(),
            notes: Seq::empty(),
            pending: Seq::empty(),
        }
    }

    /// After a note went to the given lane, or, where the lane is free to
    /// choose, to the first one that is not busy.
    pub open spec fn with_note(
        self,
        raw: RawNote,
        track: usize,
        lane: usize,
        fixed: bool,
        resolution: u16,
        scale: ScaleMode,
    ) -> LayoutView {
        let chosen = if fixed {
            lane
        } else {
            free_lane(self.log, track, lane, raw.start, resolution)
        };
        LayoutView {
            log: self.log.push(LaneEnd { track, lane: chosen, end: raw.end }),
            notes: self.notes.push(placed_note(raw, track, chosen, resolution, scale)),
            ..self
        }
    }

    /// After all the notes of a file track.
    pub open spec fn with_notes(
        self,
        raw: Seq<RawNote>,
        track: usize,
        lane: usize,
        fixed: bool,
        resolution: u16,
        scale: ScaleMode,
    ) -> LayoutView
        decreases raw.len(),
    {
        if raw.len() == 0 {
            self
        } else {
            self.with_notes(raw.drop_last(), track, lane, fixed, resolution, scale).with_note(
                raw.last(),
                track,
                lane,
                fixed,
                resolution,
                scale,
            )
        }
    }

    /// After a lane counts as used, with or without notes.
    pub open spec fn with_lane(self, track: usize, lane: usize) -> LayoutView {
        if last_end(self.log, track, lane) is Some {
            self
        } else {
            LayoutView { log: self.log.push(LaneEnd { track, lane, end: 0 }), ..self }
        }
    }

    /// After one file track. A track with a lane's name goes to that lane as
    /// it is; any other gets a track of its own.
    pub open spec fn with_track(
        self,
        parsed: ParsedView,
        resolution: u16,
        scale: ScaleMode,
    ) -> LayoutView {
        let fixed = parsed.name is Some;
        let (track, lane) = match parsed.name {
            Some(cell) => cell,
            None => (self.next_track, 0usize),
        };
        let base = if fixed {
            self
        } else {
            LayoutView { next_track: next_index(self.next_track), ..self }
        };
        let laid = base.with_notes(parsed.notes, track, lane, fixed, resolution, scale).with_lane(
            track,
            lane,
        );
        LayoutView {
            next_track: if laid.next_track < next_index(track) {
                next_index(track)
            } else {
                laid.next_track
            },
            pending: if parsed.groups.len() > 0 {
                laid.pending.push(
                    PendingView {
                        track,
                        lane: if fixed && parsed.notes.len() == 0 {
                            Some(lane)
                        } else {
                            None
                        },
                        groups: parsed.groups,
                    },
                )
            } else {
                laid.pending
            },
            ..laid
        }
    }
}

/// The layout of all the tracks of a file.
pub open spec fn laid_out(tracks: Seq<ParsedView>, resolution: u16, scale: ScaleMode) -> LayoutView
    decreases tracks.len(),
{
    if tracks.len() == 0 {
        LayoutView::start()
    } else {
        laid_out(tracks.drop_last(), resolution, scale).with_track(
            tracks.last(),
            resolution,
            scale,
        )
    }
}

/// The note that was last put on a lane where there is one.
proof fn lemma_last_end(log: Seq<LaneEnd>, track: usize, lane: usize, at: int) -> (last: int)
    requires
        0 <= at < log.len(),
        log[at].track == track,
        log[at].lane == lane,
    ensures
        at <= last < log.len(),
        log[last].track == track,
        log[last].lane == lane,
        last_end(log, track, lane) == Some(log[last].end),
    decreases log.len(),
{
    let count = log.len() as int;
    if log[count - 1].track == track && log[count - 1].lane == lane {
        count - 1
    } else {
        lemma_last_end(log.drop_last(), track, lane, at)
    }
}

/// A lane that is free to choose is not busy.
proof fn lemma_free_lane(
    log: Seq<LaneEnd>,
    track: usize,
    lane: usize,
    start: u32,
    resolution: u16,
)
    ensures
        ({
            let free = free_lane(log, track, lane, start, resolution);
            &&& lane <= free
            &&& free < usize::MAX ==> !is_busy(log, track, free, start, resolution)
        }),
    decreases usize::MAX - lane,
{
    if lane < usize::MAX && is_busy(log, track, lane, start, resolution) {
        lemma_free_lane(log, track, (lane + 1) as usize, start, resolution);
    }
}

/// The notes of a file track are put down one by one.
proof fn lemma_put_down(
    base: LayoutView,
    raw: Seq<RawNote>,
    track: usize,
    lane: usize,
    resolution: u16,
    scale: ScaleMode,
)
    ensures
        ({
            let after = base.with_notes(raw, track, lane, false, resolution, scale);
            &&& after.notes.len() == base.notes.len() + raw.len()
            &&& after.log.len() == base.log.len() + raw.len()
            &&& forall|k: int|
                0 <= k < raw.len() ==> (#[trigger] after.log[base.log.len() + k]) == (LaneEnd {
                    track,
                    lane: after.notes[base.notes.len() + k].lane,
                    end: raw[k].end,
                })
        }),
    decreases raw.len(),
{
    if raw.len() > 0 {
        let shorter = raw.drop_last();
        lemma_put_down(base, shorter, track, lane, resolution, scale);
        let before = base.with_notes(shorter, track, lane, false, resolution, scale);
        let after = base.with_notes(raw, track, lane, false, resolution, scale);
        assert forall|k: int| 0 <= k < raw.len() implies (#[trigger] after.log[base.log.len() + k])
            == (LaneEnd {
            track,
            lane: after.notes[base.notes.len() + k].lane,
            end: raw[k].end,
        }) by {
            if k < shorter.len() {
                assert(after.log[base.log.len() + k] == before.log[base.log.len() + k]);
                assert(after.notes[base.notes.len() + k] == before.notes[base.notes.len() + k]);
            }
        }
    }
}

/// The notes of a file track without a lane's name are spread over lanes: of two
/// on the same lane, the earlier one has ended where the later one starts, but for
/// an overlap of a ten-thousandth of a quarter note or less.
pub proof fn chords_are_spread_over_lanes(
    base: LayoutView,
    raw: Seq<RawNote>,
    track: usize,
    lane: usize,
    resolution: u16,
    scale: ScaleMode,
    i: int,
    j: int,
)
    requires
        is_ascending(raw),
        0 <= i < j < raw.len(),
    ensures
        ({
            let after = base.with_notes(raw, track, lane, false, resolution, scale);
            let first = after.notes[base.notes.len() + i];
            let second = after.notes[base.notes.len() + j];
            first.lane == second.lane && first.lane < usize::MAX ==> (raw[i].end - raw[j].start)
                * 10000 <= resolution
        }),
    decreases raw.len(),
{
    let shorter = raw.drop_last();
    let before = base.with_notes(shorter, track, lane, false, resolution, scale);
    let after = base.with_notes(raw, track, lane, false, resolution, scale);
    lemma_put_down(base, shorter, track, lane, resolution, scale);
    lemma_put_down(base, raw, track, lane, resolution, scale);
    assert forall|a: int, b: int|
        #![trigger shorter[a], shorter[b]]
        0 <= a <= b < shorter.len() implies shorter[a].rank_le(shorter[b]) by {
        assert(raw[a].rank_le(raw[b]));
    }
    let notes = base.notes.len() as int;
    let logged = base.log.len() as int;
    assert(after.notes[notes + i] == before.notes[notes + i]);
    if j < shorter.len() {
        assert(after.notes[notes + j] == before.notes[notes + j]);
        chords_are_spread_over_lanes(base, shorter, track, lane, resolution, scale, i, j);
    } else {
        let chosen = after.notes[notes + j].lane;
        lemma_free_lane(before.log, track, lane, raw[j].start, resolution);
        assert(before.log[logged + i].lane == before.notes[notes + i].lane);
        if before.notes[notes + i].lane == chosen && chosen < usize::MAX {
            let last = lemma_last_end(before.log, track, chosen, logged + i);
            let k = last - logged;
            assert(before.log[logged + k].end == shorter[k].end);
            assert(!is_busy(before.log, track, chosen, raw[j].start, resolution));
            if i < k {
                assert(before.notes[notes + k].lane == chosen);
                chords_are_spread_over_lanes(base, shorter, track, lane, resolution, scale, i, k);
                assert(raw[k].rank_le(raw[j]));
            }
        }
    }
}

/// A span in which a controller holds a value, in ticks of the file.
#[derive(Clone, Copy, PartialEq, Eq, Structural, Debug)]
pub struct Block {
    pub start: u32,
    pub end: u64,
    pub value: u8,
}

/// The block that starts with event `index`, if one does: a value other than
/// the release is held until the next event, or until everything has ended.
pub open spec fn block_at(events: Seq<(u32, u8)>, index: int, end: u64) -> Option<Block> {
    let (start, value) = events[index];
    let stop = if index + 1 < events.len() {
        events[index + 1].0 as u64
    } else {
        later(end, start)
    };
    if value != 0 && stop > start {
        Some(Block { start, end: stop, value })
    } else {
        None
    }
}

/// The blocks that start with one of the first `count` events.
pub open spec fn blocks_among(events: Seq<(u32, u8)>, count: int, end: u64) -> Seq<Block>
    decreases count,
{
    if count <= 0 {
        Seq::empty()
    } else {
        let before = blocks_among(events, count - 1, end);
        match block_at(events, count - 1, end) {
            Some(block) => before.push(block),
            None => before,
        }
    }
}

/// The blocks of a controller.
pub open spec fn blocks_of(events: Seq<(u32, u8)>, end: u64) -> Seq<Block> {
    blocks_among(events, events.len() as int, end)
}

/// A block as a note of the library.
pub open spec fn block_note(block: Block, track: usize, lane: usize, resolution: u16) -> Note {
    Note {
        start_tick: library_ticks(block.start as int, resolution) as i64,
        duration: library_ticks(block.end - block.start, resolution) as i64,
        semitone: 0,
        octave: 4,
        velocity: audible(block.value),
        velocity_to: audible(block.value),
        track,
        lane,
    }
}

/// The notes that blocks become.
pub open spec fn block_notes(
    blocks: Seq<Block>,
    track: usize,
    lane: usize,
    resolution: u16,
) -> Seq<Note> {
    Seq::new(blocks.len(), |i: int| block_note(blocks[i], track, lane, resolution))
}

/// How far the controllers have been restored.
#[verifier::ext_equal]
pub struct RestoreView {
    /// The lane that the next controller of the track goes to.
    pub next_lane: usize,
    /// The lane that comes before that one, if the name tells.
    pub named: Option<usize>,
    pub lane_ccs: Seq<(usize, usize, u8)>,
    pub notes: Seq<Note>,
}

impl RestoreView {
    /// After one controller of a track. A controller without blocks takes no
    /// lane.
    pub open spec fn with_group(
        self,
        group: GroupView,
        track: usize,
        end: u64,
        resolution: u16,
    ) -> RestoreView {
        let blocks = blocks_of(group.events, end);
        if blocks.len() == 0 {
            self
        } else {
            let lane = match self.named {
                Some(lane) => lane,
                None => self.next_lane,
            };
            RestoreView {
                next_lane: if self.named is Some {
                    self.next_lane
                } else {
                    next_index(self.next_lane)
                },
                named: None,
                lane_ccs: self.lane_ccs.push((track, lane, group.number)),
                notes: self.notes + block_notes(blocks, track, lane, resolution),
            }
        }
    }

    /// After all the controllers of a track.
    pub open spec fn with_groups(
        self,
        groups: Seq<GroupView>,
        track: usize,
        end: u64,
        resolution: u16,
    ) -> RestoreView
        decreases groups.len(),
    {
        if groups.len() == 0 {
            self
        } else {
            self.with_groups(groups.drop_last(), track, end, resolution).with_group(
                groups.last(),
                track,
                end,
                resolution,
            )
        }
    }
}

/// The controller lanes and their blocks, behind the notes of the layout. They
/// go below the lanes of the notes.
pub open spec fn restored(
    pending: Seq<PendingView>,
    layout: LayoutView,
    end: u64,
    resolution: u16,
) -> RestoreView
    decreases pending.len(),
{
    if pending.len() == 0 {
        RestoreView { next_lane: 0, named: None, lane_ccs: Seq::empty(), notes: layout.notes }
    } else {
        let before = restored(pending.drop_last(), layout, end, resolution);
        let waiting = pending.last();
        RestoreView {
            next_lane: used_lanes(layout.log, waiting.track),
            named: waiting.lane,
            ..before
        }.with_groups(waiting.groups, waiting.track, end, resolution)
    }
}

/// What a file is read as.
pub open spec fn imported(file: SmfView, scale: ScaleMode) -> ImportedView {
    let resolution = file.resolution->0;
    let tracks = kept_tracks(file.tracks);
    let layout = laid_out(tracks, resolution, scale);
    let all = restored(layout.pending, layout, file_end(tracks), resolution);
    ImportedView {
        notes: stable_sorted(all.notes),
        tempo: first_tempo(file.tracks),
        time_signature: first_signature(file.tracks),
        lane_ccs: all.lane_ccs,
    }
}

/// What has been read of a track.
#[derive(Debug)]
pub struct TrackScan {
    at: u32,
    sounding: HashMap<u32, (u32, u8)>,
    notes: Vec<RawNote>,
    ccs: Vec<RawCc>,
    name: Option<(usize, usize)>,
    tempo: Option<u32>,
    signature: Option<(u32, u32)>,
}

impl View for TrackScan {
    type V = ScanView;

    closed spec fn view(&self) -> ScanView {
        ScanView {
            at: self.at,
            sounding: self.sounding@,
            notes: self.notes@,
            ccs: self.ccs@,
            name: self.name,
            tempo: self.tempo,
            signature: self.signature,
        }
    }
}

/// The message that bytes stand for.
pub fn read_message(bytes: &Vec<u8>) -> (message: Message)
    ensures
        message == message_of(bytes@),
{
    if bytes.len() < 3 {
        return Message::Other;
    }
    let status: u8 = bytes[0];
    let first: u8 = bytes[1];
    let second: u8 = bytes[2];
    if 0x90 <= status && status < 0xA0 {
        if second > 0 {
            Message::On { channel: status - 0x90, key: first, velocity: second }
        } else {
            Message::Off { channel: status - 0x90, key: first }
        }
    } else if 0x80 <= status && status < 0x90 {
        Message::Off { channel: status - 0x80, key: first }
    } else if 0xB0 <= status && status < 0xC0 && first < FIRST_CHANNEL_MODE_CC {
        Message::Control { number: first, value: second }
    } else {
        Message::Other
    }
}

/// Beats per minute of a quarter note's length in microseconds.
fn read_tempo(us: u32) -> (tempo: u32)
    ensures
        tempo == tempo_of(us),
{
    let length: u32 = if us == 0 {
        1
    } else {
        us
    };
    let tempo: u32 = 60_000_000u32 / length;
    if tempo < 20 {
        20
    } else if tempo > 300 {
        300
    } else {
        tempo
    }
}

/// The time signature with the given numerator and power of two.
fn read_signature(numerator: u8, power: u8) -> (signature: (u32, u32))
    ensures
        signature == signature_of(numerator, power),
{
    let beats: u32 = if numerator == 0 {
        1
    } else {
        numerator as u32
    };
    let beat_type: u32 = if power == 0 {
        1
    } else if power == 1 {
        2
    } else if power == 2 {
        4
    } else if power == 3 {
        8
    } else if power == 4 {
        16
    } else {
        32
    };
    (beats, beat_type)
}

impl TrackScan {
    /// Nothing read yet.
    fn new() -> (scan: TrackScan)
        ensures
            scan@ == ScanView::start(),
    {
        let scan = TrackScan {
            at: 0,
            sounding: HashMap::new(),
            notes: Vec::new(),
            ccs: Vec::new(),
            name: None,
            tempo: None,
            signature: None,
        };
        assert(scan@ =~= ScanView::start());
        scan
    }

    /// Reads a message at the current time.
    fn take_message(&mut self, message: Message)
        ensures
            final(self)@ == old(self)@.after_message(message),
    {
        let ghost before = self@;
        match message {
            Message::On { channel, key, velocity } => {
                let filed: u32 = channel as u32 * 256 + key as u32;
                self.sounding.insert(filed, (self.at, velocity));
                assert(self@ =~= before.after_message(message));
            },
            Message::Off { channel, key } => {
                let filed: u32 = channel as u32 * 256 + key as u32;
                match self.sounding.remove(&filed) {
                    Some((start, velocity)) => {
                        let end: u64 = if self.at > start {
                            self.at as u64
                        } else {
                            start as u64 + 1
                        };
                        self.notes.push(RawNote { start, end, key, velocity });
                        assert(self@ =~= before.after_message(message));
                    },
                    None => {
                        assert(self@ =~= before.after_message(message));
                    },
                }
            },
            Message::Control { number, value } => {
                self.ccs.push(RawCc { tick: self.at, number, value });
                assert(self@ =~= before.after_message(message));
            },
            Message::Other => {},
        }
    }

    /// Reads one more event.
    fn take(&mut self, event: &SmfEvent)
        ensures
            final(self)@ == old(self)@.after(event@),
    {
        self.at = if event.delta > u32::MAX - self.at {
            u32::MAX
        } else {
            self.at + event.delta
        };
        match &event.kind {
            SmfKind::Channel(bytes) => {
                let message = read_message(bytes);
                self.take_message(message);
            },
            SmfKind::Tempo(us) => {
                if self.tempo.is_none() {
                    self.tempo = Some(read_tempo(*us));
                }
            },
            SmfKind::TimeSignature(numerator, power, _, _) => {
                if self.signature.is_none() {
                    self.signature = Some(read_signature(*numerator, *power));
                }
            },
            SmfKind::TrackName(bytes) => {
                if self.name.is_none() {
                    self.name = parse_track_name(bytes.as_slice());
                }
            },
            SmfKind::EndOfTrack => {},
        }
    }
}

/// Reads the events of a track.
fn scan_track(events: &Vec<SmfEvent>) -> (scan: TrackScan)
    ensures
        scan@ == scanned(event_views(events@)),
{
    let mut scan = TrackScan::new();
    let ghost views = event_views(events@);
    let mut at: usize = 0;
    while at < events.len()
        invariant
            at <= events@.len(),
            views == event_views(events@),
            scan@ == scanned(views.take(at as int)),
        decreases events@.len() - at,
    {
        scan.take(&events[at]);
        proof {
            assert(views.take(at + 1).drop_last() =~= views.take(at as int));
            assert(views.take(at + 1).last() == events@[at as int]@);
        }
        at += 1;
    }
    assert(views.take(at as int) =~= views);
    scan
}

/// Whether a controller ever changes its value.
pub fn changes_at_least_once(events: &Vec<(u32, u8)>) -> (yes: bool)
    ensures
        yes == changes(events@),
{
    let mut at: usize = 0;
    while at < events.len()
        invariant
            at <= events@.len(),
            forall|i: int| 0 <= i < at ==> (#[trigger] events@[i]).1 == events@[0].1,
        decreases events@.len() - at,
    {
        if events[at].1 != events[0].1 {
            assert(events@[at as int].1 != events@[0].1);
            return true;
        }
        at += 1;
    }
    false
}

/// The times and values of one controller.
fn collect_events(ccs: &Vec<RawCc>, number: u8) -> (events: Vec<(u32, u8)>)
    ensures
        events@ == events_of(ccs@, number),
{
    let mut events: Vec<(u32, u8)> = Vec::new();
    let mut at: usize = 0;
    while at < ccs.len()
        invariant
            at <= ccs@.len(),
            events@ == events_of(ccs@.take(at as int), number),
        decreases ccs@.len() - at,
    {
        let cc = ccs[at];
        assert(ccs@.take(at + 1).drop_last() =~= ccs@.take(at as int));
        if cc.number == number {
            events.push((cc.tick, cc.value));
        }
        at += 1;
    }
    assert(ccs@.take(at as int) =~= ccs@);
    events
}

/// The controllers that change their value.
fn collect_groups(ccs: &Vec<RawCc>) -> (groups: Vec<CcGroup>)
    ensures
        group_views(groups@) == changing_groups(ccs@, FIRST_CHANNEL_MODE_CC as int),
{
    let mut groups: Vec<CcGroup> = Vec::new();
    let mut number: u8 = 0;
    assert(group_views(groups@) =~= changing_groups(ccs@, 0));
    while number < FIRST_CHANNEL_MODE_CC
        invariant
            number <= FIRST_CHANNEL_MODE_CC,
            group_views(groups@) == changing_groups(ccs@, number as int),
        decreases FIRST_CHANNEL_MODE_CC - number,
    {
        let events = collect_events(ccs, number);
        if changes_at_least_once(&events) {
            let ghost before = groups@;
            let group = CcGroup { number, events };
            groups.push(group);
            proof {
                assert(group_views(groups@) =~= group_views(before).push(group@));
                assert(group@ =~= GroupView { number, events: events_of(ccs@, number) });
            }
        }
        number += 1;
    }
    groups
}

/// The index behind `index`.
fn index_after(index: usize) -> (next: usize)
    ensures
        next == next_index(index),
{
    if index == usize::MAX {
        index
    } else {
        index + 1
    }
}

/// Where the note that was last put on a lane ends.
fn find_last_end(log: &Vec<LaneEnd>, track: usize, lane: usize) -> (end: Option<u64>)
    ensures
        end == last_end(log@, track, lane),
{
    let mut at: usize = log.len();
    assert(log@.take(at as int) =~= log@);
    while at > 0
        invariant
            at <= log@.len(),
            last_end(log@, track, lane) == last_end(log@.take(at as int), track, lane),
        decreases at,
    {
        let entry = log[at - 1];
        proof {
            assert(log@.take(at as int).drop_last() =~= log@.take(at - 1));
            assert(log@.take(at as int).last() == entry);
        }
        if entry.track == track && entry.lane == lane {
            return Some(entry.end);
        }
        at -= 1;
    }
    None
}

/// The first lane, from `lane` on, that is not busy at `start`.
fn find_free_lane(
    log: &Vec<LaneEnd>,
    track: usize,
    lane: usize,
    start: u32,
    resolution: u16,
) -> (free: usize)
    ensures
        free == free_lane(log@, track, lane, start, resolution),
{
    let mut free: usize = lane;
    while free < usize::MAX
        invariant
            free_lane(log@, track, lane, start, resolution) == free_lane(
                log@,
                track,
                free,
                start,
                resolution,
            ),
        decreases usize::MAX - free,
    {
        let busy: bool = match find_last_end(log, track, free) {
            Some(end) => (end as i128 - start as i128) * 10000 > resolution as i128,
            None => false,
        };
        if !busy {
            return free;
        }
        free += 1;
    }
    free
}

/// The number of lanes of a track that something was put on.
fn count_used_lanes(log: &Vec<LaneEnd>, track: usize) -> (count: usize)
    ensures
        count == used_lanes(log@, track),
{
    let mut count: usize = 0;
    let mut at: usize = 0;
    while at < log.len()
        invariant
            at <= log@.len(),
            count == used_lanes(log@.take(at as int), track),
        decreases log@.len() - at,
    {
        let entry = log[at];
        assert(log@.take(at + 1).drop_last() =~= log@.take(at as int));
        let next: usize = index_after(entry.lane);
        if entry.track == track && next > count {
            count = next;
        }
        at += 1;
    }
    assert(log@.take(at as int) =~= log@);
    count
}

/// A length or position of a file in ticks of the library.
fn to_library_ticks(ticks: u64, resolution: u16) -> (result: i64)
    requires
        resolution > 0,
        ticks <= 0x1_0000_0000,
    ensures
        result == library_ticks(ticks as int, resolution),
        0 <= library_ticks(ticks as int, resolution) <= i64::MAX,
{
    assert(0 <= ticks as int * TICKS_PER_QUARTER as int <= 0x1_0000_0000 * 33600)
        by (nonlinear_arith)
        requires
            TICKS_PER_QUARTER == 33600,
            0 <= ticks <= 0x1_0000_0000,
    ;
    let scaled: i128 = ticks as i128 * TICKS_PER_QUARTER as i128;
    let result: i128 = round_quotient(scaled, resolution as i128);
    proof {
        let numerator = 2 * scaled + resolution;
        let divisor = 2 * resolution as int;
        assert(0 <= numerator / divisor <= numerator) by (nonlinear_arith)
            requires
                numerator >= 0,
                divisor > 0,
        ;
    }
    result as i64
}

/// A velocity held to 1 to 127.
fn hold_audible(velocity: u8) -> (result: u8)
    ensures
        result == audible(velocity),
{
    if velocity < 1 {
        1
    } else if velocity > 127 {
        127
    } else {
        velocity
    }
}

/// Whether a note of a file is one that a track can hold.
pub open spec fn is_sound(raw: RawNote) -> bool {
    raw.start < raw.end <= 0x1_0000_0000
}

/// Whether every note is one that a track can hold.
pub open spec fn all_sound(notes: Seq<RawNote>) -> bool {
    forall|i: int| 0 <= i < notes.len() ==> is_sound(#[trigger] notes[i])
}

/// A note of the file as a note of the library.
fn make_note(raw: &RawNote, track: usize, lane: usize, resolution: u16, scale: ScaleMode) -> (note:
    Note)
    requires
        resolution > 0,
        is_sound(*raw),
    ensures
        note == placed_note(*raw, track, lane, resolution, scale),
{
    let steps: i32 = scale.steps_per_octave();
    let from_middle: i32 = raw.key as i32 - 60;
    let shifted: i32 = from_middle + 10 * steps;
    let semitone: i32 = shifted % steps;
    let octave: i32 = 4 + shifted / steps - 10;
    proof {
        let q = from_middle as int / steps as int;
        let r = from_middle as int % steps as int;
        vstd::arithmetic::div_mod::lemma_fundamental_div_mod(from_middle as int, steps as int);
        assert(shifted as int == steps * (q + 10) + r) by (nonlinear_arith)
            requires
                shifted == from_middle + 10 * steps,
                from_middle as int == steps * q + r,
        ;
        vstd::arithmetic::div_mod::lemma_fundamental_div_mod_converse(
            shifted as int,
            steps as int,
            q + 10,
            r,
        );
    }
    Note {
        start_tick: to_library_ticks(raw.start as u64, resolution),
        duration: to_library_ticks(raw.end - raw.start as u64, resolution),
        semitone,
        octave,
        velocity: hold_audible(raw.velocity),
        velocity_to: hold_audible(raw.velocity),
        track,
        lane,
    }
}

/// How far the tracks of a file have been laid out.
#[derive(Debug)]
struct Layout {
    next_track: usize,
    log: Vec<LaneEnd>,
    notes: Vec<Note>,
    pending: Vec<Pending>,
}

impl View for Layout {
    type V = LayoutView;

    closed spec fn view(&self) -> LayoutView {
        LayoutView {
            next_track: self.next_track,
            log: self.log@,
            notes: self.notes@,
            pending: pending_views(self.pending@),
        }
    }
}

impl Layout {
    /// Nothing laid out yet.
    fn new() -> (layout: Layout)
        ensures
            layout@ == LayoutView::start(),
    {
        let layout = Layout {
            next_track: 0,
            log: Vec::new(),
            notes: Vec::new(),
            pending: Vec::new(),
        };
        assert(layout@ =~= LayoutView::start());
        layout
    }

    /// Lays out all the notes of a file track.
    fn take_notes(
        &mut self,
        raw: &Vec<RawNote>,
        track: usize,
        lane: usize,
        fixed: bool,
        resolution: u16,
        scale: ScaleMode,
    )
        requires
            resolution > 0,
            all_sound(raw@),
        ensures
            final(self)@ == old(self)@.with_notes(raw@, track, lane, fixed, resolution, scale),
    {
        let ghost start = self@;
        let mut at: usize = 0;
        while at < raw.len()
            invariant
                at <= raw@.len(),
                resolution > 0,
                all_sound(raw@),
                self@ == start.with_notes(
                    raw@.take(at as int),
                    track,
                    lane,
                    fixed,
                    resolution,
                    scale,
                ),
            decreases raw@.len() - at,
        {
            let note = raw[at];
            assert(is_sound(raw@[at as int]));
            let ghost before = self@;
            let chosen: usize = if fixed {
                lane
            } else {
                find_free_lane(&self.log, track, lane, note.start, resolution)
            };
            self.log.push(LaneEnd { track, lane: chosen, end: note.end });
            self.notes.push(make_note(&note, track, chosen, resolution, scale));
            proof {
                assert(self@ =~= before.with_note(note, track, lane, fixed, resolution, scale));
                assert(raw@.take(at + 1).drop_last() =~= raw@.take(at as int));
                assert(raw@.take(at + 1).last() == note);
            }
            at += 1;
        }
        assert(raw@.take(at as int) =~= raw@);
    }

    /// Lays out one file track.
    fn take_track(&mut self, parsed: ParsedTrack, resolution: u16, scale: ScaleMode)
        requires
            resolution > 0,
            all_sound(parsed@.notes),
        ensures
            final(self)@ == old(self)@.with_track(parsed@, resolution, scale),
    {
        let ghost start = self@;
        let fixed: bool = parsed.name.is_some();
        let (track, lane): (usize, usize) = match parsed.name {
            Some(cell) => cell,
            None => (self.next_track, 0),
        };
        if !fixed {
            self.next_track = index_after(self.next_track);
        }
        let ghost base = self@;
        proof {
            assert(base =~= if fixed {
                start
            } else {
                LayoutView { next_track: next_index(start.next_track), ..start }
            });
        }
        self.take_notes(&parsed.notes, track, lane, fixed, resolution, scale);
        let ghost noted = self@;
        if find_last_end(&self.log, track, lane).is_none() {
            self.log.push(LaneEnd { track, lane, end: 0 });
        }
        let ghost laid = self@;
        assert(laid =~= noted.with_lane(track, lane));
        let after: usize = index_after(track);
        if self.next_track < after {
            self.next_track = after;
        }
        if parsed.groups.len() > 0 {
            let waiting = Pending {
                track,
                lane: if fixed && parsed.notes.len() == 0 {
                    Some(lane)
                } else {
                    None
                },
                groups: parsed.groups,
            };
            let ghost old_pending = self.pending@;
            self.pending.push(waiting);
            assert(pending_views(self.pending@) =~= pending_views(old_pending).push(waiting@));
        }
        assert(self@ =~= start.with_track(parsed@, resolution, scale));
    }
}

/// The blocks of a controller.
pub fn cc_blocks(events: &Vec<(u32, u8)>, end_tick: u64) -> (blocks: Vec<Block>)
    ensures
        blocks@ == blocks_of(events@, end_tick),
{
    let mut blocks: Vec<Block> = Vec::new();
    let mut at: usize = 0;
    while at < events.len()
        invariant
            at <= events@.len(),
            blocks@ == blocks_among(events@, at as int, end_tick),
        decreases events@.len() - at,
    {
        let (start, value): (u32, u8) = events[at];
        let stop: u64 = if at + 1 < events.len() {
            events[at + 1].0 as u64
        } else if end_tick > start as u64 {
            end_tick
        } else {
            start as u64 + 1
        };
        if value != 0 && stop > start as u64 {
            blocks.push(Block { start, end: stop, value });
        }
        at += 1;
    }
    blocks
}

/// The notes that are read of a track start before they end.
proof fn lemma_scanned_sound(events: Seq<SmfEventView>)
    ensures
        all_sound(scanned(events).notes),
    decreases events.len(),
{
    if events.len() > 0 {
        lemma_scanned_sound(events.drop_last());
    }
}

/// The notes of a track that is laid out start before they end.
proof fn lemma_parsed_sound(events: Seq<SmfEventView>)
    ensures
        all_sound(parsed(events).notes),
{
    broadcast use vstd::seq_lib::group_to_multiset_ensures;

    lemma_scanned_sound(events);
    let raw = scanned(events).notes;
    let sorted = stable_sorted(raw);
    stable_sort_orders(raw);
    assert forall|i: int| 0 <= i < sorted.len() implies is_sound(#[trigger] sorted[i]) by {
        assert(sorted.to_multiset().count(sorted[i]) > 0);
        assert(raw.contains(sorted[i]));
        let m = choose|m: int| 0 <= m < raw.len() && raw[m] == sorted[i];
        assert(is_sound(raw[m]));
    }
}

/// The last end of sound notes fits.
proof fn lemma_last_note_end(notes: Seq<RawNote>)
    requires
        all_sound(notes),
    ensures
        last_note_end(notes) <= 0x1_0000_0000,
    decreases notes.len(),
{
    if notes.len() > 0 {
        lemma_last_note_end(notes.drop_last());
        assert(is_sound(notes[notes.len() - 1]));
    }
}

/// The times of controllers fit.
proof fn lemma_last_event_time(events: Seq<(u32, u8)>)
    ensures
        last_event_time(events) <= 0x1_0000_0000,
    decreases events.len(),
{
    if events.len() > 0 {
        lemma_last_event_time(events.drop_last());
    }
}

proof fn lemma_last_group_time(groups: Seq<GroupView>)
    ensures
        last_group_time(groups) <= 0x1_0000_0000,
    decreases groups.len(),
{
    if groups.len() > 0 {
        lemma_last_group_time(groups.drop_last());
        lemma_last_event_time(groups.last().events);
    }
}

/// The last time of a controller.
fn find_last_event_time(events: &Vec<(u32, u8)>) -> (time: u64)
    ensures
        time == last_event_time(events@),
{
    let mut time: u64 = 0;
    let mut at: usize = 0;
    while at < events.len()
        invariant
            at <= events@.len(),
            time == last_event_time(events@.take(at as int)),
        decreases events@.len() - at,
    {
        assert(events@.take(at + 1).drop_last() =~= events@.take(at as int));
        let tick: u64 = events[at].0 as u64;
        if time < tick {
            time = tick;
        }
        at += 1;
    }
    assert(events@.take(at as int) =~= events@);
    time
}

/// The last time of a track.
fn find_track_end(track: &ParsedTrack) -> (time: u64)
    ensures
        time == latest(last_note_end(track@.notes), last_group_time(track@.groups)),
{
    let mut notes_end: u64 = 0;
    let mut at: usize = 0;
    while at < track.notes.len()
        invariant
            at <= track.notes@.len(),
            notes_end == last_note_end(track.notes@.take(at as int)),
        decreases track.notes@.len() - at,
    {
        assert(track.notes@.take(at + 1).drop_last() =~= track.notes@.take(at as int));
        let end: u64 = track.notes[at].end;
        if notes_end < end {
            notes_end = end;
        }
        at += 1;
    }
    assert(track.notes@.take(at as int) =~= track.notes@);
    let ghost groups = track@.groups;
    let mut groups_end: u64 = 0;
    let mut index: usize = 0;
    while index < track.groups.len()
        invariant
            index <= track.groups@.len(),
            groups == group_views(track.groups@),
            groups_end == last_group_time(groups.take(index as int)),
        decreases track.groups@.len() - index,
    {
        proof {
            assert(groups.take(index + 1).drop_last() =~= groups.take(index as int));
            assert(groups.take(index + 1).last() == track.groups@[index as int]@);
        }
        let end: u64 = find_last_event_time(&track.groups[index].events);
        if groups_end < end {
            groups_end = end;
        }
        index += 1;
    }
    assert(groups.take(index as int) =~= groups);
    if notes_end < groups_end {
        groups_end
    } else {
        notes_end
    }
}

/// Controller lanes and the notes of everything.
struct Restored {
    next_lane: usize,
    named: Option<usize>,
    lane_ccs: Vec<(usize, usize, u8)>,
    notes: Vec<Note>,
}

impl View for Restored {
    type V = RestoreView;

    closed spec fn view(&self) -> RestoreView {
        RestoreView {
            next_lane: self.next_lane,
            named: self.named,
            lane_ccs: self.lane_ccs@,
            notes: self.notes@,
        }
    }
}

impl Restored {
    /// Puts the blocks of a controller behind the notes.
    fn push_blocks(&mut self, blocks: &Vec<Block>, track: usize, lane: usize, resolution: u16)
        requires
            resolution > 0,
            forall|i: int|
                0 <= i < blocks@.len() ==> (#[trigger] blocks@[i]).start < blocks@[i].end
                    <= 0x1_0000_0000,
        ensures
            final(self)@ == (RestoreView {
                notes: old(self)@.notes + block_notes(blocks@, track, lane, resolution),
                ..old(self)@
            }),
    {
        let ghost start = self@;
        let ghost added = block_notes(blocks@, track, lane, resolution);
        let mut at: usize = 0;
        assert(start.notes + added.take(0) =~= start.notes);
        while at < blocks.len()
            invariant
                at <= blocks@.len(),
                resolution > 0,
                forall|i: int|
                    0 <= i < blocks@.len() ==> (#[trigger] blocks@[i]).start < blocks@[i].end
                        <= 0x1_0000_0000,
                added == block_notes(blocks@, track, lane, resolution),
                self@ == (RestoreView { notes: start.notes + added.take(at as int), ..start }),
            decreases blocks@.len() - at,
        {
            let block = blocks[at];
            let ghost before = self@;
            self.notes.push(
                Note {
                    start_tick: to_library_ticks(block.start as u64, resolution),
                    duration: to_library_ticks(block.end - block.start as u64, resolution),
                    semitone: 0,
                    octave: 4,
                    velocity: hold_audible(block.value),
                    velocity_to: hold_audible(block.value),
                    track,
                    lane,
                },
            );
            proof {
                assert(self@.notes =~= before.notes.push(added[at as int]));
                assert(added.take(at + 1) =~= added.take(at as int).push(added[at as int]));
                assert(self@.notes =~= start.notes + added.take(at + 1));
                assert(self@ =~= RestoreView { notes: start.notes + added.take(at + 1), ..start });
            }
            at += 1;
        }
        assert(added.take(at as int) =~= added);
    }

    /// Restores the controllers of a track.
    fn take_groups(&mut self, groups: &Vec<CcGroup>, track: usize, end: u64, resolution: u16)
        requires
            resolution > 0,
            end <= 0x1_0000_0000,
        ensures
            final(self)@ == old(self)@.with_groups(group_views(groups@), track, end, resolution),
    {
        let ghost start = self@;
        let ghost views = group_views(groups@);
        let mut at: usize = 0;
        while at < groups.len()
            invariant
                at <= groups@.len(),
                resolution > 0,
                end <= 0x1_0000_0000,
                views == group_views(groups@),
                self@ == start.with_groups(views.take(at as int), track, end, resolution),
            decreases groups@.len() - at,
        {
            let group = &groups[at];
            let ghost before = self@;
            let blocks = cc_blocks(&group.events, end);
            proof {
                lemma_blocks_fit(group.events@, group.events@.len() as int, end);
                assert(views.take(at + 1).drop_last() =~= views.take(at as int));
                assert(views.take(at + 1).last() == group@);
            }
            if blocks.len() > 0 {
                let lane: usize = match self.named {
                    Some(lane) => lane,
                    None => self.next_lane,
                };
                if self.named.is_none() {
                    self.next_lane = index_after(self.next_lane);
                }
                self.named = None;
                self.lane_ccs.push((track, lane, group.number));
                self.push_blocks(&blocks, track, lane, resolution);
            }
            assert(self@ =~= before.with_group(group@, track, end, resolution));
            at += 1;
        }
        assert(views.take(at as int) =~= views);
    }
}

/// A block ends behind its start, and in range.
proof fn lemma_blocks_fit(events: Seq<(u32, u8)>, count: int, end: u64)
    requires
        0 <= count <= events.len(),
        end <= 0x1_0000_0000,
    ensures
        forall|i: int|
            0 <= i < blocks_among(events, count, end).len() ==> (#[trigger] blocks_among(
                events,
                count,
                end,
            )[i]).start < blocks_among(events, count, end)[i].end <= 0x1_0000_0000,
    decreases count,
{
    if count > 0 {
        lemma_blocks_fit(events, count - 1, end);
        let before = blocks_among(events, count - 1, end);
        let now = blocks_among(events, count, end);
        assert forall|i: int| 0 <= i < now.len() implies (#[trigger] now[i]).start < now[i].end
            <= 0x1_0000_0000 by {
            if i < before.len() {
                assert(now[i] == before[i]);
            } else {
                assert(block_at(events, count - 1, end) == Some(now[i]));
            }
        }
    }
}

/// Everything that the tracks of a file say, before it is laid out.
struct Contents {
    tracks: Vec<ParsedTrack>,
    tempo: Option<u32>,
    signature: Option<(u32, u32)>,
    end: u64,
}

/// Reads the tracks of a file.
fn read_tracks(tracks: &Vec<Vec<SmfEvent>>) -> (contents: Contents)
    ensures
        parsed_views(contents.tracks@) == kept_tracks(tracks_view(tracks@)),
        forall|i: int|
            0 <= i < contents.tracks@.len() ==> all_sound((#[trigger] contents.tracks@[i])@.notes),
        contents.tempo == first_tempo(tracks_view(tracks@)),
        contents.signature == first_signature(tracks_view(tracks@)),
        contents.end == file_end(kept_tracks(tracks_view(tracks@))),
        contents.end <= 0x1_0000_0000,
{
    let ghost views = tracks_view(tracks@);
    let mut contents = Contents { tracks: Vec::new(), tempo: None, signature: None, end: 0 };
    let mut at: usize = 0;
    assert(parsed_views(contents.tracks@) =~= kept_tracks(views.take(0)));
    while at < tracks.len()
        invariant
            at <= tracks@.len(),
            views == tracks_view(tracks@),
            parsed_views(contents.tracks@) == kept_tracks(views.take(at as int)),
            forall|i: int|
                0 <= i < contents.tracks@.len() ==> all_sound(
                    (#[trigger] contents.tracks@[i])@.notes,
                ),
            contents.tempo == first_tempo(views.take(at as int)),
            contents.signature == first_signature(views.take(at as int)),
            contents.end == file_end(kept_tracks(views.take(at as int))),
            contents.end <= 0x1_0000_0000,
        decreases tracks@.len() - at,
    {
        let scan = scan_track(&tracks[at]);
        let ghost events = views[at as int];
        proof {
            assert(views.take(at + 1).drop_last() =~= views.take(at as int));
            assert(views.take(at + 1).last() == events);
            lemma_parsed_sound(events);
        }
        if contents.tempo.is_none() {
            contents.tempo = scan.tempo;
        }
        if contents.signature.is_none() {
            contents.signature = scan.signature;
        }
        let groups = collect_groups(&scan.ccs);
        let notes = sort_stable(scan.notes);
        let track = ParsedTrack { name: scan.name, notes, groups };
        assert(track@ =~= parsed(events));
        if track.notes.len() > 0 || track.groups.len() > 0 || track.name.is_some() {
            let end: u64 = find_track_end(&track);
            proof {
                lemma_last_note_end(track@.notes);
                lemma_last_group_time(track@.groups);
                let kept = kept_tracks(views.take(at + 1));
                assert(kept.drop_last() =~= kept_tracks(views.take(at as int)));
                assert(kept.last() == parsed(events));
            }
            if contents.end < end {
                contents.end = end;
            }
            let ghost before = contents.tracks@;
            contents.tracks.push(track);
            assert(parsed_views(contents.tracks@) =~= parsed_views(before).push(track@));
        }
        at += 1;
    }
    assert(views.take(at as int) =~= views);
    contents
}

/// Lays a file out as a sequence. Fails on a file that counts in frames and on
/// one without a resolution.
pub fn import(file: &SmfFile, scale: ScaleMode) -> (outcome: Result<Imported, String>)
    ensures
        match outcome {
            Ok(result) => {
                &&& file@.resolution is Some
                &&& file@.resolution->0 > 0
                &&& result@ == imported(file@, scale)
            },
            Err(text) => {
                ||| file@.resolution is None && text@
                    == "SMPTE タイムコードの MIDI には未対応です"@
                ||| file@.resolution == Some(0u16) && text@ == "分解能が不正な MIDI です"@
            },
        },
{
    let resolution: u16 = match file.resolution {
        Some(resolution) => resolution,
        None => {
            return Err(String::from_str("SMPTE タイムコードの MIDI には未対応です"));
        },
    };
    if resolution == 0 {
        return Err(String::from_str("分解能が不正な MIDI です"));
    }
    let contents = read_tracks(&file.tracks);
    let end: u64 = contents.end;
    let layout = lay_out(contents.tracks, resolution, scale);
    let all = restore(layout, end, resolution);
    let result = Imported {
        notes: sort_stable(all.notes),
        tempo: contents.tempo,
        time_signature: contents.signature,
        lane_ccs: all.lane_ccs,
    };
    assert(result@ =~= imported(file@, scale));
    Ok(result)
}

/// Lays out the tracks of a file.
fn lay_out(tracks: Vec<ParsedTrack>, resolution: u16, scale: ScaleMode) -> (layout: Layout)
    requires
        resolution > 0,
        forall|i: int| 0 <= i < tracks@.len() ==> all_sound((#[trigger] tracks@[i])@.notes),
    ensures
        layout@ == laid_out(parsed_views(tracks@), resolution, scale),
{
    let ghost views = parsed_views(tracks@);
    let mut layout = Layout::new();
    let ghost whole = tracks@;
    let mut rest = tracks;
    let mut reversed: Vec<ParsedTrack> = Vec::new();
    while rest.len() > 0
        invariant
            rest@ == whole.take(rest@.len() as int),
            rest@.len() + reversed@.len() == whole.len(),
            forall|i: int|
                0 <= i < reversed@.len() ==> #[trigger] reversed@[i] == whole[whole.len() - 1 - i],
        decreases rest@.len(),
    {
        let ghost before = rest@;
        let track = rest.pop().unwrap();
        assert(track == whole[before.len() - 1]);
        reversed.push(track);
        assert(rest@ =~= whole.take(rest@.len() as int));
    }
    let ghost total = whole.len();
    while reversed.len() > 0
        invariant
            views == parsed_views(whole),
            resolution > 0,
            forall|i: int| 0 <= i < whole.len() ==> all_sound((#[trigger] whole[i])@.notes),
            total == whole.len(),
            reversed@.len() <= total,
            forall|i: int|
                0 <= i < reversed@.len() ==> #[trigger] reversed@[i] == whole[whole.len() - 1 - i],
            layout@ == laid_out(views.take(total - reversed@.len()), resolution, scale),
        decreases reversed@.len(),
    {
        let ghost at = total - reversed@.len();
        let track = reversed.pop().unwrap();
        proof {
            assert(track == whole[at]);
            assert(views.take(at + 1).drop_last() =~= views.take(at));
            assert(views.take(at + 1).last() == track@);
        }
        layout.take_track(track, resolution, scale);
    }
    assert(views.take(total as int) =~= views);
    layout
}

/// Restores the controllers that wait in a layout.
fn restore(layout: Layout, end: u64, resolution: u16) -> (all: Restored)
    requires
        resolution > 0,
        end <= 0x1_0000_0000,
    ensures
        all@ == restored(layout@.pending, layout@, end, resolution),
{
    let ghost view = layout@;
    let ghost pending = view.pending;
    let Layout { next_track: _, log, notes, pending: waiting } = layout;
    let mut all = Restored { next_lane: 0, named: None, lane_ccs: Vec::new(), notes };
    let mut at: usize = 0;
    assert(all@ =~= restored(pending.take(0), view, end, resolution));
    while at < waiting.len()
        invariant
            at <= waiting@.len(),
            resolution > 0,
            end <= 0x1_0000_0000,
            pending == pending_views(waiting@),
            view.log == log@,
            all@ == restored(pending.take(at as int), view, end, resolution),
        decreases waiting@.len() - at,
    {
        let next = &waiting[at];
        let ghost before = all@;
        all.next_lane = count_used_lanes(&log, next.track);
        all.named = next.lane;
        proof {
            assert(pending.take(at + 1).drop_last() =~= pending.take(at as int));
            assert(pending.take(at + 1).last() == next@);
            assert(all@ =~= RestoreView {
                next_lane: used_lanes(view.log, next.track),
                named: next.lane,
                ..before
            });
        }
        all.take_groups(&next.groups, next.track, end, resolution);
        at += 1;
    }
    assert(pending.take(at as int) =~= pending);
    all
}

/// Reads a MIDI file as a sequence. Notes without the name of a lane are put
/// on lanes such that they do not overlap.
pub fn from_bytes(bytes: &[u8], scale: ScaleMode) -> (outcome: Result<Imported, String>)
    ensures
        match smf_read(mended(bytes@)) {
            Err(detail) => outcome matches Err(text) && text@ == "MIDI を読めませんでした: "@
                + detail,
            Ok(file) => if file.resolution is None {
                outcome matches Err(text) && text@
                    == "SMPTE タイムコードの MIDI には未対応です"@
            } else if file.resolution->0 == 0 {
                outcome matches Err(text) && text@ == "分解能が不正な MIDI です"@
            } else {
                outcome matches Ok(result) && result@ == imported(file, scale)
            },
        },
{
    match read_file(bytes) {
        Ok(file) => import(&file, scale),
        Err(detail) => {
            let mut text = String::from_str("MIDI を読めませんでした: ");
            text.append(detail.as_str());
            Err(text)
        },
    }
}

} // verus!
