//! What the events of a file say, in bytes, and what is read of them.

use crate::midi::export::{
    cell_messages, cell_track, end_in_file, exported_cells, exported_tracks, is_controller,
    is_redundant, lemma_ordered_messages, note_messages, ordered_messages, set_again,
    start_in_file, timed, without_redundant_releases, OutEvent,
};
use crate::midi::import::{
    block_at, block_note, block_notes, blocks_among, blocks_of, changes, changing_groups,
    events_of, file_end, first_signature, first_tempo, imported, is_kept, kept_tracks, laid_out,
    last_note_end, later, library_ticks, next_index, parsed, placed_note, restored, scanned,
    used_lanes, Block, GroupView, Imported, LayoutView, ParsedView, PendingView, RawCc, RawNote,
    RestoreView,
};
use crate::midi::names::{cell_of_name_bytes, track_name_round_trip};
use crate::sequencer::{EditorView, Note, ScaleMode};
use crate::smf::{SmfEvent, SmfEventView, SmfFile, SmfKind, SmfKindView, SmfView};
use crate::sorting::{is_ascending, stable_sort_orders, stable_sorted, Rank};
use vstd::prelude::*;

verus! {

/// The time after events: the sum of their distances.
pub open spec fn time_after(events: Seq<SmfEventView>, count: int) -> int
    decreases count,
{
    if count <= 0 {
        0
    } else {
        time_after(events, count - 1) + events[count - 1].delta
    }
}

/// Whether an event is a message of three bytes.
pub open spec fn says(event: SmfEventView, status: int, first: int, second: int) -> bool {
    event.kind matches SmfKindView::Channel(bytes) && bytes.len() == 3 && bytes[0] == status
        && bytes[1] == first && bytes[2] == second
}

/// Whether an event starts or ends a note of a channel and a key.
pub open spec fn concerns(event: SmfEventView, channel: int, key: int) -> bool {
    event.kind matches SmfKindView::Channel(bytes) && bytes.len() >= 3 && (bytes[0] == 0x80
        + channel || bytes[0] == 0x90 + channel) && bytes[1] == key
}

/// Whether an event ends a note of a channel and a key: it says so, or it starts
/// it without velocity.
pub open spec fn ends(event: SmfEventView, channel: int, key: int) -> bool {
    event.kind matches SmfKindView::Channel(bytes) && bytes.len() == 3 && bytes[1] == key && (
    bytes[0] == 0x80 + channel || bytes[0] == 0x90 + channel && bytes[2] == 0)
}

/// Whether event `i` starts a note and event `j` is the first to end it.
pub open spec fn sounds(
    events: Seq<SmfEventView>,
    i: int,
    j: int,
    channel: int,
    key: int,
    velocity: int,
) -> bool {
    &&& 0 <= i < j < events.len()
    &&& 0 <= channel < 16 && 0 <= key < 128 && 1 <= velocity < 128
    &&& says(events[i], 0x90 + channel, key, velocity)
    &&& ends(events[j], channel, key)
    &&& forall|m: int| i < m < j ==> !concerns(#[trigger] events[m], channel, key)
}

/// Whether a position of the library is the one nearest to ticks of a file.
pub open spec fn is_nearest(position: int, ticks: int, resolution: int) -> bool {
    -resolution <= 2 * (position * resolution - ticks * 33600) <= resolution
}

/// Whether a note sounds as a key. Step 0 of octave 4 is key 60.
pub open spec fn sounds_as(note: Note, key: int, scale: ScaleMode) -> bool {
    match scale {
        ScaleMode::Equal12 => key == 60 + 12 * (note.octave - 4) + note.semitone,
        ScaleMode::BohlenPierce13 => key == 60 + 13 * (note.octave - 4) + note.semitone,
    }
}

/// Whether a note sounds as a key and its step lies inside the octave.
pub open spec fn has_key(note: Note, key: int, scale: ScaleMode) -> bool {
    &&& sounds_as(note, key, scale)
    &&& match scale {
        ScaleMode::Equal12 => 0 <= note.semitone < 12,
        ScaleMode::BohlenPierce13 => 0 <= note.semitone < 13,
    }
}

proof fn lemma_time_grows(events: Seq<SmfEventView>, a: int, b: int)
    requires
        0 <= a <= b,
    ensures
        0 <= time_after(events, a) <= time_after(events, b),
    decreases b,
{
    if a < b {
        lemma_time_grows(events, a, b - 1);
    } else if a > 0 {
        lemma_time_grows(events, a - 1, b - 1);
    }
}

proof fn lemma_scan_step(events: Seq<SmfEventView>, count: int)
    requires
        0 < count <= events.len(),
    ensures
        scanned(events.take(count)) == scanned(events.take(count - 1)).after(events[count - 1]),
{
    assert(events.take(count).drop_last() =~= events.take(count - 1));
    assert(events.take(count).last() == events[count - 1]);
}

/// The time is counted from event to event.
proof fn lemma_scan_time(events: Seq<SmfEventView>, count: int)
    requires
        0 <= count <= events.len(),
        time_after(events, events.len() as int) <= u32::MAX,
    ensures
        scanned(events.take(count)).at == time_after(events, count),
    decreases count,
{
    lemma_time_grows(events, count, events.len() as int);
    if count > 0 {
        lemma_scan_time(events, count - 1);
        lemma_scan_step(events, count);
    } else {
        assert(events.take(0) =~= Seq::<SmfEventView>::empty());
    }
}

/// A note that was started sounds until it is ended.
proof fn lemma_goes_on(
    events: Seq<SmfEventView>,
    i: int,
    count: int,
    channel: int,
    key: int,
    velocity: int,
)
    requires
        0 <= i < count <= events.len(),
        0 <= channel < 16 && 0 <= key < 128 && 1 <= velocity < 128,
        says(events[i], 0x90 + channel, key, velocity),
        forall|m: int| i < m < count ==> !concerns(#[trigger] events[m], channel, key),
        time_after(events, events.len() as int) <= u32::MAX,
    ensures
        ({
            let filed = (channel * 256 + key) as u32;
            let scan = scanned(events.take(count));
            &&& scan.sounding.dom().contains(filed)
            &&& scan.sounding[filed] == (time_after(events, i + 1) as u32, velocity as u8)
        }),
    decreases count,
{
    lemma_scan_step(events, count);
    lemma_scan_time(events, count);
    lemma_scan_time(events, count - 1);
    if i < count - 1 {
        lemma_goes_on(events, i, count - 1, channel, key, velocity);
        assert(!concerns(events[count - 1], channel, key));
    }
}

/// Notes that have ended stay.
proof fn lemma_notes_stay(events: Seq<SmfEventView>, a: int, b: int)
    requires
        0 <= a <= b <= events.len(),
    ensures
        scanned(events.take(a)).notes.len() <= scanned(events.take(b)).notes.len(),
        forall|k: int|
            0 <= k < scanned(events.take(a)).notes.len() ==> (#[trigger] scanned(
                events.take(b),
            ).notes[k]) == scanned(events.take(a)).notes[k],
    decreases b,
{
    if a < b {
        lemma_notes_stay(events, a, b - 1);
        lemma_scan_step(events, b);
    }
}

/// A note that is started and ended is read, with its times, its key and its
/// velocity.
proof fn lemma_note_is_scanned(
    events: Seq<SmfEventView>,
    i: int,
    j: int,
    channel: int,
    key: int,
    velocity: int,
) -> (raw: RawNote)
    requires
        sounds(events, i, j, channel, key, velocity),
        time_after(events, events.len() as int) <= u32::MAX,
    ensures
        parsed(events).notes.contains(raw),
        raw.start == time_after(events, i + 1),
        raw.end == later(time_after(events, j + 1) as u64, raw.start),
        raw.key == key,
        raw.velocity == velocity,
{
    broadcast use vstd::seq_lib::group_to_multiset_ensures;

    lemma_goes_on(events, i, j, channel, key, velocity);
    lemma_scan_step(events, j + 1);
    lemma_scan_time(events, j + 1);
    lemma_scan_time(events, j);
    lemma_time_grows(events, i + 1, events.len() as int);
    lemma_time_grows(events, j + 1, events.len() as int);
    let before = scanned(events.take(j));
    let after = scanned(events.take(j + 1));
    let raw = RawNote {
        start: time_after(events, i + 1) as u32,
        end: later(time_after(events, j + 1) as u64, time_after(events, i + 1) as u32),
        key: key as u8,
        velocity: velocity as u8,
    };
    assert(after.notes == before.notes.push(raw));
    lemma_notes_stay(events, j + 1, events.len() as int);
    assert(events.take(events.len() as int) =~= events);
    let all = scanned(events).notes;
    assert(all[before.notes.len() as int] == raw);
    assert(all.contains(raw));
    stable_sort_orders(all);
    assert(all.to_multiset().count(raw) > 0);
    assert(stable_sorted(all).contains(raw));
    raw
}

/// A track with notes is kept.
proof fn lemma_track_is_kept(tracks: Seq<Seq<SmfEventView>>, t: int) -> (k: int)
    requires
        0 <= t < tracks.len(),
        is_kept(parsed(tracks[t])),
    ensures
        0 <= k < kept_tracks(tracks).len(),
        kept_tracks(tracks)[k] == parsed(tracks[t]),
    decreases tracks.len(),
{
    let shorter = tracks.drop_last();
    if t < shorter.len() {
        lemma_track_is_kept(shorter, t)
    } else {
        kept_tracks(shorter).len() as int
    }
}

/// The notes of a file track come behind those that are there.
proof fn lemma_put(
    base: LayoutView,
    raw: Seq<RawNote>,
    track: usize,
    lane: usize,
    fixed: bool,
    resolution: u16,
    scale: ScaleMode,
)
    ensures
        ({
            let after = base.with_notes(raw, track, lane, fixed, resolution, scale);
            &&& after.notes.len() == base.notes.len() + raw.len()
            &&& after.next_track == base.next_track
            &&& after.pending == base.pending
            &&& forall|k: int|
                0 <= k < base.notes.len() ==> (#[trigger] after.notes[k]) == base.notes[k]
            &&& forall|r: int|
                0 <= r < raw.len() ==> ({
                    let note = #[trigger] after.notes[base.notes.len() + r];
                    &&& note == placed_note(raw[r], track, note.lane, resolution, scale)
                    &&& fixed ==> note.lane == lane
                })
        }),
    decreases raw.len(),
{
    if raw.len() > 0 {
        let shorter = raw.drop_last();
        lemma_put(base, shorter, track, lane, fixed, resolution, scale);
        let before = base.with_notes(shorter, track, lane, fixed, resolution, scale);
        let after = base.with_notes(raw, track, lane, fixed, resolution, scale);
        assert forall|r: int| 0 <= r < raw.len() implies ({
            let note = #[trigger] after.notes[base.notes.len() + r];
            &&& note == placed_note(raw[r], track, note.lane, resolution, scale)
            &&& fixed ==> note.lane == lane
        }) by {
            if r < shorter.len() {
                assert(after.notes[base.notes.len() + r] == before.notes[base.notes.len() + r]);
            }
        }
    }
}

/// Every note of a file track is laid out, on the lane of the track's name if
/// there is one.
proof fn lemma_laid_out_holds(
    tracks: Seq<ParsedView>,
    k: int,
    r: int,
    resolution: u16,
    scale: ScaleMode,
) -> (at: int)
    requires
        0 <= k < tracks.len(),
        0 <= r < tracks[k].notes.len(),
    ensures
        0 <= at < laid_out(tracks, resolution, scale).notes.len(),
        ({
            let note = laid_out(tracks, resolution, scale).notes[at];
            &&& note == placed_note(tracks[k].notes[r], note.track, note.lane, resolution, scale)
            &&& tracks[k].name matches Some(cell) ==> (note.track, note.lane) == cell
        }),
    decreases tracks.len(),
{
    let shorter = tracks.drop_last();
    let before = laid_out(shorter, resolution, scale);
    let last = tracks.last();
    let fixed = last.name is Some;
    let (track, lane) = match last.name {
        Some(cell) => cell,
        None => (before.next_track, 0usize),
    };
    let base = if fixed {
        before
    } else {
        LayoutView { next_track: next_index(before.next_track), ..before }
    };
    lemma_put(base, last.notes, track, lane, fixed, resolution, scale);
    if k < shorter.len() {
        let at = lemma_laid_out_holds(shorter, k, r, resolution, scale);
        assert(laid_out(tracks, resolution, scale).notes[at] == before.notes[at]);
        at
    } else {
        before.notes.len() + r
    }
}

proof fn lemma_groups_append(
    base: RestoreView,
    groups: Seq<GroupView>,
    track: usize,
    end: u64,
    resolution: u16,
)
    ensures
        ({
            let after = base.with_groups(groups, track, end, resolution);
            &&& base.notes.len() <= after.notes.len()
            &&& forall|k: int|
                0 <= k < base.notes.len() ==> (#[trigger] after.notes[k]) == base.notes[k]
        }),
    decreases groups.len(),
{
    if groups.len() > 0 {
        lemma_groups_append(base, groups.drop_last(), track, end, resolution);
    }
}

/// The blocks of controllers come behind the notes.
proof fn lemma_restored_append(
    pending: Seq<PendingView>,
    layout: LayoutView,
    end: u64,
    resolution: u16,
)
    ensures
        ({
            let after = restored(pending, layout, end, resolution);
            &&& layout.notes.len() <= after.notes.len()
            &&& forall|k: int|
                0 <= k < layout.notes.len() ==> (#[trigger] after.notes[k]) == layout.notes[k]
        }),
    decreases pending.len(),
{
    if pending.len() > 0 {
        let before = restored(pending.drop_last(), layout, end, resolution);
        let waiting = pending.last();
        lemma_restored_append(pending.drop_last(), layout, end, resolution);
        lemma_groups_append(
            RestoreView {
                next_lane: used_lanes(layout.log, waiting.track),
                named: waiting.lane,
                ..before
            },
            waiting.groups,
            waiting.track,
            end,
            resolution,
        );
    }
}

/// Times of a file are read to scale: whole quarter notes as whole quarter notes,
/// and everything else as the position that is nearest.
pub proof fn times_are_to_scale(ticks: int, resolution: u16)
    requires
        resolution > 0,
        ticks >= 0,
    ensures
        is_nearest(library_ticks(ticks, resolution), ticks, resolution as int),
        library_ticks(ticks * resolution, resolution) == ticks * 33600,
        library_ticks(ticks, resolution) >= 0,
{
    let r = resolution as int;
    let x = ticks * 33600;
    let q = library_ticks(ticks, resolution);
    vstd::arithmetic::div_mod::lemma_fundamental_div_mod(2 * x + r, 2 * r);
    assert(q == (2 * x + r) / (2 * r));
    let rest = (2 * x + r) % (2 * r);
    assert(2 * x + r == 2 * (q * r) + rest) by (nonlinear_arith)
        requires
            2 * x + r == (2 * r) * q + rest,
    ;
    assert(q >= 0) by (nonlinear_arith)
        requires
            2 * x + r == 2 * (q * r) + rest,
            0 <= rest < 2 * r,
            x >= 0,
            r > 0,
    ;
    assert((ticks * r) * 33600 == (ticks * 33600) * r) by (nonlinear_arith);
    assert(ticks * r >= 0) by (nonlinear_arith)
        requires
            ticks >= 0,
            r > 0,
    ;
    crate::time::lemma_nearest_of_multiple(ticks * 33600, r);
}

/// Every note that a file starts and ends is read: at the nearest position, with
/// the nearest length, at least one tick of the file, and with its key and its
/// velocity. If the track has the name of a lane, the note lies on that lane.
pub proof fn a_note_of_a_file_is_read(
    file: SmfView,
    scale: ScaleMode,
    t: int,
    i: int,
    j: int,
    channel: int,
    key: int,
    velocity: int,
) -> (n: int)
    requires
        file.resolution matches Some(resolution) && resolution > 0,
        0 <= t < file.tracks.len(),
        sounds(file.tracks[t], i, j, channel, key, velocity),
        time_after(file.tracks[t], file.tracks[t].len() as int) <= u32::MAX,
    ensures
        0 <= n < imported(file, scale).notes.len(),
        ({
            let note = imported(file, scale).notes[n];
            let resolution = file.resolution->0 as int;
            let start = time_after(file.tracks[t], i + 1);
            let end = time_after(file.tracks[t], j + 1);
            &&& is_nearest(note.start_tick as int, start, resolution)
            &&& start < end ==> is_nearest(note.duration as int, end - start, resolution)
            &&& start == end ==> is_nearest(note.duration as int, 1, resolution)
            &&& has_key(note, key, scale)
            &&& note.velocity == velocity
            &&& note.velocity_to == velocity
            &&& scanned(file.tracks[t]).name matches Some(cell) ==> (note.track, note.lane) == cell
        }),
{
    broadcast use vstd::seq_lib::group_to_multiset_ensures;

    let resolution = file.resolution->0;
    let events = file.tracks[t];
    let raw = lemma_note_is_scanned(events, i, j, channel, key, velocity);
    let track = parsed(events);
    let r = choose|r: int| 0 <= r < track.notes.len() && track.notes[r] == raw;
    let tracks = kept_tracks(file.tracks);
    let k = lemma_track_is_kept(file.tracks, t);
    let at = lemma_laid_out_holds(tracks, k, r, resolution, scale);
    let layout = laid_out(tracks, resolution, scale);
    let end = file_end(tracks);
    let all = restored(layout.pending, layout, end, resolution);
    lemma_restored_append(layout.pending, layout, end, resolution);
    let note = layout.notes[at];
    assert(all.notes[at] == note);
    assert(all.notes.contains(note));
    stable_sort_orders(all.notes);
    assert(all.notes.to_multiset().count(note) > 0);
    let read = imported(file, scale).notes;
    assert(read.contains(note));
    let n = choose|n: int| 0 <= n < read.len() && read[n] == note;
    let start = time_after(events, i + 1);
    let stop = time_after(events, j + 1);
    lemma_time_grows(events, i + 1, j + 1);
    lemma_time_grows(events, j + 1, events.len() as int);
    lemma_read_note(raw, note, resolution, scale);
    n
}

/// What becomes of the times and the key of a note.
proof fn lemma_read_note(raw: RawNote, note: Note, resolution: u16, scale: ScaleMode)
    requires
        resolution > 0,
        raw.start < raw.end <= 0x1_0000_0000,
        1 <= raw.velocity < 128,
        raw.key < 128,
        note == placed_note(raw, note.track, note.lane, resolution, scale),
    ensures
        is_nearest(note.start_tick as int, raw.start as int, resolution as int),
        is_nearest(note.duration as int, raw.end - raw.start, resolution as int),
        has_key(note, raw.key as int, scale),
        note.velocity == raw.velocity,
        note.velocity_to == raw.velocity,
{
    let length = raw.end - raw.start;
    times_are_to_scale(raw.start as int, resolution);
    times_are_to_scale(length, resolution);
    let start = library_ticks(raw.start as int, resolution);
    let duration = library_ticks(length, resolution);
    let r = resolution as int;
    assert(start <= 0x1_0000_0000 * 33600 + 1) by (nonlinear_arith)
        requires
            2 * (start * r - raw.start * 33600) <= r,
            r > 0,
            0 <= raw.start <= 0x1_0000_0000,
    ;
    assert(duration <= 0x1_0000_0000 * 33600 + 1) by (nonlinear_arith)
        requires
            2 * (duration * r - length * 33600) <= r,
            r > 0,
            0 <= length <= 0x1_0000_0000,
    ;
}

/// Whether an event sets a controller, on any channel.
pub open spec fn sets(event: SmfEventView, number: int, value: int) -> bool {
    event.kind matches SmfKindView::Channel(bytes) && bytes.len() == 3 && 0xB0 <= bytes[0] < 0xC0
        && bytes[1] == number && bytes[2] == value
}

/// Whether an event sets a controller to anything.
pub open spec fn is_set(event: SmfEventView, number: int) -> bool {
    event.kind matches SmfKindView::Channel(bytes) && bytes.len() >= 3 && 0xB0 <= bytes[0] < 0xC0
        && bytes[1] == number
}

/// The events of a controller in the first events of a track.
spec fn controls_among(events: Seq<SmfEventView>, count: int, number: u8) -> Seq<(u32, u8)> {
    events_of(scanned(events.take(count)).ccs, number)
}

proof fn lemma_control_step(events: Seq<SmfEventView>, count: int, number: u8)
    requires
        0 < count <= events.len(),
        number < 120,
        time_after(events, events.len() as int) <= u32::MAX,
    ensures
        ({
            let before = controls_among(events, count - 1, number);
            let now = controls_among(events, count, number);
            let event = events[count - 1];
            &&& !is_set(event, number as int) ==> now == before
            &&& forall|value: int| #[trigger]
                sets(event, number as int, value) ==> now == before.push(
                    (time_after(events, count) as u32, value as u8),
                )
        }),
{
    lemma_scan_step(events, count);
    lemma_scan_time(events, count);
    lemma_scan_time(events, count - 1);
    let before = scanned(events.take(count - 1));
    let now = scanned(events.take(count));
    if now.ccs != before.ccs {
        assert(now.ccs.drop_last() =~= before.ccs);
    }
}

/// Events of a controller stay where they are.
proof fn lemma_controls_stay(events: Seq<SmfEventView>, a: int, b: int, number: u8)
    requires
        0 <= a <= b <= events.len(),
    ensures
        controls_among(events, a, number).len() <= controls_among(events, b, number).len(),
        forall|k: int|
            0 <= k < controls_among(events, a, number).len() ==> (#[trigger] controls_among(
                events,
                b,
                number,
            )[k]) == controls_among(events, a, number)[k],
    decreases b,
{
    if a < b {
        lemma_controls_stay(events, a, b - 1, number);
        lemma_scan_step(events, b);
        let before = scanned(events.take(b - 1));
        let now = scanned(events.take(b));
        if now.ccs != before.ccs {
            assert(now.ccs.drop_last() =~= before.ccs);
        }
    }
}

proof fn lemma_controls_pause(events: Seq<SmfEventView>, a: int, b: int, number: u8)
    requires
        0 <= a <= b <= events.len(),
        number < 120,
        time_after(events, events.len() as int) <= u32::MAX,
        forall|m: int| a <= m < b ==> !is_set(#[trigger] events[m], number as int),
    ensures
        controls_among(events, b, number) == controls_among(events, a, number),
    decreases b,
{
    if a < b {
        lemma_controls_pause(events, a, b - 1, number);
        lemma_control_step(events, b, number);
        assert(!is_set(events[b - 1], number as int));
    }
}

/// A controller that changes is among the groups.
proof fn lemma_group_is_there(ccs: Seq<RawCc>, number: u8, limit: int) -> (g: int)
    requires
        number < limit <= 120,
        changes(events_of(ccs, number)),
    ensures
        0 <= g < changing_groups(ccs, limit).len(),
        changing_groups(ccs, limit)[g] == (GroupView { number, events: events_of(ccs, number) }),
    decreases limit,
{
    if number == limit - 1 {
        changing_groups(ccs, limit - 1).len() as int
    } else {
        lemma_group_is_there(ccs, number, limit - 1)
    }
}

/// The controllers of a track wait to be restored.
proof fn lemma_groups_wait(tracks: Seq<ParsedView>, k: int, resolution: u16, scale: ScaleMode) -> (
    p: int)
    requires
        0 <= k < tracks.len(),
        tracks[k].groups.len() > 0,
    ensures
        0 <= p < laid_out(tracks, resolution, scale).pending.len(),
        laid_out(tracks, resolution, scale).pending[p].groups == tracks[k].groups,
        tracks[k].name matches Some(cell) ==> laid_out(tracks, resolution, scale).pending[p].track
            == cell.0,
    decreases tracks.len(),
{
    let shorter = tracks.drop_last();
    let before = laid_out(shorter, resolution, scale);
    let last = tracks.last();
    let fixed = last.name is Some;
    let (track, lane) = match last.name {
        Some(cell) => cell,
        None => (before.next_track, 0usize),
    };
    let base = if fixed {
        before
    } else {
        LayoutView { next_track: next_index(before.next_track), ..before }
    };
    lemma_put(base, last.notes, track, lane, fixed, resolution, scale);
    if k < shorter.len() {
        lemma_groups_wait(shorter, k, resolution, scale)
    } else {
        before.pending.len() as int
    }
}

/// The block that an event starts is among the blocks.
proof fn lemma_block_is_there(events: Seq<(u32, u8)>, index: int, count: int, end: u64) -> (b: int)
    requires
        0 <= index < count <= events.len(),
        block_at(events, index, end) is Some,
    ensures
        0 <= b < blocks_among(events, count, end).len(),
        blocks_among(events, count, end)[b] == block_at(events, index, end)->0,
    decreases count,
{
    if index == count - 1 {
        blocks_among(events, count - 1, end).len() as int
    } else {
        lemma_block_is_there(events, index, count - 1, end)
    }
}

/// What is restored of controllers stays.
proof fn lemma_lanes_append(
    base: RestoreView,
    groups: Seq<GroupView>,
    track: usize,
    end: u64,
    resolution: u16,
)
    ensures
        ({
            let after = base.with_groups(groups, track, end, resolution);
            &&& base.lane_ccs.len() <= after.lane_ccs.len()
            &&& forall|k: int|
                0 <= k < base.lane_ccs.len() ==> (#[trigger] after.lane_ccs[k])
                    == base.lane_ccs[k]
        }),
    decreases groups.len(),
{
    if groups.len() > 0 {
        lemma_lanes_append(base, groups.drop_last(), track, end, resolution);
    }
}

/// The block of a controller becomes a note on a lane of that controller.
proof fn lemma_group_is_restored(
    base: RestoreView,
    groups: Seq<GroupView>,
    g: int,
    block: Block,
    b: int,
    track: usize,
    end: u64,
    resolution: u16,
) -> (found: (int, int))
    requires
        0 <= g < groups.len(),
        0 <= b < blocks_of(groups[g].events, end).len(),
        blocks_of(groups[g].events, end)[b] == block,
    ensures
        ({
            let after = base.with_groups(groups, track, end, resolution);
            &&& 0 <= found.0 < after.notes.len()
            &&& 0 <= found.1 < after.lane_ccs.len()
            &&& after.notes[found.0] == block_note(
                block,
                track,
                after.notes[found.0].lane,
                resolution,
            )
            &&& after.lane_ccs[found.1] == (track, after.notes[found.0].lane, groups[g].number)
        }),
    decreases groups.len(),
{
    let shorter = groups.drop_last();
    let before = base.with_groups(shorter, track, end, resolution);
    let last = groups.last();
    if g < shorter.len() {
        lemma_group_is_restored(base, shorter, g, block, b, track, end, resolution)
    } else {
        (before.notes.len() + b, before.lane_ccs.len() as int)
    }
}

proof fn lemma_pending_is_restored(
    pending: Seq<PendingView>,
    p: int,
    g: int,
    block: Block,
    b: int,
    layout: LayoutView,
    end: u64,
    resolution: u16,
) -> (found: (int, int))
    requires
        0 <= p < pending.len(),
        0 <= g < pending[p].groups.len(),
        0 <= b < blocks_of(pending[p].groups[g].events, end).len(),
        blocks_of(pending[p].groups[g].events, end)[b] == block,
    ensures
        ({
            let after = restored(pending, layout, end, resolution);
            let track = pending[p].track;
            &&& 0 <= found.0 < after.notes.len()
            &&& 0 <= found.1 < after.lane_ccs.len()
            &&& after.notes[found.0] == block_note(
                block,
                track,
                after.notes[found.0].lane,
                resolution,
            )
            &&& after.lane_ccs[found.1] == (
                track,
                after.notes[found.0].lane,
                pending[p].groups[g].number,
            )
        }),
    decreases pending.len(),
{
    let shorter = pending.drop_last();
    let waiting = pending.last();
    let base = RestoreView {
        next_lane: used_lanes(layout.log, waiting.track),
        named: waiting.lane,
        ..restored(shorter, layout, end, resolution)
    };
    if p < shorter.len() {
        let found = lemma_pending_is_restored(shorter, p, g, block, b, layout, end, resolution);
        lemma_groups_append(base, waiting.groups, waiting.track, end, resolution);
        lemma_lanes_append(base, waiting.groups, waiting.track, end, resolution);
        found
    } else {
        lemma_group_is_restored(
            base,
            waiting.groups,
            g,
            block,
            b,
            waiting.track,
            end,
            resolution,
        )
    }
}

/// A controller that a file sets to a value, and to another one somewhere in the
/// same track, is read as a block that lasts until the controller is set again: at
/// the nearest position, with the nearest length and the value as its velocity, on
/// a lane that is listed with the controller's number.
pub proof fn a_controller_of_a_file_is_read(
    file: SmfView,
    scale: ScaleMode,
    t: int,
    i: int,
    j: int,
    other: int,
    number: int,
    value: int,
    next: int,
    unlike: int,
) -> (found: (int, int))
    requires
        file.resolution matches Some(resolution) && resolution > 0,
        0 <= t < file.tracks.len(),
        0 <= i < j < file.tracks[t].len(),
        0 <= other < file.tracks[t].len(),
        0 <= number < 120 && 1 <= value < 128 && 0 <= next < 128 && 0 <= unlike < 128,
        sets(file.tracks[t][i], number, value),
        sets(file.tracks[t][j], number, next),
        sets(file.tracks[t][other], number, unlike),
        unlike != value,
        forall|m: int| i < m < j ==> !is_set(#[trigger] file.tracks[t][m], number),
        time_after(file.tracks[t], i + 1) < time_after(file.tracks[t], j + 1),
        time_after(file.tracks[t], file.tracks[t].len() as int) <= u32::MAX,
    ensures
        0 <= found.0 < imported(file, scale).notes.len(),
        0 <= found.1 < imported(file, scale).lane_ccs.len(),
        ({
            let note = imported(file, scale).notes[found.0];
            let resolution = file.resolution->0 as int;
            let start = time_after(file.tracks[t], i + 1);
            let end = time_after(file.tracks[t], j + 1);
            &&& is_nearest(note.start_tick as int, start, resolution)
            &&& is_nearest(note.duration as int, end - start, resolution)
            &&& note.velocity == value
            &&& note.velocity_to == value
            &&& note.semitone == 0 && note.octave == 4
            &&& imported(file, scale).lane_ccs[found.1] == (note.track, note.lane, number as u8)
            &&& scanned(file.tracks[t]).name matches Some(cell) ==> note.track == cell.0
        }),
{
    broadcast use vstd::seq_lib::group_to_multiset_ensures;

    let resolution = file.resolution->0;
    let track = file.tracks[t];
    let count = track.len() as int;
    let cc = number as u8;
    lemma_time_grows(track, i + 1, j + 1);
    lemma_time_grows(track, j + 1, count);
    let start = time_after(track, i + 1);
    let stop = time_after(track, j + 1);
    let index = controls_among(track, i, cc).len() as int;
    lemma_control_step(track, i + 1, cc);
    lemma_controls_pause(track, i + 1, j, cc);
    lemma_control_step(track, j + 1, cc);
    lemma_controls_stay(track, i + 1, count, cc);
    lemma_controls_stay(track, j + 1, count, cc);
    lemma_control_step(track, other + 1, cc);
    lemma_controls_stay(track, other + 1, count, cc);
    assert(track.take(count) =~= track);
    let events = events_of(scanned(track).ccs, cc);
    assert(events[index] == (start as u32, value as u8)) by {
        assert(controls_among(track, i + 1, cc)[index] == (start as u32, value as u8));
    }
    assert(events[index + 1] == (stop as u32, next as u8)) by {
        assert(controls_among(track, j + 1, cc)[index + 1] == (stop as u32, next as u8));
    }
    let differs = controls_among(track, other, cc).len() as int;
    assert(events[differs].1 == unlike) by {
        assert(controls_among(track, other + 1, cc)[differs].1 == unlike);
    }
    assert(changes(events)) by {
        if events[0].1 == value {
            assert(events[differs].1 != events[0].1);
        } else {
            assert(events[index].1 != events[0].1);
        }
    }
    let g = lemma_group_is_there(scanned(track).ccs, cc, 120);
    let tracks = kept_tracks(file.tracks);
    let k = lemma_track_is_kept(file.tracks, t);
    let p = lemma_groups_wait(tracks, k, resolution, scale);
    let layout = laid_out(tracks, resolution, scale);
    let end = file_end(tracks);
    let block = Block { start: start as u32, end: stop as u64, value: value as u8 };
    assert(block_at(events, index, end) == Some(block));
    let b = lemma_block_is_there(events, index, events.len() as int, end);
    let found = lemma_pending_is_restored(
        layout.pending,
        p,
        g,
        block,
        b,
        layout,
        end,
        resolution,
    );
    let all = restored(layout.pending, layout, end, resolution);
    let note = all.notes[found.0];
    assert(all.notes.contains(note));
    stable_sort_orders(all.notes);
    assert(all.notes.to_multiset().count(note) > 0);
    let read = imported(file, scale).notes;
    assert(read.contains(note));
    let n = choose|n: int| 0 <= n < read.len() && read[n] == note;
    lemma_read_times(start, stop - start, resolution);
    (n, found.1)
}

/// What becomes of times.
proof fn lemma_read_times(start: int, length: int, resolution: u16)
    requires
        resolution > 0,
        0 <= start <= 0x1_0000_0000,
        0 <= length <= 0x1_0000_0000,
    ensures
        is_nearest(library_ticks(start, resolution) as i64 as int, start, resolution as int),
        is_nearest(library_ticks(length, resolution) as i64 as int, length, resolution as int),
{
    times_are_to_scale(start, resolution);
    times_are_to_scale(length, resolution);
    let a = library_ticks(start, resolution);
    let b = library_ticks(length, resolution);
    let r = resolution as int;
    assert(a <= 0x1_0000_0000 * 33600 + 1) by (nonlinear_arith)
        requires
            2 * (a * r - start * 33600) <= r,
            r > 0,
            0 <= start <= 0x1_0000_0000,
    ;
    assert(b <= 0x1_0000_0000 * 33600 + 1) by (nonlinear_arith)
        requires
            2 * (b * r - length * 33600) <= r,
            r > 0,
            0 <= length <= 0x1_0000_0000,
    ;
}

/// Whether the first events of a track tell no tempo.
pub open spec fn no_tempo(events: Seq<SmfEventView>, count: int) -> bool {
    forall|m: int| 0 <= m < count ==> !((#[trigger] events[m]).kind is Tempo)
}

/// Whether the first events of a track tell no time signature.
pub open spec fn no_signature(events: Seq<SmfEventView>, count: int) -> bool {
    forall|m: int| 0 <= m < count ==> !((#[trigger] events[m]).kind is TimeSignature)
}

proof fn lemma_scan_meter(events: Seq<SmfEventView>, count: int)
    requires
        0 <= count <= events.len(),
    ensures
        no_tempo(events, count) ==> scanned(events.take(count)).tempo is None,
        no_signature(events, count) ==> scanned(events.take(count)).signature is None,
    decreases count,
{
    if count > 0 {
        lemma_scan_meter(events, count - 1);
        lemma_scan_step(events, count);
    } else {
        assert(events.take(0) =~= Seq::<SmfEventView>::empty());
    }
}

proof fn lemma_meter_stays(events: Seq<SmfEventView>, a: int, b: int)
    requires
        0 <= a <= b <= events.len(),
    ensures
        scanned(events.take(a)).tempo is Some ==> scanned(events.take(b)).tempo == scanned(
            events.take(a),
        ).tempo,
        scanned(events.take(a)).signature is Some ==> scanned(events.take(b)).signature == scanned(
            events.take(a),
        ).signature,
    decreases b,
{
    if a < b {
        lemma_meter_stays(events, a, b - 1);
        lemma_scan_step(events, b);
    }
}

proof fn lemma_first_meter(tracks: Seq<Seq<SmfEventView>>, t: int)
    requires
        0 <= t < tracks.len(),
    ensures
        scanned(tracks[t]).tempo is Some && (forall|s: int|
            0 <= s < t ==> no_tempo(#[trigger] tracks[s], tracks[s].len() as int))
            ==> first_tempo(tracks) == scanned(tracks[t]).tempo,
        scanned(tracks[t]).signature is Some && (forall|s: int|
            0 <= s < t ==> no_signature(#[trigger] tracks[s], tracks[s].len() as int))
            ==> first_signature(tracks) == scanned(tracks[t]).signature,
    decreases tracks.len(),
{
    let shorter = tracks.drop_last();
    if t < shorter.len() {
        lemma_first_meter(shorter, t);
        assert forall|s: int| 0 <= s < t implies #[trigger] shorter[s] == tracks[s] by {}
    } else {
        if forall|s: int| 0 <= s < t ==> no_tempo(#[trigger] tracks[s], tracks[s].len() as int) {
            assert forall|s: int| 0 <= s < shorter.len() implies no_tempo(
                #[trigger] shorter[s],
                shorter[s].len() as int,
            ) by {
                assert(shorter[s] == tracks[s]);
            }
            lemma_no_tempo(shorter);
        }
        if forall|s: int|
            0 <= s < t ==> no_signature(#[trigger] tracks[s], tracks[s].len() as int) {
            assert forall|s: int| 0 <= s < shorter.len() implies no_signature(
                #[trigger] shorter[s],
                shorter[s].len() as int,
            ) by {
                assert(shorter[s] == tracks[s]);
            }
            lemma_no_signature(shorter);
        }
    }
}

proof fn lemma_no_tempo(tracks: Seq<Seq<SmfEventView>>)
    requires
        forall|s: int|
            0 <= s < tracks.len() ==> no_tempo(#[trigger] tracks[s], tracks[s].len() as int),
    ensures
        first_tempo(tracks) is None,
    decreases tracks.len(),
{
    if tracks.len() > 0 {
        let shorter = tracks.drop_last();
        assert forall|s: int| 0 <= s < shorter.len() implies no_tempo(
            #[trigger] shorter[s],
            shorter[s].len() as int,
        ) by {
            assert(shorter[s] == tracks[s]);
        }
        lemma_no_tempo(shorter);
        let last = tracks[tracks.len() - 1];
        lemma_scan_meter(last, last.len() as int);
        assert(last.take(last.len() as int) =~= last);
    }
}

proof fn lemma_no_signature(tracks: Seq<Seq<SmfEventView>>)
    requires
        forall|s: int|
            0 <= s < tracks.len() ==> no_signature(#[trigger] tracks[s], tracks[s].len() as int),
    ensures
        first_signature(tracks) is None,
    decreases tracks.len(),
{
    if tracks.len() > 0 {
        let shorter = tracks.drop_last();
        assert forall|s: int| 0 <= s < shorter.len() implies no_signature(
            #[trigger] shorter[s],
            shorter[s].len() as int,
        ) by {
            assert(shorter[s] == tracks[s]);
        }
        lemma_no_signature(shorter);
        let last = tracks[tracks.len() - 1];
        lemma_scan_meter(last, last.len() as int);
        assert(last.take(last.len() as int) =~= last);
    }
}

/// The tempo is that of the first event of the file that tells one: as many beats
/// as fit into a minute, and no fewer than 20 and no more than 300.
pub proof fn the_first_tempo_counts(file: SmfView, scale: ScaleMode, t: int, i: int, us: u32)
    requires
        0 <= t < file.tracks.len(),
        0 <= i < file.tracks[t].len(),
        file.tracks[t][i].kind == SmfKindView::Tempo(us),
        no_tempo(file.tracks[t], i),
        forall|s: int|
            0 <= s < t ==> no_tempo(#[trigger] file.tracks[s], file.tracks[s].len() as int),
    ensures
        imported(file, scale).tempo matches Some(tempo) && 20 <= tempo <= 300 && (if us <= 200_000 {
            tempo == 300
        } else if us >= 3_000_000 {
            tempo == 20
        } else {
            tempo * us <= 60_000_000 < (tempo + 1) * us
        }),
{
    let events = file.tracks[t];
    lemma_scan_meter(events, i);
    lemma_scan_step(events, i + 1);
    lemma_meter_stays(events, i + 1, events.len() as int);
    assert(events.take(events.len() as int) =~= events);
    lemma_first_meter(file.tracks, t);
    if us > 0 {
        let x = us as int;
        let q = 60_000_000int / x;
        vstd::arithmetic::div_mod::lemma_fundamental_div_mod(60_000_000, x);
        assert(q * x <= 60_000_000 < (q + 1) * x) by (nonlinear_arith)
            requires
                60_000_000 == x * q + 60_000_000int % x,
                0 <= 60_000_000int % x < x,
        ;
        assert(x <= 200_000 ==> q >= 300) by (nonlinear_arith)
            requires
                60_000_000 < (q + 1) * x,
                x > 0,
        ;
        assert(x >= 3_000_000 ==> q <= 20) by (nonlinear_arith)
            requires
                q * x <= 60_000_000,
                x > 0,
        ;
        assert(200_000 < x < 3_000_000 ==> 20 <= q <= 300) by (nonlinear_arith)
            requires
                q * x <= 60_000_000 < (q + 1) * x,
                x > 0,
        ;
    }
}

/// The time signature is that of the first event of the file that tells one: its
/// upper number, and two to the power of its lower one, up to 32.
pub proof fn the_first_signature_counts(
    file: SmfView,
    scale: ScaleMode,
    t: int,
    i: int,
    beats: u8,
    power: u8,
    clicks: u8,
    parts: u8,
)
    requires
        0 <= t < file.tracks.len(),
        0 <= i < file.tracks[t].len(),
        file.tracks[t][i].kind == SmfKindView::TimeSignature(beats, power, clicks, parts),
        no_signature(file.tracks[t], i),
        forall|s: int|
            0 <= s < t ==> no_signature(#[trigger] file.tracks[s], file.tracks[s].len() as int),
    ensures
        imported(file, scale).time_signature matches Some(signature) && (beats > 0 ==> signature.0
            == beats) && (beats == 0 ==> signature.0 == 1) && (power <= 5 ==> signature.1
            == vstd::arithmetic::power2::pow2(power as nat)) && (power > 5 ==> signature.1 == 32),
{
    let events = file.tracks[t];
    lemma_scan_meter(events, i);
    lemma_scan_step(events, i + 1);
    lemma_meter_stays(events, i + 1, events.len() as int);
    assert(events.take(events.len() as int) =~= events);
    lemma_first_meter(file.tracks, t);
    vstd::arithmetic::power2::lemma2_to64();
}

/// A track of the file without the name of a lane gets a track of its own: no note
/// of a track before it lies there.
pub proof fn a_track_without_a_name_gets_its_own(
    tracks: Seq<ParsedView>,
    resolution: u16,
    scale: ScaleMode,
    a: int,
    b: int,
)
    requires
        tracks.len() > 0,
        tracks.last().name is None,
        0 <= a < laid_out(tracks.drop_last(), resolution, scale).notes.len(),
        0 <= b < tracks.last().notes.len(),
        laid_out(tracks.drop_last(), resolution, scale).next_track < usize::MAX,
    ensures
        ({
            let before = laid_out(tracks.drop_last(), resolution, scale).notes;
            let after = laid_out(tracks, resolution, scale).notes;
            &&& after.len() == before.len() + tracks.last().notes.len()
            &&& after[a] == before[a]
            &&& after[a].track < after[before.len() + b].track
            &&& after[before.len() as int].track == after[before.len() + b].track
        }),
{
    let before = laid_out(tracks.drop_last(), resolution, scale);
    let last = tracks.last();
    let base = LayoutView { next_track: next_index(before.next_track), ..before };
    lemma_put(base, last.notes, before.next_track, 0, false, resolution, scale);
    lemma_tracks_below(tracks.drop_last(), resolution, scale);
    let after = laid_out(tracks, resolution, scale).notes;
    let first: int = 0;
    assert(after[before.notes.len() + first].track == before.next_track);
    assert(after[before.notes.len() + b].track == before.next_track);
}

/// The next track is behind all tracks that notes lie on.
proof fn lemma_tracks_below(tracks: Seq<ParsedView>, resolution: u16, scale: ScaleMode)
    ensures
        ({
            let layout = laid_out(tracks, resolution, scale);
            layout.next_track < usize::MAX ==> forall|k: int|
                0 <= k < layout.notes.len() ==> (#[trigger] layout.notes[k]).track
                    < layout.next_track
        }),
    decreases tracks.len(),
{
    if tracks.len() > 0 {
        let shorter = tracks.drop_last();
        let before = laid_out(shorter, resolution, scale);
        let after = laid_out(tracks, resolution, scale);
        let last = tracks.last();
        let fixed = last.name is Some;
        let (track, lane) = match last.name {
            Some(cell) => cell,
            None => (before.next_track, 0usize),
        };
        let base = if fixed {
            before
        } else {
            LayoutView { next_track: next_index(before.next_track), ..before }
        };
        lemma_tracks_below(shorter, resolution, scale);
        lemma_put(base, last.notes, track, lane, fixed, resolution, scale);
        assert forall|k: int|
            after.next_track < usize::MAX && 0 <= k < after.notes.len() implies (
        #[trigger] after.notes[k]).track < after.next_track by {
            if k < before.notes.len() {
                assert(after.notes[k] == before.notes[k]);
            } else {
                let r = k - before.notes.len();
                assert(after.notes[before.notes.len() + r].track == track);
            }
        }
    }
}

/// Whether a time of an exported file, with 960 ticks to a quarter note, is the one
/// nearest to a position.
pub open spec fn is_nearest_in_file(ticks: int, position: int) -> bool {
    -35 <= 2 * (35 * ticks - position) <= 35
}

/// Whether all notes come early enough for their distances to be written.
pub open spec fn all_come_early(notes: Seq<Note>) -> bool {
    forall|i: int|
        0 <= i < notes.len() ==> (#[trigger] notes[i]).start_tick <= 35 * 0xFFF_FFF0
            && notes[i].start_tick + notes[i].duration <= 35 * 0xFFF_FFF0
}

/// The messages of a note are among those of its lane, and all of those are of
/// notes.
proof fn lemma_messages_of_lane(
    performed: Seq<Note>,
    cell: (usize, usize),
    controller: Option<u8>,
    scale: ScaleMode,
)
    ensures
        forall|p: int, k: int|
            #![trigger note_messages(performed[p], controller, (cell.1 % 16) as u8, scale)[k]]
            0 <= p < performed.len() && performed[p].track == cell.0 && performed[p].lane == cell.1
                && 0 <= k < note_messages(
                performed[p],
                controller,
                (cell.1 % 16) as u8,
                scale,
            ).len() ==> cell_messages(performed, cell, controller, scale).contains(
                note_messages(performed[p], controller, (cell.1 % 16) as u8, scale)[k],
            ),
        forall|m: int|
            0 <= m < cell_messages(performed, cell, controller, scale).len() ==> exists|p: int|
                0 <= p < performed.len() && (#[trigger] performed[p]).track == cell.0
                    && performed[p].lane == cell.1 && note_messages(
                    performed[p],
                    controller,
                    (cell.1 % 16) as u8,
                    scale,
                ).contains(#[trigger] cell_messages(performed, cell, controller, scale)[m]),
    decreases performed.len(),
{
    if performed.len() > 0 {
        let shorter = performed.drop_last();
        let channel = (cell.1 % 16) as u8;
        let last = performed.last();
        lemma_messages_of_lane(shorter, cell, controller, scale);
        let before = cell_messages(shorter, cell, controller, scale);
        let now = cell_messages(performed, cell, controller, scale);
        let own = note_messages(last, controller, channel, scale);
        assert forall|p: int, k: int|
            #![trigger note_messages(performed[p], controller, channel, scale)[k]]
            0 <= p < performed.len() && performed[p].track == cell.0 && performed[p].lane == cell.1
                && 0 <= k < note_messages(performed[p], controller, channel, scale).len() implies
            now.contains(note_messages(performed[p], controller, channel, scale)[k]) by {
            let message = note_messages(performed[p], controller, channel, scale)[k];
            if p < shorter.len() {
                assert(shorter[p] == performed[p]);
                assert(note_messages(shorter[p], controller, channel, scale)[k] == message);
                assert(before.contains(message));
                let x = choose|x: int| 0 <= x < before.len() && before[x] == message;
                assert(now[x] == message);
            } else {
                assert(now[before.len() + k] == message);
            }
        }
        assert forall|m: int| 0 <= m < now.len() implies exists|p: int|
            0 <= p < performed.len() && (#[trigger] performed[p]).track == cell.0
                && performed[p].lane == cell.1 && note_messages(
                performed[p],
                controller,
                channel,
                scale,
            ).contains(#[trigger] now[m]) by {
            if m < before.len() {
                assert(now[m] == before[m]);
                let p = choose|p: int|
                    0 <= p < shorter.len() && (#[trigger] shorter[p]).track == cell.0
                        && shorter[p].lane == cell.1 && note_messages(
                        shorter[p],
                        controller,
                        channel,
                        scale,
                    ).contains(before[m]);
                assert(performed[p] == shorter[p]);
            } else {
                let p = performed.len() - 1;
                assert(own[m - before.len()] == now[m]);
                assert(performed[p] == last);
            }
        }
    }
}

/// Of messages that are kept, each was there; and a message that is not a release
/// is kept.
proof fn lemma_kept(events: Seq<OutEvent>)
    ensures
        forall|k: int|
            0 <= k < without_redundant_releases(events).len() ==> events.contains(
                #[trigger] without_redundant_releases(events)[k],
            ),
        forall|k: int|
            0 <= k < events.len() && !(is_controller(#[trigger] events[k]) && events[k].second == 0)
                ==> without_redundant_releases(events).contains(events[k]),
        forall|k: int|
            0 <= k < events.len() && is_controller(#[trigger] events[k]) ==> exists|m: int|
                0 <= m < without_redundant_releases(events).len() && is_controller(
                    #[trigger] without_redundant_releases(events)[m],
                ) && without_redundant_releases(events)[m].tick == events[k].tick
                    && without_redundant_releases(events)[m].first == events[k].first,
    decreases events.len(),
{
    if events.len() > 0 {
        let rest = events.skip(1);
        lemma_kept(rest);
        let before = without_redundant_releases(rest);
        let now = without_redundant_releases(events);
        let dropped = is_redundant(events[0], rest);
        let shift: int = if dropped {
            0
        } else {
            1
        };
        assert forall|k: int| 0 <= k < before.len() implies #[trigger] now[k + shift]
            == before[k] by {}
        assert forall|k: int| 0 <= k < now.len() implies events.contains(#[trigger] now[k]) by {
            if k >= shift {
                assert(before[k - shift] == now[k]);
                let x = choose|x: int| 0 <= x < rest.len() && rest[x] == before[k - shift];
                assert(events[x + 1] == now[k]);
            } else {
                assert(events[0] == now[k]);
            }
        }
        assert forall|k: int|
            0 <= k < events.len() && !(is_controller(#[trigger] events[k]) && events[k].second
                == 0) implies now.contains(events[k]) by {
            if k > 0 {
                assert(rest[k - 1] == events[k]);
                let x = choose|x: int| 0 <= x < before.len() && before[x] == rest[k - 1];
                assert(now[x + shift] == events[k]);
            } else {
                assert(now[0] == events[0]);
            }
        }
        assert forall|k: int| 0 <= k < events.len() && is_controller(#[trigger] events[k]) implies
            exists|m: int|
            0 <= m < now.len() && is_controller(#[trigger] now[m]) && now[m].tick == events[k].tick
                && now[m].first == events[k].first by {
            if k == 0 && !dropped {
                assert(now[0] == events[0]);
            } else {
                let x: int = if k > 0 {
                    k - 1
                } else {
                    lemma_set_again(rest, events[0].tick, events[0].first)
                };
                assert(is_controller(rest[x]));
                let m = choose|m: int|
                    0 <= m < before.len() && is_controller(#[trigger] before[m]) && before[m].tick
                        == rest[x].tick && before[m].first == rest[x].first;
                assert(now[m + shift] == before[m]);
            }
        }
    }
}

proof fn lemma_set_again(later: Seq<OutEvent>, tick: u64, number: u8) -> (at: int)
    requires
        set_again(later, tick, number),
    ensures
        0 <= at < later.len(),
        is_controller(later[at]),
        later[at].tick == tick,
        later[at].first == number,
    decreases later.len(),
{
    if is_controller(later[0]) && later[0].first == number {
        0
    } else {
        lemma_set_again(later.skip(1), tick, number) + 1
    }
}

/// The messages of a track come at their times.
proof fn lemma_track_times(
    editor: EditorView,
    performed: Seq<Note>,
    cell: (usize, usize),
    count: int,
)
    requires
        all_come_early(performed),
        0 <= count <= ordered_messages(
            performed,
            cell,
            editor.cc_at(cell.0 as int, cell.1 as int),
            editor.scale,
        ).len(),
    ensures
        ({
            let messages = ordered_messages(
                performed,
                cell,
                editor.cc_at(cell.0 as int, cell.1 as int),
                editor.scale,
            );
            let events = cell_track(editor, performed, cell);
            &&& events.len() == messages.len() + 2
            &&& time_after(events, count + 1) == if count == 0 {
                0
            } else {
                messages[count - 1].tick as int
            }
            &&& count > 0 ==> says(
                events[count],
                messages[count - 1].status as int,
                messages[count - 1].first as int,
                messages[count - 1].second as int,
            )
        }),
    decreases count,
{
    let controller = editor.cc_at(cell.0 as int, cell.1 as int);
    let messages = ordered_messages(performed, cell, controller, editor.scale);
    let events = cell_track(editor, performed, cell);
    assert(time_after(events, 1) == time_after(events, 0) + events[0].delta);
    if count > 0 {
        lemma_track_times(editor, performed, cell, count - 1);
        lemma_ordered_messages(performed, cell, controller, editor.scale);
        lemma_message_is_early(performed, cell, controller, editor.scale, count - 1);
        assert(events[count] == timed(messages)[count - 1]);
        if count > 1 {
            assert(messages[count - 2].rank_le(messages[count - 1]));
        }
    }
}

proof fn lemma_message_is_early(
    performed: Seq<Note>,
    cell: (usize, usize),
    controller: Option<u8>,
    scale: ScaleMode,
    k: int,
)
    requires
        all_come_early(performed),
        0 <= k < ordered_messages(performed, cell, controller, scale).len(),
    ensures
        ordered_messages(performed, cell, controller, scale)[k].tick < 0x1000_0000,
        exists|p: int|
            0 <= p < performed.len() && (#[trigger] performed[p]).track == cell.0
                && performed[p].lane == cell.1 && note_messages(
                performed[p],
                controller,
                (cell.1 % 16) as u8,
                scale,
            ).contains(ordered_messages(performed, cell, controller, scale)[k]),
{
    broadcast use vstd::seq_lib::group_to_multiset_ensures;

    let all = cell_messages(performed, cell, controller, scale);
    let sorted = stable_sorted(all);
    let kept = ordered_messages(performed, cell, controller, scale);
    lemma_kept(sorted);
    stable_sort_orders(all);
    assert(sorted.contains(kept[k]));
    assert(sorted.to_multiset().count(kept[k]) > 0);
    assert(all.contains(kept[k]));
    lemma_messages_of_lane(performed, cell, controller, scale);
    let m = choose|m: int| 0 <= m < all.len() && all[m] == kept[k];
    let p = choose|p: int|
        0 <= p < performed.len() && (#[trigger] performed[p]).track == cell.0 && performed[p].lane
            == cell.1 && note_messages(
            performed[p],
            controller,
            (cell.1 % 16) as u8,
            scale,
        ).contains(all[m]);
    lemma_file_times(performed[p]);
}

/// Where a note starts and ends in a file.
proof fn lemma_file_times(note: Note)
    requires
        note.start_tick <= 35 * 0xFFF_FFF0,
        note.start_tick + note.duration <= 35 * 0xFFF_FFF0,
    ensures
        0 <= start_in_file(note) < end_in_file(note) < 0x1000_0000,
        note.start_tick >= 0 ==> is_nearest_in_file(start_in_file(note), note.start_tick as int),
        note.start_tick >= 0 && note.duration > 0 ==> is_nearest_in_file(
            end_in_file(note),
            note.start_tick + note.duration,
        ) || end_in_file(note) == start_in_file(note) + 1,
        note.start_tick >= 0 && note.duration >= 35 ==> is_nearest_in_file(
            end_in_file(note),
            note.start_tick + note.duration,
        ),
{
}

/// A message that a note is written as, and that is no release, stands in the track
/// of its lane.
proof fn lemma_message_is_written(
    editor: EditorView,
    performed: Seq<Note>,
    cell: (usize, usize),
    p: int,
    message: OutEvent,
) -> (at: int)
    requires
        all_come_early(performed),
        0 <= p < performed.len(),
        performed[p].track == cell.0,
        performed[p].lane == cell.1,
        note_messages(
            performed[p],
            editor.cc_at(cell.0 as int, cell.1 as int),
            (cell.1 % 16) as u8,
            editor.scale,
        ).contains(message),
    ensures
        ({
            let events = cell_track(editor, performed, cell);
            &&& 0 < at < events.len() - 1
            &&& time_after(events, at + 1) == message.tick
            &&& !(is_controller(message) && message.second == 0) ==> says(
                events[at],
                message.status as int,
                message.first as int,
                message.second as int,
            )
            &&& is_controller(message) ==> is_set(events[at], message.first as int)
        }),
{
    broadcast use vstd::seq_lib::group_to_multiset_ensures;

    let controller = editor.cc_at(cell.0 as int, cell.1 as int);
    let channel = (cell.1 % 16) as u8;
    let own = note_messages(performed[p], controller, channel, editor.scale);
    let all = cell_messages(performed, cell, controller, editor.scale);
    let sorted = stable_sorted(all);
    let kept = ordered_messages(performed, cell, controller, editor.scale);
    lemma_messages_of_lane(performed, cell, controller, editor.scale);
    let k = choose|k: int| 0 <= k < own.len() && own[k] == message;
    assert(all.contains(note_messages(performed[p], controller, channel, editor.scale)[k]));
    stable_sort_orders(all);
    assert(all.to_multiset().count(message) > 0);
    assert(sorted.contains(message));
    let s = choose|s: int| 0 <= s < sorted.len() && sorted[s] == message;
    lemma_kept(sorted);
    if is_controller(message) && message.second == 0 {
        assert(is_controller(sorted[s]));
        let m = choose|m: int|
            0 <= m < kept.len() && is_controller(#[trigger] kept[m]) && kept[m].tick
                == sorted[s].tick && kept[m].first == sorted[s].first;
        lemma_track_times(editor, performed, cell, m + 1);
        m + 1
    } else {
        assert(kept.contains(sorted[s]));
        let m = choose|m: int| 0 <= m < kept.len() && kept[m] == message;
        lemma_track_times(editor, performed, cell, m + 1);
        m + 1
    }
}

/// A note with a length, a key of MIDI and a velocity is written on its lane's
/// track: a start with the key and the velocity at the nearest time, and an end of
/// the key at the nearest time behind it, on the channel of the lane.
pub proof fn a_note_is_written(
    editor: EditorView,
    performed: Seq<Note>,
    c: int,
    p: int,
    key: int,
) -> (found: (int, int))
    requires
        all_come_early(performed),
        0 <= c < exported_cells(editor).len(),
        0 <= p < performed.len(),
        exported_cells(editor)[c] == (performed[p].track, performed[p].lane),
        editor.cc_at(performed[p].track as int, performed[p].lane as int) is None,
        performed[p].start_tick >= 0,
        performed[p].duration > 0,
        1 <= performed[p].velocity <= 127,
        0 <= key <= 127,
        sounds_as(performed[p], key, editor.scale),
    ensures
        ({
            let note = performed[p];
            let channel = note.lane as int % 16;
            let events = exported_tracks(editor, performed)[c + 1];
            let start = time_after(events, found.0 + 1);
            let end = time_after(events, found.1 + 1);
            &&& 0 <= found.0 < events.len()
            &&& 0 <= found.1 < events.len()
            &&& says(events[found.0], 0x90 + channel, key, note.velocity as int)
            &&& says(events[found.1], 0x80 + channel, key, 0)
            &&& is_nearest_in_file(start, note.start_tick as int)
            &&& start < end
            &&& is_nearest_in_file(end, note.start_tick + note.duration) || end == start + 1
            &&& note.duration >= 35 ==> is_nearest_in_file(end, note.start_tick + note.duration)
        }),
{
    let note = performed[p];
    let cell = exported_cells(editor)[c];
    let channel = (cell.1 % 16) as u8;
    let own = note_messages(note, None, channel, editor.scale);
    assert(exported_tracks(editor, performed)[c + 1] == cell_track(editor, performed, cell));
    lemma_file_times(note);
    assert(own.contains(own[0]));
    assert(own.contains(own[1]));
    let on = lemma_message_is_written(editor, performed, cell, p, own[0]);
    let off = lemma_message_is_written(editor, performed, cell, p, own[1]);
    (on, off)
}

/// A block is written on its lane's track: the controller of the lane is set to its
/// value at the nearest time, and set to something else, or released, at the
/// nearest time behind it.
pub proof fn a_block_is_written(
    editor: EditorView,
    performed: Seq<Note>,
    c: int,
    p: int,
    number: u8,
) -> (found: (int, int))
    requires
        all_come_early(performed),
        0 <= c < exported_cells(editor).len(),
        0 <= p < performed.len(),
        exported_cells(editor)[c] == (performed[p].track, performed[p].lane),
        editor.cc_at(performed[p].track as int, performed[p].lane as int) == Some(number),
        number <= 127,
        performed[p].start_tick >= 0,
        performed[p].duration > 0,
        1 <= performed[p].velocity <= 127,
    ensures
        ({
            let note = performed[p];
            let channel = note.lane as int % 16;
            let events = exported_tracks(editor, performed)[c + 1];
            let start = time_after(events, found.0 + 1);
            let end = time_after(events, found.1 + 1);
            &&& 0 <= found.0 < events.len()
            &&& 0 <= found.1 < events.len()
            &&& says(events[found.0], 0xB0 + channel, number as int, note.velocity as int)
            &&& is_set(events[found.1], number as int)
            &&& is_nearest_in_file(start, note.start_tick as int)
            &&& start < end
            &&& is_nearest_in_file(end, note.start_tick + note.duration) || end == start + 1
            &&& note.duration >= 35 ==> is_nearest_in_file(end, note.start_tick + note.duration)
        }),
{
    let note = performed[p];
    let cell = exported_cells(editor)[c];
    let channel = (cell.1 % 16) as u8;
    let own = note_messages(note, Some(number), channel, editor.scale);
    assert(exported_tracks(editor, performed)[c + 1] == cell_track(editor, performed, cell));
    lemma_file_times(note);
    assert(own.contains(own[0]));
    assert(own.contains(own[1]));
    let on = lemma_message_is_written(editor, performed, cell, p, own[0]);
    let off = lemma_message_is_written(editor, performed, cell, p, own[1]);
    (on, off)
}

/// Nothing else is written: every event between the name and the end of a track
/// starts or ends a note of the lane, or sets its controller to the value of one
/// of its blocks or to 0.
pub proof fn nothing_else_is_written(
    editor: EditorView,
    performed: Seq<Note>,
    c: int,
    k: int,
) -> (p: int)
    requires
        all_come_early(performed),
        0 <= c < exported_cells(editor).len(),
        0 < k < exported_tracks(editor, performed)[c + 1].len() - 1,
    ensures
        ({
            let note = performed[p];
            let channel = note.lane as int % 16;
            let event = exported_tracks(editor, performed)[c + 1][k];
            &&& 0 <= p < performed.len()
            &&& (note.track, note.lane) == exported_cells(editor)[c]
            &&& note.duration > 0
            &&& match editor.cc_at(note.track as int, note.lane as int) {
                None => exists|key: int|
                    0 <= key <= 127 && #[trigger] sounds_as(note, key, editor.scale) && (says(
                        event,
                        0x80 + channel,
                        key,
                        0,
                    ) || exists|velocity: int| #[trigger]
                        says(event, 0x90 + channel, key, velocity) && 1 <= velocity <= 127 && (1
                            <= note.velocity <= 127 ==> velocity == note.velocity)),
                Some(number) => number <= 127 ==> says(event, 0xB0 + channel, number as int, 0)
                    || exists|value: int| #[trigger]
                    says(event, 0xB0 + channel, number as int, value) && (note.velocity <= 127
                        ==> value == note.velocity),
            }
        }),
{
    let cell = exported_cells(editor)[c];
    let controller = editor.cc_at(cell.0 as int, cell.1 as int);
    let channel = (cell.1 % 16) as u8;
    let messages = ordered_messages(performed, cell, controller, editor.scale);
    assert(exported_tracks(editor, performed)[c + 1] == cell_track(editor, performed, cell));
    lemma_track_times(editor, performed, cell, 0);
    lemma_track_times(editor, performed, cell, k);
    lemma_message_is_early(performed, cell, controller, editor.scale, k - 1);
    let message = messages[k - 1];
    let event = cell_track(editor, performed, cell)[k];
    let p = choose|p: int|
        0 <= p < performed.len() && (#[trigger] performed[p]).track == cell.0 && performed[p].lane
            == cell.1 && note_messages(
            performed[p],
            controller,
            channel,
            editor.scale,
        ).contains(message);
    let note = performed[p];
    let own = note_messages(note, controller, channel, editor.scale);
    assert(note.duration > 0);
    assert(own[0] == message || own[1] == message);
    if controller is None {
        let key = note.midi_key(editor.scale)->0 as int;
        assert(sounds_as(note, key, editor.scale));
        assert(says(event, message.status as int, message.first as int, message.second as int));
    }
    p
}

/// Where a note ends and another one starts at the same time, the end is written
/// first.
pub proof fn ends_are_written_before_starts(
    editor: EditorView,
    performed: Seq<Note>,
    c: int,
    i: int,
    j: int,
    first: int,
    second: int,
)
    requires
        all_come_early(performed),
        0 <= c < exported_cells(editor).len(),
        editor.cc_at(
            exported_cells(editor)[c].0 as int,
            exported_cells(editor)[c].1 as int,
        ) is None,
        0 < i < exported_tracks(editor, performed)[c + 1].len() - 1,
        0 < j < exported_tracks(editor, performed)[c + 1].len() - 1,
        time_after(exported_tracks(editor, performed)[c + 1], i + 1) == time_after(
            exported_tracks(editor, performed)[c + 1],
            j + 1,
        ),
        says(
            exported_tracks(editor, performed)[c + 1][i],
            0x80 + exported_cells(editor)[c].1 as int % 16,
            first,
            0,
        ),
        exists|velocity: int| #[trigger]
            says(
                exported_tracks(editor, performed)[c + 1][j],
                0x90 + exported_cells(editor)[c].1 as int % 16,
                second,
                velocity,
            ),
    ensures
        i < j,
{
    let cell = exported_cells(editor)[c];
    let channel = (cell.1 % 16) as u8;
    let messages = ordered_messages(performed, cell, None, editor.scale);
    assert(exported_tracks(editor, performed)[c + 1] == cell_track(editor, performed, cell));
    lemma_track_times(editor, performed, cell, 0);
    lemma_track_times(editor, performed, cell, i);
    lemma_track_times(editor, performed, cell, j);
    lemma_message_is_early(performed, cell, None, editor.scale, i - 1);
    lemma_message_is_early(performed, cell, None, editor.scale, j - 1);
    lemma_ordered_messages(performed, cell, None, editor.scale);
    if j < i {
        assert(messages[j - 1].rank_le(messages[i - 1]));
    }
}

/// The first track tells the tempo, as the microseconds of a quarter note, and the
/// time signature, as a number and a power of two, both at the start.
pub proof fn the_meter_is_written_first(editor: EditorView, performed: Seq<Note>)
    requires
        4 <= editor.tempo,
        1 <= editor.beats <= 255,
    ensures
        ({
            let events = exported_tracks(editor, performed)[0];
            &&& exported_tracks(editor, performed).len() == exported_cells(editor).len() + 1
            &&& events.len() == 3
            &&& time_after(events, 3) == 0
            &&& events[0].kind matches SmfKindView::Tempo(us) && us * editor.tempo <= 60_000_000 < (
            us + 1) * editor.tempo
            &&& events[1].kind matches SmfKindView::TimeSignature(beats, power, _, _) && beats
                == editor.beats && (editor.beat_type == 1 || editor.beat_type == 2
                || editor.beat_type == 4 || editor.beat_type == 8 || editor.beat_type == 16
                || editor.beat_type == 32 ==> vstd::arithmetic::power2::pow2(power as nat)
                == editor.beat_type)
            &&& events[2].kind is EndOfTrack
        }),
{
    let events = exported_tracks(editor, performed)[0];
    reveal_with_fuel(time_after, 4);
    vstd::arithmetic::power2::lemma2_to64();
    let x = editor.tempo as int;
    let q = 60_000_000int / x;
    vstd::arithmetic::div_mod::lemma_fundamental_div_mod(60_000_000, x);
    assert(q * x <= 60_000_000 < (q + 1) * x && 0 <= q < 0x100_0000) by (nonlinear_arith)
        requires
            60_000_000 == x * q + 60_000_000int % x,
            0 <= 60_000_000int % x < x,
            x >= 4,
    ;
}

/// Every other track starts with the name of its lane and ends with an end.
pub proof fn a_track_is_named_after_its_lane(editor: EditorView, performed: Seq<Note>, c: int)
    requires
        0 <= c < exported_cells(editor).len(),
    ensures
        ({
            let events = exported_tracks(editor, performed)[c + 1];
            let (track, lane) = exported_cells(editor)[c];
            &&& events.len() >= 2
            &&& events[0].delta == 0
            &&& events[0].kind == SmfKindView::TrackName(
                vstd::utf8::encode_utf8(
                    "Track "@ + crate::text::decimal(track as nat) + " Lane "@
                        + crate::text::decimal(lane as nat),
                ),
            )
            &&& events.last().kind is EndOfTrack
        }),
{
}

/// Every lane of every track is written, and every lane that a note lies on.
pub proof fn every_lane_is_written(editor: EditorView, track: usize, lane: usize)
    requires
        editor.tracks.len() <= usize::MAX,
    ensures
        track < editor.tracks.len() && lane < editor.tracks[track as int].lane_count()
            ==> exported_cells(editor).contains((track, lane)),
        (exists|i: int|
            0 <= i < editor.notes.len() && (#[trigger] editor.notes[i]).track == track
                && editor.notes[i].lane == lane) ==> exported_cells(editor).contains(
            (track, lane),
        ),
{
    let cells = crate::midi::export::lane_cells(editor.tracks);
    if track < editor.tracks.len() && lane < editor.tracks[track as int].lane_count() {
        lemma_lane_is_listed(editor.tracks, track, lane);
    }
    lemma_note_cells_hold(cells, editor.notes, track, lane);
}

proof fn lemma_lane_is_listed(
    tracks: Seq<crate::sequencer::TrackView>,
    track: usize,
    lane: usize,
)
    requires
        track < tracks.len() <= usize::MAX,
        lane < tracks[track as int].lane_count(),
    ensures
        crate::midi::export::lane_cells(tracks).contains((track, lane)),
    decreases tracks.len(),
{
    let shorter = tracks.drop_last();
    let before = crate::midi::export::lane_cells(shorter);
    let now = crate::midi::export::lane_cells(tracks);
    if track < shorter.len() {
        lemma_lane_is_listed(shorter, track, lane);
        let k = choose|k: int| 0 <= k < before.len() && before[k] == (track, lane);
        assert(now[k] == (track, lane));
    } else {
        assert(now[before.len() + lane] == (track, lane));
    }
}

proof fn lemma_note_cells_hold(
    cells: Seq<(usize, usize)>,
    notes: Seq<Note>,
    track: usize,
    lane: usize,
)
    ensures
        cells.contains((track, lane)) || (exists|i: int|
            0 <= i < notes.len() && (#[trigger] notes[i]).track == track && notes[i].lane == lane)
            ==> crate::midi::export::with_note_cells(cells, notes).contains((track, lane)),
    decreases notes.len(),
{
    if notes.len() > 0 {
        let shorter = notes.drop_last();
        let before = crate::midi::export::with_note_cells(cells, shorter);
        let now = crate::midi::export::with_note_cells(cells, notes);
        lemma_note_cells_hold(cells, shorter, track, lane);
        if before.contains((track, lane)) {
            let k = choose|k: int| 0 <= k < before.len() && before[k] == (track, lane);
            assert(now[k] == (track, lane));
        } else if exists|i: int|
            0 <= i < notes.len() && (#[trigger] notes[i]).track == track && notes[i].lane == lane {
            let i = choose|i: int|
                0 <= i < notes.len() && (#[trigger] notes[i]).track == track && notes[i].lane
                    == lane;
            if i < shorter.len() {
                assert(shorter[i].track == track);
            } else {
                assert(now[before.len() as int] == (track, lane));
            }
        }
    }
}

/// Whether the messages of a track have as many data bytes as they should, and
/// small ones.
pub open spec fn is_plain(events: Seq<SmfEventView>) -> bool {
    forall|m: int|
        0 <= m < events.len() && (#[trigger] events[m]).kind is Channel ==> ({
            let bytes = events[m].kind->Channel_0;
            bytes.len() >= 3 && bytes[0] < 0xC0 ==> bytes.len() == 3 && bytes[1] < 128 && bytes[2]
                < 128
        })
}

/// Whether a note is what is read of a note of a file.
pub open spec fn is_read_of(
    note: Note,
    file: SmfView,
    scale: ScaleMode,
    t: int,
    i: int,
    j: int,
    channel: int,
    key: int,
    velocity: int,
) -> bool {
    let resolution = file.resolution->0 as int;
    let start = time_after(file.tracks[t], i + 1);
    let end = time_after(file.tracks[t], j + 1);
    &&& 0 <= t < file.tracks.len()
    &&& sounds(file.tracks[t], i, j, channel, key, velocity)
    &&& is_nearest(note.start_tick as int, start, resolution)
    &&& start < end ==> is_nearest(note.duration as int, end - start, resolution)
    &&& has_key(note, key, scale)
    &&& note.velocity == velocity
}

/// Whether a block is what is read of a controller that a file sets.
pub open spec fn is_held_of(
    note: Note,
    lane_ccs: Seq<(usize, usize, u8)>,
    file: SmfView,
    t: int,
    i: int,
    number: int,
    value: int,
) -> bool {
    let resolution = file.resolution->0 as int;
    &&& 0 <= t < file.tracks.len()
    &&& 0 <= i < file.tracks[t].len()
    &&& sets(file.tracks[t][i], number, value)
    &&& 0 <= number < 120 && 1 <= value < 128
    &&& is_nearest(note.start_tick as int, time_after(file.tracks[t], i + 1), resolution)
    &&& note.velocity == value
    &&& lane_ccs.contains((note.track, note.lane, number as u8))
}

/// What sounds was started and not ended.
proof fn lemma_sounding_source(events: Seq<SmfEventView>, count: int, filed: u32) -> (found: (
    int,
    int,
    int,
))
    requires
        0 <= count <= events.len(),
        is_plain(events),
        time_after(events, events.len() as int) <= u32::MAX,
        scanned(events.take(count)).sounding.dom().contains(filed),
    ensures
        ({
            let (i, channel, key) = found;
            let velocity = scanned(events.take(count)).sounding[filed].1 as int;
            &&& 0 <= i < count
            &&& 0 <= channel < 16 && 0 <= key < 128 && 1 <= velocity < 128
            &&& filed == channel * 256 + key
            &&& says(events[i], 0x90 + channel, key, velocity)
            &&& scanned(events.take(count)).sounding[filed].0 == time_after(events, i + 1)
            &&& forall|m: int| i < m < count ==> !concerns(#[trigger] events[m], channel, key)
        }),
    decreases count,
{
    if count == 0 {
        assert(events.take(0) =~= Seq::<SmfEventView>::empty());
        (0, 0, 0)
    } else {
        lemma_scan_step(events, count);
        lemma_scan_time(events, count);
        lemma_scan_time(events, count - 1);
        let before = scanned(events.take(count - 1));
        let now = scanned(events.take(count));
        let event = events[count - 1];
        let kept = before.sounding.dom().contains(filed);
        let found = if kept {
            lemma_sounding_source(events, count - 1, filed)
        } else {
            (0, 0, 0)
        };
        if kept && now.sounding[filed] == before.sounding[filed] && !concerns(
            event,
            found.1,
            found.2,
        ) {
            found
        } else {
            assert(event.kind is Channel);
            let bytes = event.kind->Channel_0;
            if kept && concerns(event, found.1, found.2) {
                assert(bytes.len() == 3 && bytes[1] < 128 && bytes[2] < 128);
                assert(bytes[0] != 0x80 + found.1);
            }
            assert(bytes.len() >= 3 && 0x90 <= bytes[0] < 0xA0);
            assert(bytes.len() == 3 && bytes[1] < 128 && bytes[2] < 128);
            assert(filed == (bytes[0] - 0x90) * 256 + bytes[1]);
            (count - 1, bytes[0] - 0x90, bytes[1] as int)
        }
    }
}

/// What is read of a track as a note was started and ended.
proof fn lemma_raw_source(events: Seq<SmfEventView>, count: int, k: int) -> (found: (int, int, int))
    requires
        0 <= count <= events.len(),
        is_plain(events),
        time_after(events, events.len() as int) <= u32::MAX,
        0 <= k < scanned(events.take(count)).notes.len(),
    ensures
        ({
            let (i, j, channel) = found;
            let raw = scanned(events.take(count)).notes[k];
            &&& sounds(events, i, j, channel, raw.key as int, raw.velocity as int)
            &&& raw.start == time_after(events, i + 1)
            &&& raw.end == later(time_after(events, j + 1) as u64, raw.start)
            &&& time_after(events, j + 1) <= u32::MAX
        }),
    decreases count,
{
    if count == 0 {
        assert(events.take(0) =~= Seq::<SmfEventView>::empty());
        (0, 0, 0)
    } else {
        lemma_scan_step(events, count);
        lemma_scan_time(events, count);
        lemma_scan_time(events, count - 1);
        lemma_time_grows(events, count, events.len() as int);
        let before = scanned(events.take(count - 1));
        if k < before.notes.len() {
            lemma_raw_source(events, count - 1, k)
        } else {
            let event = events[count - 1];
            let bytes = event.kind->Channel_0;
            let channel = if bytes[0] >= 0x90 {
                bytes[0] - 0x90
            } else {
                bytes[0] - 0x80
            };
            let key = bytes[1] as int;
            let filed = (channel * 256 + key) as u32;
            let found = lemma_sounding_source(events, count - 1, filed);
            assert(found.1 == channel && found.2 == key);
            (found.0, count - 1, channel)
        }
    }
}

/// What is read of a track as a controller was set.
proof fn lemma_cc_source(events: Seq<SmfEventView>, count: int, k: int) -> (i: int)
    requires
        0 <= count <= events.len(),
        is_plain(events),
        time_after(events, events.len() as int) <= u32::MAX,
        0 <= k < scanned(events.take(count)).ccs.len(),
    ensures
        ({
            let cc = scanned(events.take(count)).ccs[k];
            &&& 0 <= i < count
            &&& sets(events[i], cc.number as int, cc.value as int)
            &&& cc.number < 120
            &&& cc.value < 128
            &&& cc.tick == time_after(events, i + 1)
        }),
    decreases count,
{
    if count == 0 {
        assert(events.take(0) =~= Seq::<SmfEventView>::empty());
        0
    } else {
        lemma_scan_step(events, count);
        lemma_scan_time(events, count);
        lemma_scan_time(events, count - 1);
        let before = scanned(events.take(count - 1));
        if k < before.ccs.len() {
            lemma_cc_source(events, count - 1, k)
        } else {
            count - 1
        }
    }
}

proof fn lemma_kept_source(tracks: Seq<Seq<SmfEventView>>, k: int) -> (t: int)
    requires
        0 <= k < kept_tracks(tracks).len(),
    ensures
        0 <= t < tracks.len(),
        kept_tracks(tracks)[k] == parsed(tracks[t]),
    decreases tracks.len(),
{
    let shorter = tracks.drop_last();
    if k < kept_tracks(shorter).len() {
        lemma_kept_source(shorter, k)
    } else {
        tracks.len() - 1
    }
}

proof fn lemma_events_source(ccs: Seq<RawCc>, number: u8, x: int) -> (k: int)
    requires
        0 <= x < events_of(ccs, number).len(),
    ensures
        0 <= k < ccs.len(),
        ccs[k].number == number,
        events_of(ccs, number)[x] == (ccs[k].tick, ccs[k].value),
    decreases ccs.len(),
{
    let shorter = ccs.drop_last();
    if x < events_of(shorter, number).len() {
        lemma_events_source(shorter, number, x)
    } else {
        ccs.len() - 1
    }
}

proof fn lemma_group_source(ccs: Seq<RawCc>, limit: int, g: int)
    requires
        0 <= g < changing_groups(ccs, limit).len(),
        limit <= 120,
    ensures
        changing_groups(ccs, limit)[g].events == events_of(
            ccs,
            changing_groups(ccs, limit)[g].number,
        ),
    decreases limit,
{
    if g < changing_groups(ccs, limit - 1).len() {
        lemma_group_source(ccs, limit - 1, g);
    }
}

proof fn lemma_block_source(events: Seq<(u32, u8)>, count: int, end: u64, b: int) -> (x: int)
    requires
        0 <= b < blocks_among(events, count, end).len(),
        count <= events.len(),
    ensures
        0 <= x < count,
        block_at(events, x, end) == Some(blocks_among(events, count, end)[b]),
    decreases count,
{
    if b < blocks_among(events, count - 1, end).len() {
        lemma_block_source(events, count - 1, end, b)
    } else {
        count - 1
    }
}

proof fn lemma_layout_source(
    tracks: Seq<ParsedView>,
    resolution: u16,
    scale: ScaleMode,
    at: int,
) -> (found: (int, int))
    requires
        0 <= at < laid_out(tracks, resolution, scale).notes.len(),
    ensures
        ({
            let note = laid_out(tracks, resolution, scale).notes[at];
            &&& 0 <= found.0 < tracks.len()
            &&& 0 <= found.1 < tracks[found.0].notes.len()
            &&& note == placed_note(
                tracks[found.0].notes[found.1],
                note.track,
                note.lane,
                resolution,
                scale,
            )
        }),
    decreases tracks.len(),
{
    if tracks.len() == 0 {
        (0, 0)
    } else {
        let shorter = tracks.drop_last();
        let before = laid_out(shorter, resolution, scale);
        let last = tracks.last();
        let fixed = last.name is Some;
        let (track, lane) = match last.name {
            Some(cell) => cell,
            None => (before.next_track, 0usize),
        };
        let base = if fixed {
            before
        } else {
            LayoutView { next_track: next_index(before.next_track), ..before }
        };
        lemma_put(base, last.notes, track, lane, fixed, resolution, scale);
        if at < before.notes.len() {
            assert(laid_out(tracks, resolution, scale).notes[at] == before.notes[at]);
            lemma_layout_source(shorter, resolution, scale, at)
        } else {
            let r = at - before.notes.len();
            assert(laid_out(tracks, resolution, scale).notes[before.notes.len() + r]
                == laid_out(tracks, resolution, scale).notes[at]);
            (tracks.len() - 1, r)
        }
    }
}

proof fn lemma_pending_source(
    tracks: Seq<ParsedView>,
    resolution: u16,
    scale: ScaleMode,
    p: int,
) -> (k: int)
    requires
        0 <= p < laid_out(tracks, resolution, scale).pending.len(),
    ensures
        0 <= k < tracks.len(),
        laid_out(tracks, resolution, scale).pending[p].groups == tracks[k].groups,
    decreases tracks.len(),
{
    if tracks.len() == 0 {
        0
    } else {
        let shorter = tracks.drop_last();
        let before = laid_out(shorter, resolution, scale);
        let last = tracks.last();
        let fixed = last.name is Some;
        let (track, lane) = match last.name {
            Some(cell) => cell,
            None => (before.next_track, 0usize),
        };
        let base = if fixed {
            before
        } else {
            LayoutView { next_track: next_index(before.next_track), ..before }
        };
        lemma_put(base, last.notes, track, lane, fixed, resolution, scale);
        if p < before.pending.len() {
            lemma_pending_source(shorter, resolution, scale, p)
        } else {
            tracks.len() - 1
        }
    }
}

/// A note behind those of the layout is a block of a controller whose lane is
/// listed.
proof fn lemma_restored_source(
    base: RestoreView,
    groups: Seq<GroupView>,
    track: usize,
    end: u64,
    resolution: u16,
    at: int,
) -> (found: (int, int))
    requires
        base.notes.len() <= at < base.with_groups(groups, track, end, resolution).notes.len(),
    ensures
        ({
            let after = base.with_groups(groups, track, end, resolution);
            let note = after.notes[at];
            &&& 0 <= found.0 < groups.len()
            &&& 0 <= found.1 < blocks_of(groups[found.0].events, end).len()
            &&& note == block_note(
                blocks_of(groups[found.0].events, end)[found.1],
                track,
                note.lane,
                resolution,
            )
            &&& after.lane_ccs.contains((track, note.lane, groups[found.0].number))
        }),
    decreases groups.len(),
{
    if groups.len() == 0 {
        (0, 0)
    } else {
        let shorter = groups.drop_last();
        let before = base.with_groups(shorter, track, end, resolution);
        let after = base.with_groups(groups, track, end, resolution);
        lemma_groups_append(base, shorter, track, end, resolution);
        if at < before.notes.len() {
            let found = lemma_restored_source(base, shorter, track, end, resolution, at);
            let cell = (track, before.notes[at].lane, groups[found.0].number);
            let x = choose|x: int| 0 <= x < before.lane_ccs.len() && before.lane_ccs[x] == cell;
            assert(after.lane_ccs[x] == cell);
            found
        } else {
            assert(after.lane_ccs[before.lane_ccs.len() as int] == (
                track,
                after.notes[at].lane,
                groups[groups.len() - 1].number,
            ));
            (groups.len() - 1, at - before.notes.len())
        }
    }
}

proof fn lemma_all_source(
    pending: Seq<PendingView>,
    layout: LayoutView,
    end: u64,
    resolution: u16,
    at: int,
) -> (found: (int, int, int))
    requires
        layout.notes.len() <= at < restored(pending, layout, end, resolution).notes.len(),
    ensures
        ({
            let (p, g, b) = found;
            let after = restored(pending, layout, end, resolution);
            let note = after.notes[at];
            &&& 0 <= p < pending.len()
            &&& 0 <= g < pending[p].groups.len()
            &&& 0 <= b < blocks_of(pending[p].groups[g].events, end).len()
            &&& note == block_note(
                blocks_of(pending[p].groups[g].events, end)[b],
                note.track,
                note.lane,
                resolution,
            )
            &&& after.lane_ccs.contains((note.track, note.lane, pending[p].groups[g].number))
        }),
    decreases pending.len(),
{
    if pending.len() == 0 {
        (0, 0, 0)
    } else {
        let shorter = pending.drop_last();
        let waiting = pending.last();
        let before = restored(shorter, layout, end, resolution);
        let after = restored(pending, layout, end, resolution);
        let base = RestoreView {
            next_lane: used_lanes(layout.log, waiting.track),
            named: waiting.lane,
            ..before
        };
        lemma_restored_append(shorter, layout, end, resolution);
        lemma_groups_append(base, waiting.groups, waiting.track, end, resolution);
        lemma_lanes_append(base, waiting.groups, waiting.track, end, resolution);
        if at < before.notes.len() {
            let found = lemma_all_source(shorter, layout, end, resolution, at);
            let note = before.notes[at];
            let cell = (note.track, note.lane, pending[found.0].groups[found.1].number);
            let x = choose|x: int| 0 <= x < before.lane_ccs.len() && before.lane_ccs[x] == cell;
            assert(after.lane_ccs[x] == cell);
            found
        } else {
            let found = lemma_restored_source(
                base,
                waiting.groups,
                waiting.track,
                end,
                resolution,
                at,
            );
            (pending.len() - 1, found.0, found.1)
        }
    }
}

/// Nothing is read that the file does not say: every note is one that some track
/// starts and ends, or a block of a controller that some track sets.
pub proof fn nothing_else_is_read(file: SmfView, scale: ScaleMode, n: int)
    requires
        file.resolution matches Some(resolution) && resolution > 0,
        0 <= n < imported(file, scale).notes.len(),
        forall|t: int|
            0 <= t < file.tracks.len() ==> is_plain(#[trigger] file.tracks[t]) && time_after(
                file.tracks[t],
                file.tracks[t].len() as int,
            ) <= u32::MAX,
    ensures
        (exists|t: int, i: int, j: int, channel: int, key: int, velocity: int|
            is_read_of(
                imported(file, scale).notes[n],
                file,
                scale,
                t,
                i,
                j,
                channel,
                key,
                velocity,
            )) || (exists|t: int, i: int, number: int, value: int|
            is_held_of(
                imported(file, scale).notes[n],
                imported(file, scale).lane_ccs,
                file,
                t,
                i,
                number,
                value,
            )),
{
    broadcast use vstd::seq_lib::group_to_multiset_ensures;

    let resolution = file.resolution->0;
    let tracks = kept_tracks(file.tracks);
    let layout = laid_out(tracks, resolution, scale);
    let end = file_end(tracks);
    let all = restored(layout.pending, layout, end, resolution);
    let read = imported(file, scale).notes;
    let note = read[n];
    stable_sort_orders(all.notes);
    assert(read.contains(note));
    assert(read.to_multiset().count(note) > 0);
    assert(all.notes.contains(note));
    let at = choose|at: int| 0 <= at < all.notes.len() && all.notes[at] == note;
    lemma_restored_append(layout.pending, layout, end, resolution);
    if at < layout.notes.len() {
        let (k, r) = lemma_layout_source(tracks, resolution, scale, at);
        let t = lemma_kept_source(file.tracks, k);
        let events = file.tracks[t];
        let raw = tracks[k].notes[r];
        let scanned_notes = scanned(events).notes;
        stable_sort_orders(scanned_notes);
        assert(tracks[k].notes.contains(raw));
        assert(tracks[k].notes.to_multiset().count(raw) > 0);
        assert(scanned_notes.contains(raw));
        let x = choose|x: int| 0 <= x < scanned_notes.len() && scanned_notes[x] == raw;
        assert(events.take(events.len() as int) =~= events);
        let (i, j, channel) = lemma_raw_source(events, events.len() as int, x);
        lemma_time_grows(events, i + 1, j + 1);
        lemma_read_note(raw, note, resolution, scale);
        assert(is_read_of(
            note,
            file,
            scale,
            t,
            i,
            j,
            channel,
            raw.key as int,
            raw.velocity as int,
        ));
    } else {
        let (p, g, b) = lemma_all_source(layout.pending, layout, end, resolution, at);
        let k = lemma_pending_source(tracks, resolution, scale, p);
        let t = lemma_kept_source(file.tracks, k);
        let events = file.tracks[t];
        let ccs = scanned(events).ccs;
        let group = tracks[k].groups[g];
        lemma_group_source(ccs, 120, g);
        let x = lemma_block_source(group.events, group.events.len() as int, end, b);
        let c = lemma_events_source(ccs, group.number, x);
        assert(events.take(events.len() as int) =~= events);
        let i = lemma_cc_source(events, events.len() as int, c);
        let start = time_after(events, i + 1);
        lemma_time_grows(events, i + 1, events.len() as int);
        lemma_read_times(start, 0, resolution);
        assert(events[i].kind is Channel);
        assert(is_held_of(
            note,
            imported(file, scale).lane_ccs,
            file,
            t,
            i,
            group.number as int,
            ccs[c].value as int,
        ));
    }
}

proof fn lemma_name_is_scanned(events: Seq<SmfEventView>, i: int, count: int, cell: (usize, usize))
    requires
        0 <= i < events.len(),
        0 <= count <= events.len(),
        events[i].kind matches SmfKindView::TrackName(bytes) && cell_of_name_bytes(bytes) == Some(
            cell,
        ),
        forall|m: int| 0 <= m < i ==> !((#[trigger] events[m]).kind is TrackName),
    ensures
        count <= i ==> scanned(events.take(count)).name is None,
        count > i ==> scanned(events.take(count)).name == Some(cell),
    decreases count,
{
    if count > 0 {
        lemma_name_is_scanned(events, i, count - 1, cell);
        lemma_scan_step(events, count);
        if count - 1 < i {
            assert(!(events[count - 1].kind is TrackName));
        }
    } else {
        assert(events.take(0) =~= Seq::<SmfEventView>::empty());
    }
}

/// A track whose first name is that of a lane is read as that lane.
pub proof fn a_track_is_read_as_the_lane_it_names(
    events: Seq<SmfEventView>,
    i: int,
    track: usize,
    lane: usize,
)
    requires
        0 <= i < events.len(),
        events[i].kind == SmfKindView::TrackName(
            vstd::utf8::encode_utf8(
                "Track "@ + crate::text::decimal(track as nat) + " Lane "@ + crate::text::decimal(
                    lane as nat,
                ),
            ),
        ),
        forall|m: int| 0 <= m < i ==> !((#[trigger] events[m]).kind is TrackName),
    ensures
        scanned(events).name == Some((track, lane)),
{
    track_name_round_trip(track, lane);
    lemma_name_is_scanned(events, i, events.len() as int, (track, lane));
    assert(events.take(events.len() as int) =~= events);
}

proof fn lemma_note_end_counts(notes: Seq<RawNote>, raw: RawNote)
    requires
        notes.contains(raw),
    ensures
        raw.end <= last_note_end(notes),
    decreases notes.len(),
{
    let k = choose|k: int| 0 <= k < notes.len() && notes[k] == raw;
    if k < notes.len() - 1 {
        assert(notes.drop_last()[k] == raw);
        lemma_note_end_counts(notes.drop_last(), raw);
    }
}

proof fn lemma_file_end_counts(tracks: Seq<ParsedView>, k: int)
    requires
        0 <= k < tracks.len(),
    ensures
        last_note_end(tracks[k].notes) <= file_end(tracks),
    decreases tracks.len(),
{
    if k < tracks.len() - 1 {
        lemma_file_end_counts(tracks.drop_last(), k);
    }
}

/// A controller that is set to a value, after another one, and not again in its
/// track holds it until everything in the file has ended: its block ends no
/// earlier than any note. The time at which it ends is returned, with where the
/// block and its lane stand.
pub proof fn a_controller_set_last_holds_to_the_end(
    file: SmfView,
    scale: ScaleMode,
    t: int,
    i: int,
    other: int,
    number: int,
    value: int,
    unlike: int,
    u: int,
    a: int,
    b: int,
    channel: int,
    key: int,
    velocity: int,
) -> (found: (int, int, int))
    requires
        file.resolution matches Some(resolution) && resolution > 0,
        0 <= t < file.tracks.len(),
        0 <= i < file.tracks[t].len(),
        0 <= other < file.tracks[t].len(),
        0 <= number < 120 && 1 <= value < 128 && 0 <= unlike < 128,
        sets(file.tracks[t][i], number, value),
        sets(file.tracks[t][other], number, unlike),
        unlike != value,
        forall|m: int|
            i < m < file.tracks[t].len() ==> !is_set(#[trigger] file.tracks[t][m], number),
        time_after(file.tracks[t], file.tracks[t].len() as int) <= u32::MAX,
        0 <= u < file.tracks.len(),
        sounds(file.tracks[u], a, b, channel, key, velocity),
        time_after(file.tracks[u], file.tracks[u].len() as int) <= u32::MAX,
        file_end(kept_tracks(file.tracks)) <= 0x1_0000_0000,
    ensures
        0 <= found.0 < imported(file, scale).notes.len(),
        0 <= found.1 < imported(file, scale).lane_ccs.len(),
        ({
            let note = imported(file, scale).notes[found.0];
            let resolution = file.resolution->0 as int;
            let start = time_after(file.tracks[t], i + 1);
            &&& found.2 >= time_after(file.tracks[u], b + 1)
            &&& found.2 > start
            &&& is_nearest(note.start_tick as int, start, resolution)
            &&& is_nearest(note.duration as int, found.2 - start, resolution)
            &&& note.velocity == value
            &&& imported(file, scale).lane_ccs[found.1] == (note.track, note.lane, number as u8)
        }),
{
    broadcast use vstd::seq_lib::group_to_multiset_ensures;

    let resolution = file.resolution->0;
    let track = file.tracks[t];
    let count = track.len() as int;
    let cc = number as u8;
    lemma_time_grows(track, i + 1, count);
    let start = time_after(track, i + 1);
    let index = controls_among(track, i, cc).len() as int;
    lemma_control_step(track, i + 1, cc);
    lemma_controls_pause(track, i + 1, count, cc);
    lemma_control_step(track, other + 1, cc);
    lemma_controls_stay(track, other + 1, count, cc);
    assert(track.take(count) =~= track);
    let events = events_of(scanned(track).ccs, cc);
    assert(events.len() == index + 1);
    assert(events[index] == (start as u32, value as u8));
    let differs = controls_among(track, other, cc).len() as int;
    assert(events[differs].1 == unlike) by {
        assert(controls_among(track, other + 1, cc)[differs].1 == unlike);
    }
    assert(changes(events)) by {
        if events[0].1 == value {
            assert(events[differs].1 != events[0].1);
        } else {
            assert(events[index].1 != events[0].1);
        }
    }
    let g = lemma_group_is_there(scanned(track).ccs, cc, 120);
    let tracks = kept_tracks(file.tracks);
    let k = lemma_track_is_kept(file.tracks, t);
    let p = lemma_groups_wait(tracks, k, resolution, scale);
    let layout = laid_out(tracks, resolution, scale);
    let end = file_end(tracks);
    let raw = lemma_note_is_scanned(file.tracks[u], a, b, channel, key, velocity);
    let sounding = lemma_track_is_kept(file.tracks, u);
    lemma_note_end_counts(tracks[sounding].notes, raw);
    lemma_file_end_counts(tracks, sounding);
    lemma_time_grows(file.tracks[u], b + 1, file.tracks[u].len() as int);
    let stop = later(end, start as u32);
    let block = Block { start: start as u32, end: stop, value: value as u8 };
    assert(block_at(events, index, end) == Some(block));
    let at = lemma_block_is_there(events, index, events.len() as int, end);
    let found = lemma_pending_is_restored(
        layout.pending,
        p,
        g,
        block,
        at,
        layout,
        end,
        resolution,
    );
    let all = restored(layout.pending, layout, end, resolution);
    let note = all.notes[found.0];
    assert(all.notes.contains(note));
    stable_sort_orders(all.notes);
    assert(all.notes.to_multiset().count(note) > 0);
    let read = imported(file, scale).notes;
    assert(read.contains(note));
    let n = choose|n: int| 0 <= n < read.len() && read[n] == note;
    lemma_read_times(start, stop - start, resolution);
    (n, found.1, stop as int)
}

/// What was read is handed over as it was read, and what is in a file is what its
/// events say.
pub proof fn events_are_seen_as_they_are(read: Imported, event: SmfEvent, file: SmfFile, t: int)
    ensures
        read@.notes == read.notes@,
        read@.tempo == read.tempo,
        read@.time_signature == read.time_signature,
        read@.lane_ccs == read.lane_ccs@,
        event@.delta == event.delta,
        match event.kind {
            SmfKind::Channel(bytes) => event@.kind == SmfKindView::Channel(bytes@),
            SmfKind::Tempo(us) => event@.kind == SmfKindView::Tempo(us),
            SmfKind::TimeSignature(n, d, c, q) => event@.kind == SmfKindView::TimeSignature(
                n,
                d,
                c,
                q,
            ),
            SmfKind::TrackName(bytes) => event@.kind == SmfKindView::TrackName(bytes@),
            SmfKind::EndOfTrack => event@.kind == SmfKindView::EndOfTrack,
        },
        file@.resolution == file.resolution,
        file@.tracks.len() == file.tracks@.len(),
        0 <= t < file.tracks@.len() ==> file@.tracks[t].len() == file.tracks@[t]@.len() && forall|
            i: int,
        |
            0 <= i < file.tracks@[t]@.len() ==> #[trigger] file@.tracks[t][i]
                == file.tracks@[t]@[i]@,
{
}

} // verus!
