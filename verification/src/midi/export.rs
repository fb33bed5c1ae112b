//! Writing a sequence as a MIDI file.

use crate::midi::names::{cell_name, format_track_name, lemma_name_is_short};
use crate::sequencer::{EditorView, MidiEditor, Note, ScaleMode, TrackView, CC_RELEASE};
use crate::smf::{
    all_writable, event_views, is_writable, mended, size_bound, smf_read, smf_written,
    tracks_view, write_file, SmfEvent, SmfEventView, SmfKind, SmfKindView, SmfView,
};
use crate::sorting::{is_ascending, sort_stable, stable_sort_orders, stable_sorted, Rank, Ranked};
use crate::time::{round_quotient, rounded_quotient};
use vstd::prelude::*;
use vstd::string::StringExecFns;
use vstd::utf8::encode_utf8;

verus! {

/// Ticks per quarter note of exported files. Divisions into 3, 5 and 6 come
/// out even.
pub const TICKS_PER_QUARTER: u16 = 960;

/// Ticks of the library in one tick of an exported file.
pub const SCALE_DOWN: i64 = 35;

/// A message to be written, with its time in ticks of the file.
#[derive(Clone, Copy, PartialEq, Eq, Structural, Debug)]
pub struct OutEvent {
    pub tick: u64,
    /// At the same time, messages with a smaller number come first.
    pub order: u8,
    pub status: u8,
    pub first: u8,
    pub second: u8,
}

impl Rank for OutEvent {
    open spec fn rank_le(self, other: Self) -> bool {
        self.tick < other.tick || (self.tick == other.tick && self.order <= other.order)
    }

    proof fn rank_total(a: Self, b: Self) {
    }

    proof fn rank_transitive(a: Self, b: Self, c: Self) {
    }
}

impl Ranked for OutEvent {
    fn not_after(&self, other: &Self) -> (yes: bool) {
        self.tick < other.tick || (self.tick == other.tick && self.order <= other.order)
    }
}

/// A position of the library in ticks of an exported file: rounded to the
/// nearest, nothing before the start, held to 32 bits.
pub open spec fn file_tick(position: int) -> int {
    let tick = rounded_quotient(
        if position < 0 {
            0
        } else {
            position
        },
        SCALE_DOWN as int,
    );
    if tick > u32::MAX {
        u32::MAX as int
    } else {
        tick
    }
}

/// Where a note starts in the file.
pub open spec fn start_in_file(note: Note) -> int {
    file_tick(note.start_tick as int)
}

/// Where a note ends in the file: at least one tick behind its start.
pub open spec fn end_in_file(note: Note) -> int {
    let end = file_tick(note.end() as int);
    if end > start_in_file(note) {
        end
    } else {
        start_in_file(note) + 1
    }
}

/// A byte held to `low` to `high`.
pub open spec fn held(value: u8, low: u8, high: u8) -> u8 {
    if value < low {
        low
    } else if value > high {
        high
    } else {
        value
    }
}

/// The two messages that a note of a lane is written as; none for a note
/// without length or without a MIDI key. On a controller lane they set the
/// value and release it.
pub open spec fn note_messages(
    note: Note,
    controller: Option<u8>,
    channel: u8,
    scale: ScaleMode,
) -> Seq<OutEvent> {
    let start = start_in_file(note) as u64;
    let end = end_in_file(note) as u64;
    if note.duration <= 0 {
        Seq::empty()
    } else {
        match controller {
            Some(number) => seq![
                OutEvent {
                    tick: start,
                    order: 1,
                    status: (0xB0 + channel) as u8,
                    first: held(number, 0, 127),
                    second: held(note.velocity, 0, 127),
                },
                OutEvent {
                    tick: end,
                    order: 0,
                    status: (0xB0 + channel) as u8,
                    first: held(number, 0, 127),
                    second: CC_RELEASE,
                },
            ],
            None => match note.midi_key(scale) {
                None => Seq::empty(),
                Some(key) => seq![
                    OutEvent {
                        tick: start,
                        order: 1,
                        status: (0x90 + channel) as u8,
                        first: key,
                        second: held(note.velocity, 1, 127),
                    },
                    OutEvent {
                        tick: end,
                        order: 0,
                        status: (0x80 + channel) as u8,
                        first: key,
                        second: 0,
                    },
                ],
            },
        }
    }
}

/// The messages of the notes that lie on one lane, note by note.
pub open spec fn cell_messages(
    performed: Seq<Note>,
    cell: (usize, usize),
    controller: Option<u8>,
    scale: ScaleMode,
) -> Seq<OutEvent>
    decreases performed.len(),
{
    if performed.len() == 0 {
        Seq::empty()
    } else {
        let before = cell_messages(performed.drop_last(), cell, controller, scale);
        let note = performed.last();
        if note.track == cell.0 && note.lane == cell.1 {
            before + note_messages(note, controller, (cell.1 % 16) as u8, scale)
        } else {
            before
        }
    }
}

/// Whether a message sets a controller.
pub open spec fn is_controller(event: OutEvent) -> bool {
    0xB0 <= event.status < 0xC0
}

/// Whether controller `number` is set at the time `tick`, before the time
/// advances.
pub open spec fn set_again(later: Seq<OutEvent>, tick: u64, number: u8) -> bool
    decreases later.len(),
{
    &&& later.len() > 0
    &&& later[0].tick == tick
    &&& (is_controller(later[0]) && later[0].first == number) || set_again(
        later.skip(1),
        tick,
        number,
    )
}

/// Whether a message releases a controller that `later` sets again at the
/// same time.
pub open spec fn is_redundant(event: OutEvent, later: Seq<OutEvent>) -> bool {
    &&& is_controller(event)
    &&& event.second == CC_RELEASE
    &&& set_again(later, event.tick, event.first)
}

/// `events` without the releases that are set again at the same time.
pub open spec fn without_redundant_releases(events: Seq<OutEvent>) -> Seq<OutEvent>
    decreases events.len(),
{
    if events.len() == 0 {
        Seq::empty()
    } else {
        let rest = without_redundant_releases(events.skip(1));
        if is_redundant(events[0], events.skip(1)) {
            rest
        } else {
            seq![events[0]] + rest
        }
    }
}

/// The messages of a lane in the order in which they are written.
pub open spec fn ordered_messages(
    performed: Seq<Note>,
    cell: (usize, usize),
    controller: Option<u8>,
    scale: ScaleMode,
) -> Seq<OutEvent> {
    without_redundant_releases(
        stable_sorted(cell_messages(performed, cell, controller, scale)),
    )
}

/// Messages as events of a track. A distance in time keeps its lower 28 bits.
pub open spec fn timed(events: Seq<OutEvent>) -> Seq<SmfEventView> {
    Seq::new(
        events.len(),
        |i: int|
            SmfEventView {
                delta: ((events[i].tick - if i == 0 {
                    0
                } else {
                    events[i - 1].tick as int
                }) % 0x1000_0000) as u32,
                kind: SmfKindView::Channel(
                    seq![events[i].status, events[i].first, events[i].second],
                ),
            },
    )
}

/// The track that a lane is written as.
pub open spec fn cell_track(
    editor: EditorView,
    performed: Seq<Note>,
    cell: (usize, usize),
) -> Seq<SmfEventView> {
    let controller = editor.cc_at(cell.0 as int, cell.1 as int);
    seq![
        SmfEventView {
            delta: 0,
            kind: SmfKindView::TrackName(encode_utf8(cell_name(cell.0 as int, cell.1 as int))),
        },
    ] + timed(ordered_messages(performed, cell, controller, editor.scale)) + seq![
        SmfEventView { delta: 0, kind: SmfKindView::EndOfTrack },
    ]
}

/// The lanes of tracks, track by track.
pub open spec fn lane_cells(tracks: Seq<TrackView>) -> Seq<(usize, usize)>
    decreases tracks.len(),
{
    if tracks.len() == 0 {
        Seq::empty()
    } else {
        lane_cells(tracks.drop_last()) + Seq::new(
            tracks.last().lane_count() as nat,
            |lane: int| ((tracks.len() - 1) as usize, lane as usize),
        )
    }
}

/// `cells`, and behind them the lanes of notes that are not among them.
pub open spec fn with_note_cells(cells: Seq<(usize, usize)>, notes: Seq<Note>) -> Seq<
    (usize, usize),
>
    decreases notes.len(),
{
    if notes.len() == 0 {
        cells
    } else {
        let before = with_note_cells(cells, notes.drop_last());
        let cell = (notes.last().track, notes.last().lane);
        if before.contains(cell) {
            before
        } else {
            before.push(cell)
        }
    }
}

/// The lanes that are written: all of them, empty ones included.
pub open spec fn exported_cells(editor: EditorView) -> Seq<(usize, usize)> {
    with_note_cells(lane_cells(editor.tracks), editor.notes)
}

/// The power of two that a time signature's lower number is written as.
pub open spec fn power_of_beat_type(beat_type: u32) -> u8 {
    if beat_type == 1 {
        0
    } else if beat_type == 2 {
        1
    } else if beat_type == 4 {
        2
    } else if beat_type == 8 {
        3
    } else if beat_type == 16 {
        4
    } else {
        5
    }
}

/// The first track: the tempo and the time signature. The length of a quarter
/// note keeps its lower 24 bits.
pub open spec fn conductor(editor: EditorView) -> Seq<SmfEventView> {
    let tempo = if editor.tempo == 0 {
        1
    } else {
        editor.tempo as int
    };
    seq![
        SmfEventView {
            delta: 0,
            kind: SmfKindView::Tempo(((60_000_000int / tempo) % 0x100_0000) as u32),
        },
        SmfEventView {
            delta: 0,
            kind: SmfKindView::TimeSignature(
                if editor.beats < 1 {
                    1
                } else if editor.beats > 255 {
                    255
                } else {
                    editor.beats as u8
                },
                power_of_beat_type(editor.beat_type),
                24,
                8,
            ),
        },
        SmfEventView { delta: 0, kind: SmfKindView::EndOfTrack },
    ]
}

/// The tracks of the file that a sequence is written as. `performed` holds its
/// notes as they are played, with swing applied.
pub open spec fn exported_tracks(editor: EditorView, performed: Seq<Note>) -> Seq<
    Seq<SmfEventView>,
> {
    let cells = exported_cells(editor);
    seq![conductor(editor)] + Seq::new(
        cells.len(),
        |i: int| cell_track(editor, performed, cells[i]),
    )
}

/// The power of two that a time signature's lower number is written as.
pub fn denominator_power(beat_type: u32) -> (power: u8)
    ensures
        power == power_of_beat_type(beat_type),
{
    if beat_type == 1 {
        0
    } else if beat_type == 2 {
        1
    } else if beat_type == 4 {
        2
    } else if beat_type == 8 {
        3
    } else if beat_type == 16 {
        4
    } else {
        5
    }
}

/// A position of the library in ticks of an exported file.
fn to_file_tick(position: i64) -> (tick: u64)
    ensures
        tick == file_tick(position as int),
        tick <= u32::MAX,
{
    let inside: i64 = if position < 0 {
        0
    } else {
        position
    };
    let tick: i128 = round_quotient(inside as i128, SCALE_DOWN as i128);
    proof {
        assert(rounded_quotient(inside as int, 35) >= 0) by (nonlinear_arith)
            requires
                inside >= 0,
        ;
    }
    if tick > u32::MAX as i128 {
        u32::MAX as u64
    } else {
        tick as u64
    }
}

/// `value` held to `low` to `high`.
fn hold(value: u8, low: u8, high: u8) -> (result: u8)
    ensures
        result == held(value, low, high),
{
    if value < low {
        low
    } else if value > high {
        high
    } else {
        value
    }
}

/// Puts the messages of one note behind `events`.
fn push_note_messages(
    events: &mut Vec<OutEvent>,
    note: &Note,
    controller: Option<u8>,
    channel: u8,
    scale: ScaleMode,
)
    requires
        channel < 16,
    ensures
        final(events)@ == old(events)@ + note_messages(*note, controller, channel, scale),
{
    let ghost before = events@;
    let ghost added = note_messages(*note, controller, channel, scale);
    if note.duration <= 0 {
        assert(events@ =~= before + added);
        return;
    }
    let start: u64 = to_file_tick(note.start_tick);
    let rounded_end: u64 = to_file_tick(note.end_tick());
    let end: u64 = if rounded_end > start {
        rounded_end
    } else {
        start + 1
    };
    match controller {
        Some(number) => {
            let first: u8 = hold(number, 0, 127);
            events.push(
                OutEvent {
                    tick: start,
                    order: 1,
                    status: 0xB0 + channel,
                    first,
                    second: hold(note.velocity, 0, 127),
                },
            );
            events.push(
                OutEvent { tick: end, order: 0, status: 0xB0 + channel, first, second: CC_RELEASE },
            );
        },
        None => match note.key(scale) {
            None => {},
            Some(key) => {
                events.push(
                    OutEvent {
                        tick: start,
                        order: 1,
                        status: 0x90 + channel,
                        first: key,
                        second: hold(note.velocity, 1, 127),
                    },
                );
                events.push(
                    OutEvent { tick: end, order: 0, status: 0x80 + channel, first: key, second: 0 },
                );
            },
        },
    }
    assert(events@ =~= before + added);
}

/// Collects the messages of the notes that lie on one lane.
fn collect_messages(
    performed: &Vec<Note>,
    cell: (usize, usize),
    controller: Option<u8>,
    scale: ScaleMode,
) -> (events: Vec<OutEvent>)
    ensures
        events@ == cell_messages(performed@, cell, controller, scale),
{
    let mut events: Vec<OutEvent> = Vec::new();
    let channel: u8 = (cell.1 % 16) as u8;
    let mut at: usize = 0;
    while at < performed.len()
        invariant
            at <= performed@.len(),
            channel == (cell.1 % 16) as u8,
            channel < 16,
            events@ == cell_messages(performed@.take(at as int), cell, controller, scale),
        decreases performed@.len() - at,
    {
        let note = &performed[at];
        proof {
            assert(performed@.take(at + 1).drop_last() =~= performed@.take(at as int));
            assert(performed@.take(at + 1).last() == *note);
        }
        if note.track == cell.0 && note.lane == cell.1 {
            push_note_messages(&mut events, note, controller, channel, scale);
        }
        at += 1;
    }
    assert(performed@.take(at as int) =~= performed@);
    events
}

/// Removes the releases that are set again at the same time.
pub fn suppress_redundant_cc_releases(events: &Vec<OutEvent>) -> (kept: Vec<OutEvent>)
    ensures
        kept@ == without_redundant_releases(events@),
{
    let mut reversed: Vec<OutEvent> = Vec::new();
    let mut at: usize = events.len();
    assert(events@.skip(at as int) =~= Seq::<OutEvent>::empty());
    assert(reversed@.reverse() =~= Seq::<OutEvent>::empty());
    while at > 0
        invariant
            at <= events@.len(),
            reversed@.reverse() == without_redundant_releases(events@.skip(at as int)),
        decreases at,
    {
        at -= 1;
        let event = events[at];
        let ghost rest = events@.skip(at + 1);
        assert(events@.skip(at as int).skip(1) =~= rest);
        let mut redundant: bool = false;
        if 0xB0 <= event.status && event.status < 0xC0 && event.second == CC_RELEASE {
            redundant = is_set_again(events, at + 1, event.tick, event.first);
        }
        if !redundant {
            let ghost before = reversed@;
            reversed.push(event);
            assert(reversed@.reverse() =~= seq![event] + before.reverse());
        }
    }
    let ghost result = reversed@.reverse();
    let mut kept: Vec<OutEvent> = Vec::new();
    let count: usize = reversed.len();
    let mut done: usize = 0;
    while done < count
        invariant
            count == reversed@.len(),
            done <= count,
            result == reversed@.reverse(),
            kept@ == result.take(done as int),
        decreases count - done,
    {
        kept.push(reversed[count - 1 - done]);
        assert(result.take(done + 1) =~= result.take(done as int).push(result[done as int]));
        done += 1;
    }
    assert(result.take(done as int) =~= result);
    assert(events@.skip(0) =~= events@);
    kept
}

/// Whether controller `number` is set from position `from` on before the time
/// leaves `tick`.
fn is_set_again(events: &Vec<OutEvent>, from: usize, tick: u64, number: u8) -> (yes: bool)
    requires
        from <= events@.len(),
    ensures
        yes == set_again(events@.skip(from as int), tick, number),
{
    let mut at: usize = from;
    while at < events.len()
        invariant
            at <= events@.len(),
            set_again(events@.skip(from as int), tick, number) == set_again(
                events@.skip(at as int),
                tick,
                number,
            ),
        decreases events@.len() - at,
    {
        let later = events[at];
        assert(events@.skip(at as int).skip(1) =~= events@.skip(at + 1));
        if later.tick != tick {
            return false;
        }
        if 0xB0 <= later.status && later.status < 0xC0 && later.first == number {
            return true;
        }
        at += 1;
    }
    false
}

/// What is true of every message that a note is written as.
pub open spec fn is_message(event: OutEvent) -> bool {
    &&& event.tick <= 0x1_0000_0000
    &&& 0x80 <= event.status < 0xC0
    &&& event.first < 0x80
    &&& event.second < 0x80
}

/// Whether every event is a message.
pub open spec fn all_messages(events: Seq<OutEvent>) -> bool {
    forall|i: int| 0 <= i < events.len() ==> is_message(#[trigger] events[i])
}

proof fn lemma_note_messages(note: Note, controller: Option<u8>, channel: u8, scale: ScaleMode)
    requires
        channel < 16,
    ensures
        all_messages(note_messages(note, controller, channel, scale)),
{
    assert(0 <= file_tick(note.start_tick as int) <= u32::MAX) by {
        lemma_file_tick_range(note.start_tick as int);
    }
    assert(0 <= file_tick(note.end() as int) <= u32::MAX) by {
        lemma_file_tick_range(note.end() as int);
    }
}

proof fn lemma_file_tick_range(position: int)
    ensures
        0 <= file_tick(position) <= u32::MAX,
{
    if position >= 0 {
        assert(rounded_quotient(position, 35) >= 0) by (nonlinear_arith)
            requires
                position >= 0,
        ;
    }
}

proof fn lemma_cell_messages(
    performed: Seq<Note>,
    cell: (usize, usize),
    controller: Option<u8>,
    scale: ScaleMode,
)
    ensures
        all_messages(cell_messages(performed, cell, controller, scale)),
    decreases performed.len(),
{
    if performed.len() > 0 {
        lemma_cell_messages(performed.drop_last(), cell, controller, scale);
        lemma_note_messages(performed.last(), controller, (cell.1 % 16) as u8, scale);
    }
}

/// Every message that is kept was there before, and none overtakes another.
proof fn lemma_kept_messages(events: Seq<OutEvent>)
    requires
        is_ascending(events),
    ensures
        is_ascending(without_redundant_releases(events)),
        forall|i: int|
            0 <= i < without_redundant_releases(events).len() ==> events.contains(
                #[trigger] without_redundant_releases(events)[i],
            ),
        without_redundant_releases(events).len() <= events.len(),
    decreases events.len(),
{
    if events.len() > 0 {
        let tail = events.skip(1);
        assert forall|i: int, j: int|
            #![trigger tail[i], tail[j]]
            0 <= i <= j < tail.len() implies tail[i].rank_le(tail[j]) by {
            assert(events[i + 1].rank_le(events[j + 1]));
        }
        lemma_kept_messages(tail);
        let rest = without_redundant_releases(tail);
        let kept = without_redundant_releases(events);
        assert forall|i: int| 0 <= i < rest.len() implies events.contains(#[trigger] rest[i])
            && events[0].rank_le(rest[i]) by {
            assert(tail.contains(rest[i]));
            let m = choose|m: int| 0 <= m < tail.len() && tail[m] == rest[i];
            assert(events[m + 1] == rest[i]);
            assert(events[0].rank_le(events[m + 1]));
        }
        assert forall|i: int, j: int|
            #![trigger kept[i], kept[j]]
            0 <= i <= j < kept.len() implies kept[i].rank_le(kept[j]) by {
            if !is_redundant(events[0], tail) {
                if i > 0 {
                    assert(rest[i - 1].rank_le(rest[j - 1]));
                } else if j > 0 {
                    assert(kept[j] == rest[j - 1]);
                }
            }
        }
        assert forall|i: int| 0 <= i < kept.len() implies events.contains(#[trigger] kept[i]) by {
            if !is_redundant(events[0], tail) {
                if i == 0 {
                    assert(kept[0] == events[0]);
                } else {
                    assert(kept[i] == rest[i - 1]);
                }
            }
        }
    }
}

/// The messages of a lane, in the order in which they are written, are in
/// order of time.
pub proof fn lemma_ordered_messages(
    performed: Seq<Note>,
    cell: (usize, usize),
    controller: Option<u8>,
    scale: ScaleMode,
)
    ensures
        is_ascending(ordered_messages(performed, cell, controller, scale)),
        all_messages(ordered_messages(performed, cell, controller, scale)),
        ordered_messages(performed, cell, controller, scale).len() <= 2 * performed.len(),
{
    broadcast use vstd::seq_lib::group_to_multiset_ensures;

    let raw = cell_messages(performed, cell, controller, scale);
    let sorted = stable_sorted(raw);
    let kept = without_redundant_releases(sorted);
    lemma_cell_messages(performed, cell, controller, scale);
    lemma_cell_message_count(performed, cell, controller, scale);
    stable_sort_orders(raw);
    lemma_kept_messages(sorted);
    assert forall|i: int| 0 <= i < kept.len() implies is_message(#[trigger] kept[i]) by {
        assert(sorted.contains(kept[i]));
        assert(sorted.to_multiset().count(kept[i]) > 0);
        assert(raw.contains(kept[i]));
        let m = choose|m: int| 0 <= m < raw.len() && raw[m] == kept[i];
        assert(is_message(raw[m]));
    }
}

proof fn lemma_cell_message_count(
    performed: Seq<Note>,
    cell: (usize, usize),
    controller: Option<u8>,
    scale: ScaleMode,
)
    ensures
        cell_messages(performed, cell, controller, scale).len() <= 2 * performed.len(),
    decreases performed.len(),
{
    if performed.len() > 0 {
        lemma_cell_message_count(performed.drop_last(), cell, controller, scale);
    }
}

/// The lanes that are written.
fn collect_cells(editor: &MidiEditor) -> (cells: Vec<(usize, usize)>)
    ensures
        cells@ == exported_cells(editor@),
{
    let mut cells: Vec<(usize, usize)> = Vec::new();
    let ghost tracks = editor@.tracks;
    let mut track: usize = 0;
    while track < editor.tracks.len()
        invariant
            track <= editor.tracks@.len(),
            tracks == editor@.tracks,
            cells@ == lane_cells(tracks.take(track as int)),
        decreases editor.tracks@.len() - track,
    {
        let count: usize = editor.lanes(track);
        let ghost before = cells@;
        let ghost all = Seq::new(
            tracks[track as int].lane_count() as nat,
            |lane: int| (track, lane as usize),
        );
        let mut lane: usize = 0;
        while lane < count
            invariant
                lane <= count,
                count == all.len(),
                forall|i: int| 0 <= i < all.len() ==> #[trigger] all[i] == (track, i as usize),
                cells@ == before + all.take(lane as int),
            decreases count - lane,
        {
            cells.push((track, lane));
            assert(all.take(lane + 1) =~= all.take(lane as int).push(all[lane as int]));
            assert(cells@ =~= before + all.take(lane + 1));
            lane += 1;
        }
        proof {
            assert(all.take(lane as int) =~= all);
            let next = tracks.take(track + 1);
            assert(next.drop_last() =~= tracks.take(track as int));
            assert(Seq::new(
                next.last().lane_count() as nat,
                |lane: int| ((next.len() - 1) as usize, lane as usize),
            ) =~= all);
        }
        track += 1;
    }
    assert(tracks.take(track as int) =~= tracks);
    let ghost base = cells@;
    let mut at: usize = 0;
    while at < editor.notes.len()
        invariant
            at <= editor.notes@.len(),
            cells@ == with_note_cells(base, editor.notes@.take(at as int)),
        decreases editor.notes@.len() - at,
    {
        let note = &editor.notes[at];
        let cell: (usize, usize) = (note.track, note.lane);
        proof {
            assert(editor.notes@.take(at + 1).drop_last() =~= editor.notes@.take(at as int));
        }
        if !holds_cell(&cells, cell) {
            cells.push(cell);
        }
        at += 1;
    }
    assert(editor.notes@.take(at as int) =~= editor.notes@);
    cells
}

/// Whether a lane is among `cells`.
fn holds_cell(cells: &Vec<(usize, usize)>, cell: (usize, usize)) -> (yes: bool)
    ensures
        yes == cells@.contains(cell),
{
    let mut at: usize = 0;
    while at < cells.len()
        invariant
            at <= cells@.len(),
            forall|i: int| 0 <= i < at ==> cells@[i] != cell,
        decreases cells@.len() - at,
    {
        let here: (usize, usize) = cells[at];
        if here.0 == cell.0 && here.1 == cell.1 {
            assert(cells@[at as int] == cell);
            return true;
        }
        at += 1;
    }
    false
}

/// Builds the track that a lane is written as.
fn build_cell_track(editor: &MidiEditor, performed: &Vec<Note>, cell: (usize, usize)) -> (events:
    Vec<SmfEvent>)
    ensures
        event_views(events@) == cell_track(editor@, performed@, cell),
        all_writable(event_views(events@)),
{
    let controller = editor.lane_cc(cell.0, cell.1);
    let raw = collect_messages(performed, cell, controller, editor.scale);
    let sorted = sort_stable(raw);
    let ordered = suppress_redundant_cc_releases(&sorted);
    let ghost messages = ordered_messages(performed@, cell, controller, editor.scale);
    proof {
        lemma_ordered_messages(performed@, cell, controller, editor.scale);
        lemma_name_is_short(cell.0, cell.1);
    }
    let mut events: Vec<SmfEvent> = Vec::new();
    let name = format_track_name(cell.0, cell.1);
    events.push(SmfEvent { delta: 0, kind: SmfKind::TrackName(name.as_str().as_bytes_vec()) });
    let ghost head = event_views(events@);
    let ghost tail = timed(messages);
    let ghost end = SmfEventView { delta: 0, kind: SmfKindView::EndOfTrack };
    proof {
        let name_event = SmfEventView {
            delta: 0,
            kind: SmfKindView::TrackName(encode_utf8(cell_name(cell.0 as int, cell.1 as int))),
        };
        assert(events@[0]@ == name_event);
        assert(head =~= seq![name_event]);
        assert(head =~= head + tail.take(0));
    }
    let mut previous: u64 = 0;
    let mut at: usize = 0;
    while at < ordered.len()
        invariant
            at <= ordered@.len(),
            ordered@ == messages,
            tail == timed(messages),
            is_ascending(messages),
            all_messages(messages),
            previous == (if at == 0 {
                0
            } else {
                messages[at - 1].tick
            }),
            event_views(events@) == head + tail.take(at as int),
        decreases ordered@.len() - at,
    {
        let event = ordered[at];
        proof {
            assert(is_message(messages[at as int]));
            if at > 0 {
                assert(messages[at - 1].rank_le(messages[at as int]));
            }
        }
        let delta: u32 = ((event.tick - previous) % 0x1000_0000) as u32;
        let bytes: Vec<u8> = vec![event.status, event.first, event.second];
        let next = SmfEvent { delta, kind: SmfKind::Channel(bytes) };
        let ghost before = events@;
        proof {
            assert(bytes@ =~= seq![event.status, event.first, event.second]);
            assert(next@ == tail[at as int]);
        }
        events.push(next);
        proof {
            assert(event_views(events@) =~= event_views(before).push(next@));
            assert(tail.take(at + 1) =~= tail.take(at as int).push(tail[at as int]));
            assert(event_views(events@) =~= head + tail.take(at + 1));
        }
        previous = event.tick;
        at += 1;
    }
    let ghost before = events@;
    events.push(SmfEvent { delta: 0, kind: SmfKind::EndOfTrack });
    proof {
        assert(tail.take(at as int) =~= tail);
        assert(event_views(events@) =~= event_views(before).push(end));
        assert(event_views(events@) =~= head + tail + seq![end]);
        let views = event_views(events@);
        assert forall|i: int| 0 <= i < views.len() implies is_writable(#[trigger] views[i]) by {
            if 0 < i < views.len() - 1 {
                assert(views[i] == tail[i - 1]);
                assert(is_message(messages[i - 1]));
            }
        }
    }
    events
}

/// Builds the first track.
fn build_conductor(editor: &MidiEditor) -> (events: Vec<SmfEvent>)
    ensures
        event_views(events@) == conductor(editor@),
        all_writable(event_views(events@)),
{
    let tempo: u32 = if editor.tempo == 0 {
        1
    } else {
        editor.tempo
    };
    let us: u32 = (60_000_000u32 / tempo) % 0x100_0000;
    let beats: u8 = if editor.beats < 1 {
        1
    } else if editor.beats > 255 {
        255
    } else {
        editor.beats as u8
    };
    let events: Vec<SmfEvent> = vec![
        SmfEvent { delta: 0, kind: SmfKind::Tempo(us) },
        SmfEvent {
            delta: 0,
            kind: SmfKind::TimeSignature(beats, denominator_power(editor.beat_type), 24, 8),
        },
        SmfEvent { delta: 0, kind: SmfKind::EndOfTrack },
    ];
    assert(event_views(events@) =~= conductor(editor@));
    events
}

/// Builds the tracks of the file that a sequence is written as.
pub fn build_tracks(editor: &MidiEditor, performed: &Vec<Note>) -> (tracks: Vec<Vec<SmfEvent>>)
    ensures
        tracks_view(tracks@) == exported_tracks(editor@, performed@),
        forall|i: int|
            0 <= i < tracks@.len() ==> all_writable(event_views(#[trigger] tracks@[i]@)),
{
    let cells = collect_cells(editor);
    let mut tracks: Vec<Vec<SmfEvent>> = Vec::new();
    tracks.push(build_conductor(editor));
    let ghost whole = exported_tracks(editor@, performed@);
    assert(tracks_view(tracks@) =~= whole.take(1));
    let mut at: usize = 0;
    while at < cells.len()
        invariant
            at <= cells@.len(),
            cells@ == exported_cells(editor@),
            whole == exported_tracks(editor@, performed@),
            tracks_view(tracks@) == whole.take(at + 1),
            forall|i: int|
                0 <= i < tracks@.len() ==> all_writable(event_views(#[trigger] tracks@[i]@)),
        decreases cells@.len() - at,
    {
        let events = build_cell_track(editor, performed, cells[at]);
        let ghost before = tracks@;
        tracks.push(events);
        proof {
            assert(tracks_view(tracks@) =~= tracks_view(before).push(event_views(events@)));
            assert(whole.take(at + 2) =~= whole.take(at + 1).push(whole[at + 1]));
        }
        at += 1;
    }
    assert(whole.take(at + 1) =~= whole);
    tracks
}

/// Writes a sequence as a MIDI file. `performed` holds its notes as they are
/// played, with swing applied.
pub fn to_bytes(editor: &MidiEditor, performed: &Vec<Note>) -> (outcome: Result<Vec<u8>, String>)
    ensures
        match outcome {
            Ok(bytes) => {
                &&& smf_written(TICKS_PER_QUARTER, exported_tracks(editor@, performed@))
                    == Ok::<Seq<u8>, Seq<char>>(bytes@)
                &&& smf_read(mended(bytes@)) == Ok::<SmfView, Seq<char>>(
                    SmfView {
                        resolution: Some(TICKS_PER_QUARTER),
                        tracks: exported_tracks(editor@, performed@),
                    },
                )
            },
            Err(text) => exists|detail: Seq<char>| #[trigger]
                "MIDI の書き出しに失敗しました: "@ + detail == text@ && smf_written(
                    TICKS_PER_QUARTER,
                    exported_tracks(editor@, performed@),
                ) == Err::<Seq<u8>, Seq<char>>(detail),
        },
        exported_cells(editor@).len() < 65535 && performed@.len() < 0x400_0000 ==> outcome is Ok,
        exported_cells(editor@).len() >= 65535 ==> outcome is Err,
{
    let tracks = build_tracks(editor, performed);
    let ghost views = exported_tracks(editor@, performed@);
    proof {
        assert(tracks@.len() == tracks_view(tracks@).len());
        assert forall|i: int| 0 <= i < tracks@.len() && performed@.len() < 0x400_0000 implies
            size_bound(event_views(#[trigger] tracks@[i]@)) <= u32::MAX by {
            assert(tracks_view(tracks@)[i] == views[i]);
            lemma_track_size(editor@, performed@, i);
        }
    }
    match write_file(TICKS_PER_QUARTER, &tracks) {
        Ok(bytes) => Ok(bytes),
        Err(detail) => {
            let mut text = String::from_str("MIDI の書き出しに失敗しました: ");
            text.append(detail.as_str());
            Err(text)
        },
    }
}

/// The size of a track grows with its events.
proof fn lemma_size_of_plain(events: Seq<SmfEventView>)
    requires
        forall|i: int| 0 <= i < events.len() ==> !(#[trigger] events[i].kind is TrackName),
    ensures
        size_bound(events) == 11 * events.len(),
    decreases events.len(),
{
    if events.len() > 0 {
        let last = events[events.len() - 1];
        assert(!(last.kind is TrackName));
        lemma_size_of_plain(events.drop_last());
    }
}

/// A name in front of plain events adds its bytes.
proof fn lemma_size_of_named(head: SmfEventView, rest: Seq<SmfEventView>)
    requires
        forall|i: int| 0 <= i < rest.len() ==> !(#[trigger] rest[i].kind is TrackName),
    ensures
        size_bound(seq![head] + rest) <= 11 * rest.len() + 11 + match head.kind {
            SmfKindView::TrackName(bytes) => bytes.len() as int,
            _ => 0,
        },
    decreases rest.len(),
{
    reveal_with_fuel(size_bound, 2);
    let whole = seq![head] + rest;
    if rest.len() == 0 {
        assert(whole.drop_last() =~= Seq::<SmfEventView>::empty());
    } else {
        assert(whole.drop_last() =~= seq![head] + rest.drop_last());
        let last = rest[rest.len() - 1];
        assert(!(last.kind is TrackName));
        lemma_size_of_named(head, rest.drop_last());
    }
}

/// The tracks of a sequence with fewer than 2^26 notes fit into a file.
proof fn lemma_track_size(editor: EditorView, performed: Seq<Note>, track: int)
    requires
        0 <= track < exported_tracks(editor, performed).len(),
        performed.len() < 0x400_0000,
    ensures
        size_bound(exported_tracks(editor, performed)[track]) <= u32::MAX,
{
    let events = exported_tracks(editor, performed)[track];
    if track == 0 {
        lemma_size_of_plain(events);
    } else {
        let cell = exported_cells(editor)[track - 1];
        let controller = editor.cc_at(cell.0 as int, cell.1 as int);
        lemma_ordered_messages(performed, cell, controller, editor.scale);
        lemma_name_is_short(cell.0, cell.1);
        let messages = timed(ordered_messages(performed, cell, controller, editor.scale));
        let rest = messages + seq![SmfEventView { delta: 0, kind: SmfKindView::EndOfTrack }];
        assert(events == cell_track(editor, performed, cell));
        assert(events =~= seq![events[0]] + rest);
        lemma_size_of_named(events[0], rest);
    }
}

} // verus!
