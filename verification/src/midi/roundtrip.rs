//! Reading an exported file gives the exported notes back.

use crate::midi::export::{
    cell_messages, conductor, exported_cells, exported_tracks, lane_cells, power_of_beat_type,
    with_note_cells, cell_track, end_in_file, file_tick, held, is_controller, is_redundant,
    lemma_ordered_messages, note_messages, ordered_messages, start_in_file, timed,
    without_redundant_releases, OutEvent, TICKS_PER_QUARTER,
};
use crate::midi::import::{
    block_at, block_note, block_notes, blocks_among, blocks_of, changes, changing_groups, events_of,
    file_end, first_signature, first_tempo, imported, is_kept, kept_tracks, laid_out, later,
    library_ticks, parsed, placed_note, restored, message_of, scanned, signature_of, sounding_key,
    tempo_of, Block, GroupView, LayoutView, Message, ParsedView, PendingView, RawCc, RawNote,
    RestoreView, ScanView, FIRST_CHANNEL_MODE_CC,
};
use crate::midi::names::{cell_name, track_name_round_trip};
use crate::sequencer::{EditorView, Note, ScaleMode, TrackView, CC_RELEASE};
use crate::smf::{SmfEventView, SmfKindView, SmfView};
use crate::sorting::{is_ascending, stable_sort_orders, stable_sorted, Rank};
use crate::time::lemma_nearest_of_multiple;
use vstd::multiset::Multiset;
use vstd::prelude::*;
use vstd::utf8::encode_utf8;

verus! {

/// What is heard when messages are played after `base`.
spec fn heard(base: ScanView, messages: Seq<OutEvent>) -> ScanView
    decreases messages.len(),
{
    if messages.len() == 0 {
        base
    } else {
        let last = messages.last();
        ScanView { at: last.tick as u32, ..heard(base, messages.drop_last()) }.after_message(
            message_of(seq![last.status, last.first, last.second]),
        )
    }
}

/// Whether every message comes early enough for distances to fit.
spec fn all_early(messages: Seq<OutEvent>) -> bool {
    forall|i: int| 0 <= i < messages.len() ==> (#[trigger] messages[i]).tick < 0x1000_0000
}

/// What is read of the name in front of the track of a lane.
spec fn named(cell: (usize, usize)) -> ScanView {
    ScanView { name: Some(cell), ..ScanView::start() }
}

/// The event that names the track of a lane.
spec fn name_event(cell: (usize, usize)) -> SmfEventView {
    SmfEventView {
        delta: 0,
        kind: SmfKindView::TrackName(encode_utf8(cell_name(cell.0 as int, cell.1 as int))),
    }
}

proof fn lemma_heard_time(base: ScanView, messages: Seq<OutEvent>)
    ensures
        heard(base, messages).at == (if messages.len() == 0 {
            base.at
        } else {
            messages.last().tick as u32
        }),
        heard(base, messages).name == base.name,
        heard(base, messages).tempo == base.tempo,
        heard(base, messages).signature == base.signature,
    decreases messages.len(),
{
    if messages.len() > 0 {
        lemma_heard_time(base, messages.drop_last());
    }
}

/// Written distances between messages add up to their times again.
proof fn lemma_scan_timed(cell: (usize, usize), messages: Seq<OutEvent>)
    requires
        is_ascending(messages),
        all_early(messages),
    ensures
        scanned(seq![name_event(cell)] + timed(messages)) == heard(named(cell), messages),
    decreases messages.len(),
{
    let events = seq![name_event(cell)] + timed(messages);
    if messages.len() == 0 {
        reveal_with_fuel(scanned, 2);
        track_name_round_trip(cell.0, cell.1);
        assert(events =~= seq![name_event(cell)]);
        assert(events.drop_last() =~= Seq::<SmfEventView>::empty());
        assert(scanned(events) =~= named(cell));
    } else {
        let before = messages.drop_last();
        let last = messages.last();
        let count = messages.len() as int;
        assert forall|i: int, j: int|
            #![trigger before[i], before[j]]
            0 <= i <= j < before.len() implies before[i].rank_le(before[j]) by {
            assert(messages[i].rank_le(messages[j]));
        }
        assert forall|i: int| 0 <= i < before.len() implies (#[trigger] before[i]).tick
            < 0x1000_0000 by {
            assert(messages[i].tick < 0x1000_0000);
        }
        lemma_scan_timed(cell, before);
        assert(timed(messages).drop_last() =~= timed(before));
        assert(events.drop_last() =~= seq![name_event(cell)] + timed(before));
        assert(events.last() == timed(messages)[count - 1]);
        lemma_heard_time(named(cell), before);
        assert(messages[count - 1].tick < 0x1000_0000);
        if count > 1 {
            assert(messages[count - 2].rank_le(messages[count - 1]));
            assert(before.last() == messages[count - 2]);
        }
    }
}

/// The track of a lane is read as the messages of the lane.
proof fn lemma_scan_cell_track(editor: EditorView, performed: Seq<Note>, cell: (usize, usize))
    requires
        all_early(
            ordered_messages(
                performed,
                cell,
                editor.cc_at(cell.0 as int, cell.1 as int),
                editor.scale,
            ),
        ),
    ensures
        scanned(cell_track(editor, performed, cell)) == heard(
            named(cell),
            ordered_messages(
                performed,
                cell,
                editor.cc_at(cell.0 as int, cell.1 as int),
                editor.scale,
            ),
        ),
{
    let controller = editor.cc_at(cell.0 as int, cell.1 as int);
    let messages = ordered_messages(performed, cell, controller, editor.scale);
    lemma_ordered_messages(performed, cell, controller, editor.scale);
    lemma_scan_timed(cell, messages);
    let track = cell_track(editor, performed, cell);
    assert(track.drop_last() =~= seq![name_event(cell)] + timed(messages));
    assert(track.last() == SmfEventView { delta: 0, kind: SmfKindView::EndOfTrack });
    assert(scanned(track) =~= heard(named(cell), messages));
}

/// The notes that lie on a lane.
pub open spec fn notes_on(notes: Seq<Note>, cell: (usize, usize)) -> Seq<Note>
    decreases notes.len(),
{
    if notes.len() == 0 {
        Seq::empty()
    } else {
        let before = notes_on(notes.drop_last(), cell);
        if notes.last().track == cell.0 && notes.last().lane == cell.1 {
            before.push(notes.last())
        } else {
            before
        }
    }
}

/// A note as it stands in the file.
spec fn raw_of(note: Note, scale: ScaleMode) -> RawNote {
    RawNote {
        start: start_in_file(note) as u32,
        end: end_in_file(note) as u64,
        key: note.midi_key(scale)->0,
        velocity: held(note.velocity, 1, 127),
    }
}

/// The message that starts a note.
spec fn on_of(note: Note, channel: u8, scale: ScaleMode) -> OutEvent {
    OutEvent {
        tick: start_in_file(note) as u64,
        order: 1,
        status: (0x90 + channel) as u8,
        first: note.midi_key(scale)->0,
        second: held(note.velocity, 1, 127),
    }
}

/// The message that ends a note.
spec fn off_of(note: Note, channel: u8, scale: ScaleMode) -> OutEvent {
    OutEvent {
        tick: end_in_file(note) as u64,
        order: 0,
        status: (0x80 + channel) as u8,
        first: note.midi_key(scale)->0,
        second: 0,
    }
}

/// Whether a note is written as two messages, early in the file.
spec fn is_playable(note: Note, scale: ScaleMode) -> bool {
    &&& note.duration > 0
    &&& note.midi_key(scale) is Some
    &&& 0 <= start_in_file(note)
    &&& end_in_file(note) < 0x1000_0000
}

/// Whether two notes of the same key sound at the same time.
spec fn same_key_overlap(a: Note, b: Note, scale: ScaleMode) -> bool {
    &&& a.midi_key(scale) == b.midi_key(scale)
    &&& start_in_file(a) < end_in_file(b)
    &&& start_in_file(b) < end_in_file(a)
}

/// Whether notes can be told apart in the file: all are written, and none
/// overlaps another of its key.
spec fn are_apart(notes: Seq<Note>, scale: ScaleMode) -> bool {
    &&& forall|i: int| 0 <= i < notes.len() ==> is_playable(#[trigger] notes[i], scale)
    &&& forall|i: int, j: int|
        #![trigger notes[i], notes[j]]
        0 <= i < notes.len() && 0 <= j < notes.len() && i != j ==> !same_key_overlap(
            notes[i],
            notes[j],
            scale,
        )
}

/// Whether a message belongs to one of the notes.
spec fn belongs(event: OutEvent, notes: Seq<Note>, channel: u8, scale: ScaleMode) -> bool {
    exists|j: int|
        0 <= j < notes.len() && (event == on_of(#[trigger] notes[j], channel, scale) || event
            == off_of(notes[j], channel, scale))
}

/// The messages of a note lane are those of its notes, each once.
proof fn lemma_messages_of_notes(
    performed: Seq<Note>,
    cell: (usize, usize),
    scale: ScaleMode,
)
    requires
        are_apart(notes_on(performed, cell), scale),
    ensures
        cell_messages(performed, cell, None, scale).no_duplicates(),
        forall|e: OutEvent|
            #[trigger] cell_messages(performed, cell, None, scale).contains(e) <==> belongs(
                e,
                notes_on(performed, cell),
                (cell.1 % 16) as u8,
                scale,
            ),
    decreases performed.len(),
{
    let channel = (cell.1 % 16) as u8;
    let messages = cell_messages(performed, cell, None, scale);
    let notes = notes_on(performed, cell);
    if performed.len() > 0 {
        let shorter = performed.drop_last();
        let before = cell_messages(shorter, cell, None, scale);
        let earlier = notes_on(shorter, cell);
        let last = performed.last();
        if last.track == cell.0 && last.lane == cell.1 {
            assert(notes == earlier.push(last));
            assert forall|i: int| 0 <= i < earlier.len() implies is_playable(
                #[trigger] earlier[i],
                scale,
            ) by {
                assert(notes[i] == earlier[i]);
            }
            assert forall|i: int, j: int|
                #![trigger earlier[i], earlier[j]]
                0 <= i < earlier.len() && 0 <= j < earlier.len() && i != j implies
                !same_key_overlap(earlier[i], earlier[j], scale) by {
                assert(notes[i] == earlier[i]);
                assert(notes[j] == earlier[j]);
            }
            lemma_messages_of_notes(shorter, cell, scale);
            assert(notes[notes.len() - 1] == last);
            assert(is_playable(last, scale));
            let on = on_of(last, channel, scale);
            let off = off_of(last, channel, scale);
            assert(note_messages(last, None, channel, scale) =~= seq![on, off]);
            assert(messages =~= before.push(on).push(off));
            assert(!belongs(on, earlier, channel, scale)) by {
                if belongs(on, earlier, channel, scale) {
                    let j = choose|j: int|
                        0 <= j < earlier.len() && (on == on_of(#[trigger] earlier[j], channel, scale)
                            || on == off_of(earlier[j], channel, scale));
                    assert(notes[j] == earlier[j]);
                    assert(is_playable(notes[j], scale));
                    assert(same_key_overlap(notes[j], notes[notes.len() - 1], scale));
                }
            }
            assert(!belongs(off, earlier, channel, scale)) by {
                if belongs(off, earlier, channel, scale) {
                    let j = choose|j: int|
                        0 <= j < earlier.len() && (off == on_of(
                            #[trigger] earlier[j],
                            channel,
                            scale,
                        ) || off == off_of(earlier[j], channel, scale));
                    assert(notes[j] == earlier[j]);
                    assert(is_playable(notes[j], scale));
                    assert(same_key_overlap(notes[j], notes[notes.len() - 1], scale));
                }
            }
            assert(!before.contains(on) && !before.contains(off));
            assert forall|e: OutEvent| #[trigger] messages.contains(e) <==> belongs(
                e,
                notes,
                channel,
                scale,
            ) by {
                if messages.contains(e) {
                    let i = choose|i: int| 0 <= i < messages.len() && messages[i] == e;
                    if i < before.len() {
                        assert(before[i] == e);
                        assert(before.contains(e));
                        let j = choose|j: int|
                            0 <= j < earlier.len() && (e == on_of(
                                #[trigger] earlier[j],
                                channel,
                                scale,
                            ) || e == off_of(earlier[j], channel, scale));
                        assert(notes[j] == earlier[j]);
                    } else {
                        assert(e == on || e == off);
                        assert(notes[notes.len() - 1] == last);
                    }
                }
                if belongs(e, notes, channel, scale) {
                    let j = choose|j: int|
                        0 <= j < notes.len() && (e == on_of(#[trigger] notes[j], channel, scale)
                            || e == off_of(notes[j], channel, scale));
                    if j < earlier.len() {
                        assert(notes[j] == earlier[j]);
                        assert(belongs(e, earlier, channel, scale));
                        assert(before.contains(e));
                        let i = choose|i: int| 0 <= i < before.len() && before[i] == e;
                        assert(messages[i] == e);
                    } else {
                        assert(messages[before.len() as int] == on);
                        assert(messages[before.len() as int + 1] == off);
                    }
                }
            }
            assert(messages.no_duplicates()) by {
                assert(on != off);
            }
        } else {
            lemma_messages_of_notes(shorter, cell, scale);
        }
    }
}

/// Whether note `j` has started and not ended in a run of messages.
spec fn sounds(run: Seq<OutEvent>, notes: Seq<Note>, channel: u8, scale: ScaleMode, j: int) -> bool {
    &&& 0 <= j < notes.len()
    &&& run.contains(on_of(notes[j], channel, scale))
    &&& !run.contains(off_of(notes[j], channel, scale))
}

/// Whether note `j` has ended in a run of messages.
spec fn has_ended(
    run: Seq<OutEvent>,
    notes: Seq<Note>,
    channel: u8,
    scale: ScaleMode,
    j: int,
) -> bool {
    &&& 0 <= j < notes.len()
    &&& run.contains(off_of(notes[j], channel, scale))
}

/// The number under which a note is filed while it sounds.
spec fn filed(note: Note, channel: u8, scale: ScaleMode) -> u32 {
    sounding_key(channel, note.midi_key(scale)->0)
}

/// What was heard of a run of messages: the notes that sound, and those that
/// have ended.
spec fn hears(
    scan: ScanView,
    run: Seq<OutEvent>,
    notes: Seq<Note>,
    channel: u8,
    scale: ScaleMode,
) -> bool {
    &&& scan.ccs.len() == 0
    &&& forall|f: u32| #[trigger]
        scan.sounding.dom().contains(f) ==> exists|j: int| #[trigger]
            sounds(run, notes, channel, scale, j) && filed(notes[j], channel, scale) == f
    &&& forall|j: int| #[trigger]
        sounds(run, notes, channel, scale, j) ==> {
            &&& scan.sounding.dom().contains(filed(notes[j], channel, scale))
            &&& scan.sounding[filed(notes[j], channel, scale)] == (
                raw_of(notes[j], scale).start,
                raw_of(notes[j], scale).velocity,
            )
        }
    &&& scan.notes.no_duplicates()
    &&& forall|r: RawNote| #[trigger]
        scan.notes.contains(r) ==> exists|j: int| #[trigger]
            has_ended(run, notes, channel, scale, j) && raw_of(notes[j], scale) == r
    &&& forall|j: int| #[trigger]
        has_ended(run, notes, channel, scale, j) ==> scan.notes.contains(raw_of(notes[j], scale))
}

/// Whether `messages` are the messages of the notes in order of time.
spec fn plays(messages: Seq<OutEvent>, notes: Seq<Note>, channel: u8, scale: ScaleMode) -> bool {
    &&& is_ascending(messages)
    &&& messages.no_duplicates()
    &&& forall|e: OutEvent| #[trigger]
        messages.contains(e) <==> belongs(e, notes, channel, scale)
}

/// A message that is among the messages but not in the first `count` comes
/// later.
proof fn lemma_later(messages: Seq<OutEvent>, count: int, e: OutEvent) -> (at: int)
    requires
        0 <= count <= messages.len(),
        messages.contains(e),
        !messages.take(count).contains(e),
    ensures
        count <= at < messages.len(),
        messages[at] == e,
{
    let at = choose|at: int| 0 <= at < messages.len() && messages[at] == e;
    if at < count {
        assert(messages.take(count)[at] == e);
    }
    at
}

/// A message in the first `count` comes earlier.
proof fn lemma_earlier(messages: Seq<OutEvent>, count: int, e: OutEvent) -> (at: int)
    requires
        0 <= count <= messages.len(),
        messages.take(count).contains(e),
    ensures
        0 <= at < count,
        messages[at] == e,
{
    choose|at: int| 0 <= at < count && messages.take(count)[at] == e
}

/// At any time at most one note of a key sounds.
proof fn lemma_one_sounds(
    messages: Seq<OutEvent>,
    count: int,
    notes: Seq<Note>,
    channel: u8,
    scale: ScaleMode,
    i: int,
    j: int,
)
    requires
        plays(messages, notes, channel, scale),
        are_apart(notes, scale),
        0 <= count <= messages.len(),
        sounds(messages.take(count), notes, channel, scale, i),
        sounds(messages.take(count), notes, channel, scale, j),
        filed(notes[i], channel, scale) == filed(notes[j], channel, scale),
    ensures
        i == j,
{
    let run = messages.take(count);
    let on_i = lemma_earlier(messages, count, on_of(notes[i], channel, scale));
    let on_j = lemma_earlier(messages, count, on_of(notes[j], channel, scale));
    assert(belongs(off_of(notes[i], channel, scale), notes, channel, scale));
    assert(belongs(off_of(notes[j], channel, scale), notes, channel, scale));
    let off_i = lemma_later(messages, count, off_of(notes[i], channel, scale));
    let off_j = lemma_later(messages, count, off_of(notes[j], channel, scale));
    assert(messages[on_i].rank_le(messages[off_j]));
    assert(messages[on_j].rank_le(messages[off_i]));
    assert(is_playable(notes[i], scale) && is_playable(notes[j], scale));
    if i != j {
        assert(same_key_overlap(notes[i], notes[j], scale));
    }
}

/// What is heard grows message by message.
proof fn lemma_hear_next(
    scan: ScanView,
    messages: Seq<OutEvent>,
    count: int,
    notes: Seq<Note>,
    channel: u8,
    scale: ScaleMode,
)
    requires
        plays(messages, notes, channel, scale),
        are_apart(notes, scale),
        channel < 16,
        0 <= count < messages.len(),
        hears(scan, messages.take(count), notes, channel, scale),
    ensures
        hears(
            ScanView { at: messages[count].tick as u32, ..scan }.after_message(
                message_of(
                    seq![messages[count].status, messages[count].first, messages[count].second],
                ),
            ),
            messages.take(count + 1),
            notes,
            channel,
            scale,
        ),
{
    let run = messages.take(count);
    let longer = messages.take(count + 1);
    let e = messages[count];
    let bytes = seq![e.status, e.first, e.second];
    let after = ScanView { at: e.tick as u32, ..scan }.after_message(message_of(bytes));
    assert(messages.contains(e));
    let k = choose|k: int|
        0 <= k < notes.len() && (e == on_of(#[trigger] notes[k], channel, scale) || e == off_of(
            notes[k],
            channel,
            scale,
        ));
    let on = on_of(notes[k], channel, scale);
    let off = off_of(notes[k], channel, scale);
    let raw = raw_of(notes[k], scale);
    let file = filed(notes[k], channel, scale);
    assert(is_playable(notes[k], scale));
    assert(notes[k].midi_key(scale) is Some);
    assert forall|x: OutEvent| #[trigger] longer.contains(x) <==> run.contains(x) || x == e by {
        if longer.contains(x) {
            let i = lemma_earlier(messages, count + 1, x);
            if i < count {
                assert(run[i] == x);
            }
        }
        if run.contains(x) {
            let i = lemma_earlier(messages, count, x);
            assert(longer[i] == x);
        }
        if x == e {
            assert(longer[count] == x);
        }
    }
    assert(!run.contains(e)) by {
        if run.contains(e) {
            let i = lemma_earlier(messages, count, e);
        }
    }
    assert(belongs(on, notes, channel, scale) && belongs(off, notes, channel, scale));
    if e == on {
        assert(!run.contains(off)) by {
            if run.contains(off) {
                let i = lemma_earlier(messages, count, off);
                assert(messages[i].rank_le(messages[count]));
            }
        }
        assert(message_of(bytes) == Message::On { channel, key: e.first, velocity: e.second });
        assert(after.sounding == scan.sounding.insert(file, (raw.start, raw.velocity)));
        assert(sounds(longer, notes, channel, scale, k));
        assert forall|f: u32| #[trigger] after.sounding.dom().contains(f) implies exists|j: int|
            #[trigger]
            sounds(longer, notes, channel, scale, j) && filed(notes[j], channel, scale) == f by {
            if f != file {
                assert(scan.sounding.dom().contains(f));
                let j = choose|j: int| #[trigger]
                    sounds(run, notes, channel, scale, j) && filed(notes[j], channel, scale) == f;
                assert(sounds(longer, notes, channel, scale, j));
            }
        }
        assert forall|j: int| #[trigger] sounds(longer, notes, channel, scale, j) implies {
            &&& after.sounding.dom().contains(filed(notes[j], channel, scale))
            &&& after.sounding[filed(notes[j], channel, scale)] == (
                raw_of(notes[j], scale).start,
                raw_of(notes[j], scale).velocity,
            )
        } by {
            if filed(notes[j], channel, scale) == file {
                assert(longer == messages.take(count + 1));
                lemma_one_sounds(messages, count + 1, notes, channel, scale, j, k);
            } else {
                assert(sounds(run, notes, channel, scale, j));
            }
        }
        assert forall|r: RawNote| #[trigger] after.notes.contains(r) implies exists|j: int|
            #[trigger]
            has_ended(longer, notes, channel, scale, j) && raw_of(notes[j], scale) == r by {
            assert(scan.notes.contains(r));
            let j = choose|j: int| #[trigger]
                has_ended(run, notes, channel, scale, j) && raw_of(notes[j], scale) == r;
            assert(has_ended(longer, notes, channel, scale, j));
        }
        assert forall|j: int| #[trigger] has_ended(longer, notes, channel, scale, j) implies
            after.notes.contains(raw_of(notes[j], scale)) by {
            assert(has_ended(run, notes, channel, scale, j));
        }
    } else {
        assert(run.contains(on)) by {
            if !run.contains(on) {
                let i = lemma_later(messages, count, on);
                assert(messages[count].rank_le(messages[i]));
            }
        }
        assert(sounds(run, notes, channel, scale, k));
        assert(message_of(bytes) == Message::Off { channel, key: e.first });
        assert(later(e.tick as u32 as u64, raw.start) == raw.end);
        assert(after.sounding == scan.sounding.remove(file));
        assert(after.notes == scan.notes.push(raw));
        assert(!scan.notes.contains(raw)) by {
            if scan.notes.contains(raw) {
                let j = choose|j: int| #[trigger]
                    has_ended(run, notes, channel, scale, j) && raw_of(notes[j], scale) == raw;
                assert(is_playable(notes[j], scale));
                if j != k {
                    assert(same_key_overlap(notes[j], notes[k], scale));
                }
            }
        }
        assert forall|f: u32| #[trigger] after.sounding.dom().contains(f) implies exists|j: int|
            #[trigger]
            sounds(longer, notes, channel, scale, j) && filed(notes[j], channel, scale) == f by {
            assert(scan.sounding.dom().contains(f));
            let j = choose|j: int| #[trigger]
                sounds(run, notes, channel, scale, j) && filed(notes[j], channel, scale) == f;
            assert(off_of(notes[j], channel, scale).first == notes[j].midi_key(scale)->0);
            assert(sounds(longer, notes, channel, scale, j));
        }
        assert forall|j: int| #[trigger] sounds(longer, notes, channel, scale, j) implies {
            &&& after.sounding.dom().contains(filed(notes[j], channel, scale))
            &&& after.sounding[filed(notes[j], channel, scale)] == (
                raw_of(notes[j], scale).start,
                raw_of(notes[j], scale).velocity,
            )
        } by {
            assert(sounds(run, notes, channel, scale, j));
            if filed(notes[j], channel, scale) == file {
                lemma_one_sounds(messages, count, notes, channel, scale, j, k);
            }
        }
        assert forall|r: RawNote| #[trigger] after.notes.contains(r) implies exists|j: int|
            #[trigger]
            has_ended(longer, notes, channel, scale, j) && raw_of(notes[j], scale) == r by {
            if r == raw {
                assert(has_ended(longer, notes, channel, scale, k));
            } else {
                let i = choose|i: int| 0 <= i < after.notes.len() && after.notes[i] == r;
                assert(scan.notes[i] == r);
                assert(scan.notes.contains(r));
                let j = choose|j: int| #[trigger]
                    has_ended(run, notes, channel, scale, j) && raw_of(notes[j], scale) == r;
                assert(has_ended(longer, notes, channel, scale, j));
            }
        }
        assert forall|j: int| #[trigger] has_ended(longer, notes, channel, scale, j) implies
            after.notes.contains(raw_of(notes[j], scale)) by {
            if off_of(notes[j], channel, scale) == e {
                assert(is_playable(notes[j], scale));
                if j != k {
                    assert(same_key_overlap(notes[j], notes[k], scale));
                }
                assert(after.notes[scan.notes.len() as int] == raw);
            } else {
                assert(has_ended(run, notes, channel, scale, j));
                assert(scan.notes.contains(raw_of(notes[j], scale)));
                let i = choose|i: int|
                    0 <= i < scan.notes.len() && scan.notes[i] == raw_of(notes[j], scale);
                assert(after.notes[i] == raw_of(notes[j], scale));
            }
        }
    }
}

/// Two sequences without repetition that hold the same items are permutations
/// of each other.
proof fn lemma_same_items<A>(a: Seq<A>, b: Seq<A>)
    requires
        a.no_duplicates(),
        b.no_duplicates(),
        forall|x: A| #[trigger] a.contains(x) <==> b.contains(x),
    ensures
        a.to_multiset() == b.to_multiset(),
{
    broadcast use vstd::seq_lib::group_to_multiset_ensures;

    a.lemma_multiset_has_no_duplicates();
    b.lemma_multiset_has_no_duplicates();
    assert forall|x: A| a.to_multiset().count(x) == b.to_multiset().count(x) by {
        if a.contains(x) {
            assert(a.to_multiset().contains(x));
            assert(b.to_multiset().contains(x));
        } else {
            assert(a.to_multiset().count(x) == 0);
            assert(b.to_multiset().count(x) == 0);
        }
    }
    assert(a.to_multiset() =~= b.to_multiset());
}

/// Permutations hold the same items, and repeat as little.
proof fn lemma_permutation<A>(a: Seq<A>, b: Seq<A>)
    requires
        a.to_multiset() == b.to_multiset(),
    ensures
        a.len() == b.len(),
        forall|x: A| #[trigger] a.contains(x) <==> b.contains(x),
        b.no_duplicates() ==> a.no_duplicates(),
{
    broadcast use vstd::seq_lib::group_to_multiset_ensures;

    vstd::seq_lib::to_multiset_len(a);
    vstd::seq_lib::to_multiset_len(b);
    assert forall|x: A| #[trigger] a.contains(x) <==> b.contains(x) by {
        assert(a.contains(x) <==> a.to_multiset().count(x) > 0);
        assert(b.contains(x) <==> b.to_multiset().count(x) > 0);
    }
    if b.no_duplicates() {
        b.lemma_multiset_has_no_duplicates();
        a.lemma_multiset_has_no_duplicates_conv();
    }
}

/// Without controllers nothing is redundant.
proof fn lemma_notes_are_kept(events: Seq<OutEvent>)
    requires
        forall|i: int| 0 <= i < events.len() ==> !is_controller(#[trigger] events[i]),
    ensures
        without_redundant_releases(events) == events,
    decreases events.len(),
{
    if events.len() > 0 {
        let rest = events.skip(1);
        assert forall|i: int| 0 <= i < rest.len() implies !is_controller(#[trigger] rest[i]) by {
            assert(!is_controller(events[i + 1]));
        }
        lemma_notes_are_kept(rest);
        assert(!is_controller(events[0]));
        assert(seq![events[0]] + rest =~= events);
    } else {
        assert(without_redundant_releases(events) =~= events);
    }
}

/// The notes of a note lane are heard again.
proof fn lemma_hear_notes(performed: Seq<Note>, cell: (usize, usize), scale: ScaleMode)
    requires
        are_apart(notes_on(performed, cell), scale),
    ensures
        ({
            let messages = ordered_messages(performed, cell, None, scale);
            let scan = heard(named(cell), messages);
            &&& all_early(messages)
            &&& scan.ccs.len() == 0
            &&& scan.notes.no_duplicates()
            &&& forall|r: RawNote| #[trigger]
                scan.notes.contains(r) <==> exists|j: int|
                    0 <= j < notes_on(performed, cell).len() && raw_of(
                        #[trigger] notes_on(performed, cell)[j],
                        scale,
                    ) == r
        }),
{
    let notes = notes_on(performed, cell);
    let channel = (cell.1 % 16) as u8;
    let raw = cell_messages(performed, cell, None, scale);
    let sorted = stable_sorted(raw);
    let messages = ordered_messages(performed, cell, None, scale);
    lemma_messages_of_notes(performed, cell, scale);
    stable_sort_orders(raw);
    lemma_permutation(sorted, raw);
    assert forall|i: int| 0 <= i < sorted.len() implies !is_controller(#[trigger] sorted[i])
        && sorted[i].tick < 0x1000_0000 by {
        assert(sorted.contains(sorted[i]));
        let j = choose|j: int|
            0 <= j < notes.len() && (sorted[i] == on_of(#[trigger] notes[j], channel, scale)
                || sorted[i] == off_of(notes[j], channel, scale));
        assert(is_playable(notes[j], scale));
    }
    lemma_notes_are_kept(sorted);
    assert(messages == sorted);
    assert(plays(messages, notes, channel, scale));
    lemma_hear_all(messages, notes, cell, channel, scale, messages.len() as int);
    assert(messages.take(messages.len() as int) =~= messages);
    let scan = heard(named(cell), messages);
    assert forall|r: RawNote| #[trigger] scan.notes.contains(r) <==> exists|j: int|
        0 <= j < notes.len() && raw_of(#[trigger] notes[j], scale) == r by {
        if scan.notes.contains(r) {
            let j = choose|j: int| #[trigger]
                has_ended(messages, notes, channel, scale, j) && raw_of(notes[j], scale) == r;
            assert(raw_of(notes[j], scale) == r);
        }
        if exists|j: int| 0 <= j < notes.len() && raw_of(#[trigger] notes[j], scale) == r {
            let j = choose|j: int| 0 <= j < notes.len() && raw_of(#[trigger] notes[j], scale) == r;
            assert(belongs(off_of(notes[j], channel, scale), notes, channel, scale));
            assert(has_ended(messages, notes, channel, scale, j));
        }
    }
}

/// What is heard of the first messages.
proof fn lemma_hear_all(
    messages: Seq<OutEvent>,
    notes: Seq<Note>,
    cell: (usize, usize),
    channel: u8,
    scale: ScaleMode,
    count: int,
)
    requires
        plays(messages, notes, channel, scale),
        are_apart(notes, scale),
        channel < 16,
        0 <= count <= messages.len(),
    ensures
        hears(heard(named(cell), messages.take(count)), messages.take(count), notes, channel, scale),
    decreases count,
{
    let run = messages.take(count);
    if count == 0 {
        assert(run =~= Seq::<OutEvent>::empty());
        let scan = heard(named(cell), run);
        assert(scan == named(cell));
        assert forall|f: u32| #[trigger] scan.sounding.dom().contains(f) implies false by {
        }
        assert forall|r: RawNote| #[trigger] scan.notes.contains(r) implies false by {
        }
    } else {
        lemma_hear_all(messages, notes, cell, channel, scale, count - 1);
        assert(run.drop_last() =~= messages.take(count - 1));
        lemma_hear_next(
            heard(named(cell), messages.take(count - 1)),
            messages,
            count - 1,
            notes,
            channel,
            scale,
        );
        assert(run.last() == messages[count - 1]);
    }
}

/// The message that sets a controller to the value of a block.
spec fn set_of(note: Note, channel: u8, number: u8) -> OutEvent {
    OutEvent {
        tick: start_in_file(note) as u64,
        order: 1,
        status: (0xB0 + channel) as u8,
        first: held(number, 0, 127),
        second: held(note.velocity, 0, 127),
    }
}

/// The message that releases a controller at the end of a block.
spec fn release_of(note: Note, channel: u8, number: u8) -> OutEvent {
    OutEvent {
        tick: end_in_file(note) as u64,
        order: 0,
        status: (0xB0 + channel) as u8,
        first: held(number, 0, 127),
        second: CC_RELEASE,
    }
}

/// Whether a block is written, early in the file, with a value of its own.
spec fn is_block(note: Note) -> bool {
    &&& note.duration > 0
    &&& note.velocity > 0
    &&& 0 <= start_in_file(note)
    &&& end_in_file(note) < 0x1000_0000
}

/// Whether two blocks share some time.
spec fn blocks_overlap(a: Note, b: Note) -> bool {
    start_in_file(a) < end_in_file(b) && start_in_file(b) < end_in_file(a)
}

/// Whether the blocks of a lane are all written and none overlaps another.
spec fn blocks_are_apart(notes: Seq<Note>) -> bool {
    &&& forall|i: int| 0 <= i < notes.len() ==> is_block(#[trigger] notes[i])
    &&& forall|i: int, j: int|
        #![trigger notes[i], notes[j]]
        0 <= i < notes.len() && 0 <= j < notes.len() && i != j ==> !blocks_overlap(
            notes[i],
            notes[j],
        )
}

/// Whether a message belongs to one of the blocks.
spec fn controls(event: OutEvent, notes: Seq<Note>, channel: u8, number: u8) -> bool {
    exists|j: int|
        0 <= j < notes.len() && (event == set_of(#[trigger] notes[j], channel, number) || event
            == release_of(notes[j], channel, number))
}

/// The messages of a controller lane are those of its blocks, each once.
proof fn lemma_messages_of_blocks(
    performed: Seq<Note>,
    cell: (usize, usize),
    number: u8,
    scale: ScaleMode,
)
    requires
        blocks_are_apart(notes_on(performed, cell)),
    ensures
        cell_messages(performed, cell, Some(number), scale).no_duplicates(),
        forall|e: OutEvent|
            #[trigger] cell_messages(performed, cell, Some(number), scale).contains(e) <==> controls(
                e,
                notes_on(performed, cell),
                (cell.1 % 16) as u8,
                number,
            ),
    decreases performed.len(),
{
    let channel = (cell.1 % 16) as u8;
    let messages = cell_messages(performed, cell, Some(number), scale);
    let notes = notes_on(performed, cell);
    if performed.len() > 0 {
        let shorter = performed.drop_last();
        let before = cell_messages(shorter, cell, Some(number), scale);
        let earlier = notes_on(shorter, cell);
        let last = performed.last();
        if last.track == cell.0 && last.lane == cell.1 {
            let top = notes.len() - 1;
            assert(notes == earlier.push(last));
            assert forall|i: int| 0 <= i < earlier.len() implies is_block(#[trigger] earlier[i]) by {
                assert(notes[i] == earlier[i]);
            }
            assert forall|i: int, j: int|
                #![trigger earlier[i], earlier[j]]
                0 <= i < earlier.len() && 0 <= j < earlier.len() && i != j implies
                !blocks_overlap(earlier[i], earlier[j]) by {
                assert(notes[i] == earlier[i]);
                assert(notes[j] == earlier[j]);
            }
            lemma_messages_of_blocks(shorter, cell, number, scale);
            assert(notes[top] == last);
            assert(is_block(last));
            let set = set_of(last, channel, number);
            let release = release_of(last, channel, number);
            assert(note_messages(last, Some(number), channel, scale) =~= seq![set, release]);
            assert(messages =~= before.push(set).push(release));
            assert forall|e: OutEvent| e == set || e == release implies !#[trigger] controls(
                e,
                earlier,
                channel,
                number,
            ) by {
                if controls(e, earlier, channel, number) {
                    let j = choose|j: int|
                        0 <= j < earlier.len() && (e == set_of(#[trigger] earlier[j], channel, number)
                            || e == release_of(earlier[j], channel, number));
                    assert(notes[j] == earlier[j]);
                    assert(is_block(notes[j]));
                    assert(blocks_overlap(notes[j], notes[top]));
                }
            }
            assert(!controls(set, earlier, channel, number));
            assert(!controls(release, earlier, channel, number));
            assert(!before.contains(set) && !before.contains(release));
            assert forall|e: OutEvent| #[trigger] messages.contains(e) <==> controls(
                e,
                notes,
                channel,
                number,
            ) by {
                if messages.contains(e) {
                    let i = choose|i: int| 0 <= i < messages.len() && messages[i] == e;
                    if i < before.len() {
                        assert(before[i] == e);
                        assert(before.contains(e));
                        let j = choose|j: int|
                            0 <= j < earlier.len() && (e == set_of(
                                #[trigger] earlier[j],
                                channel,
                                number,
                            ) || e == release_of(earlier[j], channel, number));
                        assert(notes[j] == earlier[j]);
                    } else {
                        assert(e == set || e == release);
                        assert(notes[top] == last);
                    }
                }
                if controls(e, notes, channel, number) {
                    let j = choose|j: int|
                        0 <= j < notes.len() && (e == set_of(#[trigger] notes[j], channel, number)
                            || e == release_of(notes[j], channel, number));
                    if j < earlier.len() {
                        assert(notes[j] == earlier[j]);
                        assert(controls(e, earlier, channel, number));
                        assert(before.contains(e));
                        let i = choose|i: int| 0 <= i < before.len() && before[i] == e;
                        assert(messages[i] == e);
                    } else {
                        assert(messages[before.len() as int] == set);
                        assert(messages[before.len() as int + 1] == release);
                    }
                }
            }
            assert(messages.no_duplicates()) by {
                assert(set != release);
            }
        } else {
            lemma_messages_of_blocks(shorter, cell, number, scale);
        }
    }
}

/// Whether `messages` are the messages of the blocks in order of time.
spec fn steers(messages: Seq<OutEvent>, notes: Seq<Note>, channel: u8, number: u8) -> bool {
    &&& is_ascending(messages)
    &&& messages.no_duplicates()
    &&& forall|e: OutEvent| #[trigger]
        messages.contains(e) <==> controls(e, notes, channel, number)
}

/// A block is released right after it is set.
proof fn lemma_release_follows(
    messages: Seq<OutEvent>,
    notes: Seq<Note>,
    channel: u8,
    number: u8,
    i: int,
    j: int,
)
    requires
        steers(messages, notes, channel, number),
        blocks_are_apart(notes),
        0 <= i < messages.len(),
        0 <= j < notes.len(),
        messages[i] == set_of(notes[j], channel, number),
    ensures
        i + 1 < messages.len(),
        messages[i + 1] == release_of(notes[j], channel, number),
{
    let set = set_of(notes[j], channel, number);
    let release = release_of(notes[j], channel, number);
    assert(is_block(notes[j]));
    assert(controls(release, notes, channel, number));
    assert(messages.contains(release));
    let m = choose|m: int| 0 <= m < messages.len() && messages[m] == release;
    if m <= i {
        assert(messages[m].rank_le(messages[i]));
    }
    if m > i + 1 {
        let e = messages[i + 1];
        assert(messages[i].rank_le(messages[i + 1]));
        assert(messages[i + 1].rank_le(messages[m]));
        assert(messages.contains(e));
        let k = choose|k: int|
            0 <= k < notes.len() && (e == set_of(#[trigger] notes[k], channel, number) || e
                == release_of(notes[k], channel, number));
        assert(is_block(notes[k]));
        if k != j {
            assert(blocks_overlap(notes[k], notes[j]));
        }
        assert(false);
    }
}

/// The messages of blocks come in pairs: set, release.
proof fn lemma_pairs(
    messages: Seq<OutEvent>,
    notes: Seq<Note>,
    channel: u8,
    number: u8,
    i: int,
) -> (j: int)
    requires
        steers(messages, notes, channel, number),
        blocks_are_apart(notes),
        0 <= i < messages.len(),
        i % 2 == 0,
    ensures
        0 <= j < notes.len(),
        messages[i] == set_of(notes[j], channel, number),
        i + 1 < messages.len(),
        messages[i + 1] == release_of(notes[j], channel, number),
    decreases i,
{
    let e = messages[i];
    assert(messages.contains(e));
    let j = choose|j: int|
        0 <= j < notes.len() && (e == set_of(#[trigger] notes[j], channel, number) || e
            == release_of(notes[j], channel, number));
    assert(is_block(notes[j]));
    if e == release_of(notes[j], channel, number) {
        let set = set_of(notes[j], channel, number);
        assert(controls(set, notes, channel, number));
        assert(messages.contains(set));
        let m = choose|m: int| 0 <= m < messages.len() && messages[m] == set;
        if m > i {
            assert(messages[i].rank_le(messages[m]));
        } else {
            lemma_release_follows(messages, notes, channel, number, m, j);
            assert(m + 1 == i);
            // `m` is odd, so an earlier pair would end in a set message.
            let k = lemma_pairs(messages, notes, channel, number, m - 1);
            assert(is_block(notes[k]));
        }
        assert(false);
    }
    lemma_release_follows(messages, notes, channel, number, i, j);
    j
}

/// Whether messages come in pairs that set a controller and release it later.
spec fn is_paired(messages: Seq<OutEvent>, number: u8) -> bool {
    &&& messages.len() % 2 == 0
    &&& forall|i: int|
        0 <= i < messages.len() ==> is_controller(#[trigger] messages[i]) && messages[i].first
            == number
    &&& forall|m: int|
        #![trigger messages[2 * m]]
        0 <= 2 * m < messages.len() ==> {
            &&& messages[2 * m].second > 0
            &&& messages[2 * m + 1].second == CC_RELEASE
            &&& messages[2 * m].tick < messages[2 * m + 1].tick < 0x1000_0000
            &&& 2 * m + 2 < messages.len() ==> messages[2 * m + 1].tick <= messages[2 * m + 2].tick
        }
}

/// The blocks that pairs of messages stand for.
spec fn pair_blocks(messages: Seq<OutEvent>) -> Seq<Block> {
    Seq::new(
        messages.len() / 2,
        |m: int|
            Block {
                start: messages[2 * m].tick as u32,
                end: messages[2 * m + 1].tick,
                value: messages[2 * m].second,
            },
    )
}

/// The times and values of messages.
spec fn times_and_values(messages: Seq<OutEvent>) -> Seq<(u32, u8)> {
    Seq::new(messages.len(), |i: int| (messages[i].tick as u32, messages[i].second))
}

/// The blocks behind a first event.
proof fn lemma_blocks_cons(first: (u32, u8), rest: Seq<(u32, u8)>, count: int, end: u64)
    requires
        0 <= count <= rest.len(),
    ensures
        blocks_among(seq![first] + rest, count + 1, end) == (match block_at(
            seq![first] + rest,
            0,
            end,
        ) {
            Some(block) => seq![block],
            None => Seq::<Block>::empty(),
        }) + blocks_among(rest, count, end),
    decreases count,
{
    let whole = seq![first] + rest;
    let head = match block_at(whole, 0, end) {
        Some(block) => seq![block],
        None => Seq::<Block>::empty(),
    };
    reveal_with_fuel(blocks_among, 2);
    if count == 0 {
        assert(blocks_among(whole, 1, end) =~= head + blocks_among(rest, 0, end));
    } else {
        lemma_blocks_cons(first, rest, count - 1, end);
        assert(block_at(whole, count, end) == block_at(rest, count - 1, end));
        assert(blocks_among(whole, count + 1, end) =~= head + blocks_among(rest, count, end));
    }
}

/// Pairs of messages are read as the blocks that they were written for, and
/// the last message is kept.
proof fn lemma_paired_blocks(messages: Seq<OutEvent>, number: u8, end: u64)
    requires
        is_paired(messages, number),
    ensures
        ({
            let kept = without_redundant_releases(messages);
            &&& blocks_of(times_and_values(kept), end) == pair_blocks(messages)
            &&& messages.len() > 0 ==> kept.len() > 0 && kept[0] == messages[0] && kept.last()
                == messages.last()
            &&& forall|i: int|
                0 <= i < kept.len() ==> is_controller(#[trigger] kept[i]) && kept[i].first == number
                    && kept[i].tick < 0x1000_0000
        }),
    decreases messages.len(),
{
    let kept = without_redundant_releases(messages);
    if messages.len() == 0 {
        assert(kept =~= Seq::<OutEvent>::empty());
        assert(blocks_of(times_and_values(kept), end) =~= pair_blocks(messages));
    } else {
        let rest = messages.skip(2);
        let tail = messages.skip(1);
        assert(tail.skip(1) =~= rest);
        let zero: int = 0;
        assert(messages[2 * zero].second > 0);
        assert forall|i: int| 0 <= i < rest.len() implies is_controller(#[trigger] rest[i])
            && rest[i].first == number by {
            assert(is_controller(messages[i + 2]));
        }
        assert forall|m: int|
            #![trigger rest[2 * m]]
            0 <= 2 * m < rest.len() implies {
            &&& rest[2 * m].second > 0
            &&& rest[2 * m + 1].second == CC_RELEASE
            &&& rest[2 * m].tick < rest[2 * m + 1].tick < 0x1000_0000
            &&& 2 * m + 2 < rest.len() ==> rest[2 * m + 1].tick <= rest[2 * m + 2].tick
        } by {
            assert(messages[2 * (m + 1)].second > 0);
        }
        lemma_paired_blocks(rest, number, end);
        let kept_rest = without_redundant_releases(rest);
        let set = messages[0];
        let release = messages[1];
        assert(is_controller(messages[0]) && is_controller(messages[1]));
        assert(tail[0] == release);
        assert(!is_redundant(set, tail));
        if rest.len() > 0 {
            assert(is_controller(rest[0]));
            assert(messages[2 * zero + 2] == rest[0]);
        }
        let redundant = is_redundant(release, rest);
        assert(redundant <==> rest.len() > 0 && rest[0].tick == release.tick);
        let kept_tail = without_redundant_releases(tail);
        assert(kept =~= seq![set] + kept_tail);
        let later_events = times_and_values(kept_tail);
        let rest_events = times_and_values(kept_rest);
        let first = (set.tick as u32, set.second);
        assert(times_and_values(kept) =~= seq![first] + later_events);
        lemma_blocks_cons(first, later_events, later_events.len() as int, end);
        let block = Block { start: set.tick as u32, end: release.tick, value: set.second };
        if redundant {
            assert(kept_tail == kept_rest);
            assert(later_events[0] == rest_events[0]);
            assert(block_at(seq![first] + later_events, 0, end) == Some(block));
        } else {
            assert(kept_tail =~= seq![release] + kept_rest);
            let second = (release.tick as u32, release.second);
            assert(later_events =~= seq![second] + rest_events);
            lemma_blocks_cons(second, rest_events, rest_events.len() as int, end);
            assert(block_at(later_events, 0, end) is None);
            assert(blocks_of(later_events, end) =~= blocks_of(rest_events, end));
            assert(later_events[0] == second);
            assert(block_at(seq![first] + later_events, 0, end) == Some(block));
        }
        assert(pair_blocks(messages) =~= seq![block] + pair_blocks(rest)) by {
            assert forall|m: int| 0 <= m < pair_blocks(rest).len() implies pair_blocks(messages)[m
                + 1] == #[trigger] pair_blocks(rest)[m] by {
                assert(messages[2 * (m + 1)] == rest[2 * m]);
                assert(messages[2 * (m + 1) + 1] == rest[2 * m + 1]);
            }
        }
        assert(blocks_of(times_and_values(kept), end) =~= pair_blocks(messages));
        assert(kept.last() == messages.last()) by {
            if rest.len() > 0 {
                assert(kept.last() == kept_rest.last());
                assert(rest.last() == messages.last());
            } else {
                assert(!redundant);
                assert(kept.last() == release);
            }
        }
        assert forall|i: int| 0 <= i < kept.len() implies is_controller(#[trigger] kept[i])
            && kept[i].first == number && kept[i].tick < 0x1000_0000 by {
            if i > 0 {
                if redundant {
                    assert(kept[i] == kept_rest[i - 1]);
                } else if i > 1 {
                    assert(kept[i] == kept_rest[i - 2]);
                } else {
                    assert(kept[i] == release);
                }
            }
        }
    }
}

/// Controller messages as they are read.
spec fn controller_events(messages: Seq<OutEvent>) -> Seq<RawCc> {
    Seq::new(
        messages.len(),
        |i: int|
            RawCc {
                tick: messages[i].tick as u32,
                number: messages[i].first,
                value: messages[i].second,
            },
    )
}

/// Controller messages are heard as they are.
proof fn lemma_hear_controllers(cell: (usize, usize), messages: Seq<OutEvent>, number: u8)
    requires
        number < FIRST_CHANNEL_MODE_CC,
        forall|i: int|
            0 <= i < messages.len() ==> is_controller(#[trigger] messages[i]) && messages[i].first
                == number,
    ensures
        heard(named(cell), messages).ccs == controller_events(messages),
        heard(named(cell), messages).notes.len() == 0,
    decreases messages.len(),
{
    let scan = heard(named(cell), messages);
    if messages.len() == 0 {
        assert(scan.ccs =~= controller_events(messages));
    } else {
        let before = messages.drop_last();
        assert forall|i: int| 0 <= i < before.len() implies is_controller(#[trigger] before[i])
            && before[i].first == number by {
            assert(is_controller(messages[i]));
        }
        lemma_hear_controllers(cell, before, number);
        let last = messages[messages.len() - 1];
        assert(is_controller(last));
        assert(scan.ccs =~= controller_events(messages));
    }
}

/// The events of one controller among events of that controller alone.
proof fn lemma_events_of(messages: Seq<OutEvent>, number: u8, other: u8)
    requires
        forall|i: int| 0 <= i < messages.len() ==> (#[trigger] messages[i]).first == number,
    ensures
        events_of(controller_events(messages), other) == (if other == number {
            times_and_values(messages)
        } else {
            Seq::<(u32, u8)>::empty()
        }),
    decreases messages.len(),
{
    let ccs = controller_events(messages);
    if messages.len() == 0 {
        assert(events_of(ccs, other) =~= times_and_values(messages));
    } else {
        let before = messages.drop_last();
        assert forall|i: int| 0 <= i < before.len() implies (#[trigger] before[i]).first
            == number by {
            assert(messages[i].first == number);
        }
        lemma_events_of(before, number, other);
        assert(ccs.drop_last() =~= controller_events(before));
        assert(messages[messages.len() - 1].first == number);
        assert(times_and_values(messages) =~= times_and_values(before).push(
            (messages.last().tick as u32, messages.last().second),
        ));
    }
}

/// The controllers that change, among events of one controller.
proof fn lemma_changing_groups(messages: Seq<OutEvent>, number: u8, limit: int)
    requires
        forall|i: int| 0 <= i < messages.len() ==> (#[trigger] messages[i]).first == number,
        0 <= limit <= 256,
    ensures
        changing_groups(controller_events(messages), limit) == (if number < limit && changes(
            times_and_values(messages),
        ) {
            seq![GroupView { number, events: times_and_values(messages) }]
        } else {
            Seq::<GroupView>::empty()
        }),
    decreases limit,
{
    if limit > 0 {
        lemma_changing_groups(messages, number, limit - 1);
        lemma_events_of(messages, number, (limit - 1) as u8);
        assert(!changes(Seq::<(u32, u8)>::empty()));
        assert(Seq::<GroupView>::empty().push(
            GroupView { number, events: times_and_values(messages) },
        ) =~= seq![GroupView { number, events: times_and_values(messages) }]);
    }
}

/// The blocks of a controller lane are heard again: one controller, whose
/// events stand for the blocks.
proof fn lemma_hear_blocks(
    performed: Seq<Note>,
    cell: (usize, usize),
    number: u8,
    scale: ScaleMode,
    end: u64,
) -> (events: Seq<(u32, u8)>)
    requires
        blocks_are_apart(notes_on(performed, cell)),
        number < FIRST_CHANNEL_MODE_CC,
    ensures
        ({
            let notes = notes_on(performed, cell);
            let messages = ordered_messages(performed, cell, Some(number), scale);
            let scan = heard(named(cell), messages);
            &&& all_early(messages)
            &&& scan.notes.len() == 0
            &&& changing_groups(scan.ccs, FIRST_CHANNEL_MODE_CC as int) == (if notes.len() > 0 {
                seq![GroupView { number, events }]
            } else {
                Seq::<GroupView>::empty()
            })
            &&& blocks_of(events, end).no_duplicates()
            &&& blocks_of(events, end).len() == notes.len()
            &&& forall|b: Block| #[trigger]
                blocks_of(events, end).contains(b) <==> exists|j: int|
                    0 <= j < notes.len() && block_of(#[trigger] notes[j]) == b
        }),
{
    let notes = notes_on(performed, cell);
    let channel = (cell.1 % 16) as u8;
    let raw = cell_messages(performed, cell, Some(number), scale);
    let sorted = stable_sorted(raw);
    let messages = ordered_messages(performed, cell, Some(number), scale);
    lemma_messages_of_blocks(performed, cell, number, scale);
    stable_sort_orders(raw);
    lemma_permutation(sorted, raw);
    assert(steers(sorted, notes, channel, number));
    assert(sorted.len() % 2 == 0) by {
        if sorted.len() % 2 == 1 {
            let j = lemma_pairs(sorted, notes, channel, number, sorted.len() - 1);
        }
    }
    assert forall|i: int| 0 <= i < sorted.len() implies is_controller(#[trigger] sorted[i])
        && sorted[i].first == number by {
        assert(sorted.contains(sorted[i]));
        assert(controls(sorted[i], notes, channel, number));
    }
    assert forall|m: int|
        #![trigger sorted[2 * m]]
        0 <= 2 * m < sorted.len() implies {
        &&& sorted[2 * m].second > 0
        &&& sorted[2 * m + 1].second == CC_RELEASE
        &&& sorted[2 * m].tick < sorted[2 * m + 1].tick < 0x1000_0000
        &&& 2 * m + 2 < sorted.len() ==> sorted[2 * m + 1].tick <= sorted[2 * m + 2].tick
    } by {
        let j = lemma_pairs(sorted, notes, channel, number, 2 * m);
        assert(is_block(notes[j]));
        if 2 * m + 2 < sorted.len() {
            assert(sorted[2 * m + 1].rank_le(sorted[2 * m + 2]));
        }
    }
    assert(is_paired(sorted, number));
    lemma_paired_blocks(sorted, number, end);
    lemma_hear_controllers(cell, messages, number);
    lemma_changing_groups(messages, number, FIRST_CHANNEL_MODE_CC as int);
    let events = times_and_values(messages);
    let blocks = blocks_of(events, end);
    assert(blocks == pair_blocks(sorted));
    assert forall|b: Block| #[trigger] blocks.contains(b) <==> exists|j: int|
        0 <= j < notes.len() && block_of(#[trigger] notes[j]) == b by {
        if blocks.contains(b) {
            let m = choose|m: int| 0 <= m < blocks.len() && blocks[m] == b;
            let j = lemma_pairs(sorted, notes, channel, number, 2 * m);
            assert(is_block(notes[j]));
            assert(block_of(notes[j]) == b);
        }
        if exists|j: int| 0 <= j < notes.len() && block_of(#[trigger] notes[j]) == b {
            let j = choose|j: int| 0 <= j < notes.len() && block_of(#[trigger] notes[j]) == b;
            let set = set_of(notes[j], channel, number);
            assert(is_block(notes[j]));
            assert(controls(set, notes, channel, number));
            assert(sorted.contains(set));
            let i = choose|i: int| 0 <= i < sorted.len() && sorted[i] == set;
            if i % 2 == 1 {
                let k = lemma_pairs(sorted, notes, channel, number, i - 1);
                assert(false);
            }
            let k = lemma_pairs(sorted, notes, channel, number, i);
            if k != j {
                assert(is_block(notes[k]));
                assert(blocks_overlap(notes[k], notes[j]));
            }
            assert(2 * (i / 2) == i);
            assert(blocks[i / 2] == b);
        }
    }
    assert forall|a: int, b: int|
        0 <= a < blocks.len() && 0 <= b < blocks.len() && a != b implies blocks[a] != blocks[b] by {
        let i = lemma_pairs(sorted, notes, channel, number, 2 * a);
        let j = lemma_pairs(sorted, notes, channel, number, 2 * b);
        assert(is_block(notes[i]) && is_block(notes[j]));
        if i == j {
            assert(sorted[2 * a] == sorted[2 * b]);
        } else if blocks[a] == blocks[b] {
            assert(blocks_overlap(notes[i], notes[j]));
        }
    }
    lemma_count_blocks(blocks, notes);
    if notes.len() > 0 {
        assert(controls(set_of(notes[0], channel, number), notes, channel, number));
        assert(sorted.contains(set_of(notes[0], channel, number)));
        let zero: int = 0;
        assert(sorted[2 * zero].second > 0);
        let half = sorted.len() / 2 - 1;
        assert(sorted[2 * half].second > 0);
        assert(sorted.last() == sorted[2 * half + 1]);
        assert(events[events.len() - 1].1 != events[0].1);
        assert(changes(events));
    } else {
        assert(sorted.len() == 0) by {
            if sorted.len() > 0 {
                let j = lemma_pairs(sorted, notes, channel, number, 0);
            }
        }
        assert(messages =~= Seq::<OutEvent>::empty());
        assert(!changes(events));
    }
    events
}

/// A block as it stands in the file.
spec fn block_of(note: Note) -> Block {
    Block {
        start: start_in_file(note) as u32,
        end: end_in_file(note) as u64,
        value: held(note.velocity, 0, 127),
    }
}

/// There are as many blocks as notes.
proof fn lemma_count_blocks(blocks: Seq<Block>, notes: Seq<Note>)
    requires
        blocks_are_apart(notes),
        blocks.no_duplicates(),
        forall|b: Block| #[trigger]
            blocks.contains(b) <==> exists|j: int|
                0 <= j < notes.len() && block_of(#[trigger] notes[j]) == b,
    ensures
        blocks.len() == notes.len(),
{
    let made = Seq::new(notes.len(), |j: int| block_of(notes[j]));
    assert forall|i: int, j: int|
        0 <= i < made.len() && 0 <= j < made.len() && i != j implies made[i] != made[j] by {
        assert(is_block(notes[i]) && is_block(notes[j]));
        if made[i] == made[j] {
            assert(blocks_overlap(notes[i], notes[j]));
        }
    }
    assert forall|b: Block| #[trigger] made.contains(b) <==> blocks.contains(b) by {
        if made.contains(b) {
            let j = choose|j: int| 0 <= j < made.len() && made[j] == b;
            assert(block_of(notes[j]) == b);
        }
        if blocks.contains(b) {
            let j = choose|j: int| 0 <= j < notes.len() && block_of(#[trigger] notes[j]) == b;
            assert(made[j] == b);
        }
    }
    lemma_same_items(made, blocks);
    lemma_permutation(made, blocks);
}

/// Whether a file holds everything that a note says: it lies on the grid of
/// the file, and early enough in it; its velocity is one of MIDI; it has a key
/// of MIDI or, on a controller lane, the pitch that blocks are given there.
pub open spec fn is_exact(note: Note, editor: EditorView) -> bool {
    &&& note.start_tick >= 0
    &&& note.start_tick % 35 == 0
    &&& note.duration > 0
    &&& note.duration % 35 == 0
    &&& note.start_tick + note.duration < 35 * 0x1000_0000
    &&& 1 <= note.velocity <= 127
    &&& note.velocity_to == note.velocity
    &&& match editor.cc_at(note.track as int, note.lane as int) {
        Some(number) => number < FIRST_CHANNEL_MODE_CC && note.semitone == 0 && note.octave == 4,
        None => 0 <= note.semitone < editor.scale.steps() && note.midi_key(editor.scale) is Some,
    }
}

/// Whether two notes of a lane get in each other's way in a file: they overlap
/// and have the same key, or are blocks of a controller.
pub open spec fn clash(a: Note, b: Note, editor: EditorView) -> bool {
    &&& a.track == b.track
    &&& a.lane == b.lane
    &&& a.start_tick < b.start_tick + b.duration
    &&& b.start_tick < a.start_tick + a.duration
    &&& editor.cc_at(a.track as int, a.lane as int) is Some || a.midi_key(editor.scale)
        == b.midi_key(editor.scale)
}

/// Whether a file holds everything that a sequence's notes say.
pub open spec fn survives(editor: EditorView, performed: Seq<Note>) -> bool {
    &&& editor.tracks.len() <= usize::MAX
    &&& forall|i: int| 0 <= i < performed.len() ==> is_exact(#[trigger] performed[i], editor)
    &&& forall|i: int, j: int|
        #![trigger performed[i], performed[j]]
        0 <= i < j < performed.len() ==> !clash(performed[i], performed[j], editor)
    &&& forall|i: int|
        #![trigger performed[i]]
        0 <= i < performed.len() ==> exported_cells(editor).contains(
            (performed[i].track, performed[i].lane),
        )
}

/// An exact note stands in the file at a 35th of its position.
proof fn lemma_exact_times(note: Note, editor: EditorView)
    requires
        is_exact(note, editor),
    ensures
        35 * start_in_file(note) == note.start_tick,
        35 * end_in_file(note) == note.start_tick + note.duration,
        0 <= start_in_file(note) < end_in_file(note) < 0x1000_0000,
{
    let start = note.start_tick as int / 35;
    let end = (note.start_tick + note.duration) / 35;
    assert(note.start_tick == start * 35);
    assert(note.start_tick + note.duration == end * 35);
    lemma_nearest_of_multiple(start, 35);
    lemma_nearest_of_multiple(end, 35);
}

/// A distance of the file in ticks of the library.
proof fn lemma_library_ticks(ticks: int)
    ensures
        library_ticks(ticks, TICKS_PER_QUARTER) == 35 * ticks,
{
    assert(ticks * 33600 == (35 * ticks) * 960);
    lemma_nearest_of_multiple(35 * ticks, 960);
}

/// An exact note of a note lane is read back as it was.
proof fn lemma_exact_note(note: Note, editor: EditorView)
    requires
        is_exact(note, editor),
        editor.cc_at(note.track as int, note.lane as int) is None,
    ensures
        placed_note(
            raw_of(note, editor.scale),
            note.track,
            note.lane,
            TICKS_PER_QUARTER,
            editor.scale,
        ) == note,
        is_playable(note, editor.scale),
{
    lemma_exact_times(note, editor);
    lemma_library_ticks(start_in_file(note));
    lemma_library_ticks(end_in_file(note) - start_in_file(note));
    let steps = editor.scale.steps();
    let key = note.midi_key(editor.scale)->0;
    assert(key - 60 == steps * (note.octave - 4) + note.semitone) by (nonlinear_arith)
        requires
            key == 60 + (note.octave - 4) * steps + note.semitone,
    ;
    vstd::arithmetic::div_mod::lemma_fundamental_div_mod_converse(
        key - 60,
        steps,
        note.octave - 4,
        note.semitone as int,
    );
}

/// An exact block is read back as it was.
proof fn lemma_exact_block(note: Note, editor: EditorView)
    requires
        is_exact(note, editor),
        editor.cc_at(note.track as int, note.lane as int) is Some,
    ensures
        block_note(block_of(note), note.track, note.lane, TICKS_PER_QUARTER) == note,
        is_block(note),
{
    lemma_exact_times(note, editor);
    lemma_library_ticks(start_in_file(note));
    lemma_library_ticks(end_in_file(note) - start_in_file(note));
}

/// The notes on a lane are exact, and none gets in another's way.
proof fn lemma_notes_on(editor: EditorView, performed: Seq<Note>, cell: (usize, usize))
    requires
        forall|i: int| 0 <= i < performed.len() ==> is_exact(#[trigger] performed[i], editor),
        forall|i: int, j: int|
            #![trigger performed[i], performed[j]]
            0 <= i < j < performed.len() ==> !clash(performed[i], performed[j], editor),
    ensures
        forall|j: int|
            #![trigger notes_on(performed, cell)[j]]
            0 <= j < notes_on(performed, cell).len() ==> {
                let note = notes_on(performed, cell)[j];
                &&& performed.contains(note)
                &&& is_exact(note, editor)
                &&& note.track == cell.0
                &&& note.lane == cell.1
            },
        forall|i: int, j: int|
            #![trigger notes_on(performed, cell)[i], notes_on(performed, cell)[j]]
            0 <= i < j < notes_on(performed, cell).len() ==> !clash(
                notes_on(performed, cell)[i],
                notes_on(performed, cell)[j],
                editor,
            ),
    decreases performed.len(),
{
    let notes = notes_on(performed, cell);
    if performed.len() > 0 {
        let shorter = performed.drop_last();
        let earlier = notes_on(shorter, cell);
        let top = performed.len() - 1;
        assert forall|i: int| 0 <= i < shorter.len() implies is_exact(
            #[trigger] shorter[i],
            editor,
        ) by {
            assert(performed[i] == shorter[i]);
        }
        assert forall|i: int, j: int|
            #![trigger shorter[i], shorter[j]]
            0 <= i < j < shorter.len() implies !clash(shorter[i], shorter[j], editor) by {
            assert(performed[i] == shorter[i]);
            assert(performed[j] == shorter[j]);
        }
        lemma_notes_on(editor, shorter, cell);
        assert(is_exact(performed[top], editor));
        assert forall|j: int|
            #![trigger notes[j]]
            0 <= j < notes.len() implies performed.contains(notes[j]) && is_exact(notes[j], editor)
            && notes[j].track == cell.0 && notes[j].lane == cell.1 by {
            if j < earlier.len() {
                assert(notes[j] == earlier[j]);
                let i = choose|i: int| 0 <= i < shorter.len() && shorter[i] == earlier[j];
                assert(performed[i] == notes[j]);
            } else {
                assert(notes[j] == performed[top]);
            }
        }
        assert forall|i: int, j: int|
            #![trigger notes[i], notes[j]]
            0 <= i < j < notes.len() implies !clash(notes[i], notes[j], editor) by {
            assert(notes[i] == earlier[i]);
            if j < earlier.len() {
                assert(notes[j] == earlier[j]);
            } else {
                let k = choose|k: int| 0 <= k < shorter.len() && shorter[k] == earlier[i];
                assert(performed[k] == notes[i]);
                assert(notes[j] == performed[top]);
            }
        }
    }
}

/// The notes of a lane can be told apart in the file.
proof fn lemma_lane_is_apart(editor: EditorView, performed: Seq<Note>, cell: (usize, usize))
    requires
        survives(editor, performed),
    ensures
        editor.cc_at(cell.0 as int, cell.1 as int) is None ==> are_apart(
            notes_on(performed, cell),
            editor.scale,
        ),
        editor.cc_at(cell.0 as int, cell.1 as int) is Some ==> blocks_are_apart(
            notes_on(performed, cell),
        ),
{
    lemma_notes_on(editor, performed, cell);
    let notes = notes_on(performed, cell);
    let controller = editor.cc_at(cell.0 as int, cell.1 as int);
    assert forall|j: int| #![trigger notes[j]] 0 <= j < notes.len() implies (controller is None
        ==> is_playable(notes[j], editor.scale)) && (controller is Some ==> is_block(
        notes[j],
    )) by {
        if controller is None {
            lemma_exact_note(notes[j], editor);
        } else {
            lemma_exact_block(notes[j], editor);
        }
    }
    assert forall|i: int, j: int|
        #![trigger notes[i], notes[j]]
        0 <= i < notes.len() && 0 <= j < notes.len() && i != j implies (controller is None
        ==> !same_key_overlap(notes[i], notes[j], editor.scale)) && (controller is Some
        ==> !blocks_overlap(notes[i], notes[j])) by {
        lemma_exact_times(notes[i], editor);
        lemma_exact_times(notes[j], editor);
        if i < j {
            assert(!clash(notes[i], notes[j], editor));
        } else {
            assert(!clash(notes[j], notes[i], editor));
        }
    }
}

/// The notes that raw notes of a lane become.
spec fn placed_notes(raw: Seq<RawNote>, cell: (usize, usize), scale: ScaleMode) -> Seq<Note> {
    Seq::new(
        raw.len(),
        |i: int| placed_note(raw[i], cell.0, cell.1, TICKS_PER_QUARTER, scale),
    )
}

/// The events of the controller of a lane, as they stand in the file.
spec fn lane_events(editor: EditorView, performed: Seq<Note>, cell: (usize, usize)) -> Seq<
    (u32, u8),
> {
    times_and_values(
        ordered_messages(
            performed,
            cell,
            editor.cc_at(cell.0 as int, cell.1 as int),
            editor.scale,
        ),
    )
}

/// The track of a note lane is read as the notes that lie on it.
proof fn lemma_note_lane_track(editor: EditorView, performed: Seq<Note>, cell: (usize, usize))
    requires
        survives(editor, performed),
        editor.cc_at(cell.0 as int, cell.1 as int) is None,
    ensures
        ({
            let track = parsed(cell_track(editor, performed, cell));
            &&& track.name == Some(cell)
            &&& track.groups.len() == 0
            &&& placed_notes(track.notes, cell, editor.scale).to_multiset() == notes_on(
                performed,
                cell,
            ).to_multiset()
        }),
{
    let scale = editor.scale;
    let notes = notes_on(performed, cell);
    let messages = ordered_messages(performed, cell, None, scale);
    let scan = heard(named(cell), messages);
    let track = parsed(cell_track(editor, performed, cell));
    lemma_lane_is_apart(editor, performed, cell);
    lemma_notes_on(editor, performed, cell);
    lemma_hear_notes(performed, cell, scale);
    lemma_scan_cell_track(editor, performed, cell);
    lemma_heard_time(named(cell), messages);
    assert(scan.ccs =~= controller_events(Seq::<OutEvent>::empty()));
    lemma_changing_groups(Seq::<OutEvent>::empty(), 0, FIRST_CHANNEL_MODE_CC as int);
    assert(!changes(times_and_values(Seq::<OutEvent>::empty())));
    stable_sort_orders(scan.notes);
    lemma_permutation(track.notes, scan.notes);
    let back = placed_notes(track.notes, cell, scale);
    assert forall|i: int| 0 <= i < track.notes.len() implies notes.contains(#[trigger] back[i])
        && raw_of(back[i], scale) == track.notes[i] by {
        assert(track.notes.contains(track.notes[i]));
        assert(scan.notes.contains(track.notes[i]));
        let j = choose|j: int|
            0 <= j < notes.len() && raw_of(#[trigger] notes[j], scale) == track.notes[i];
        lemma_exact_note(notes[j], editor);
        assert(back[i] == notes[j]);
    }
    assert(back.no_duplicates()) by {
        assert forall|i: int, j: int|
            0 <= i < back.len() && 0 <= j < back.len() && i != j implies back[i] != back[j] by {
            assert(track.notes[i] != track.notes[j]);
            assert(raw_of(back[i], scale) == track.notes[i]);
            assert(raw_of(back[j], scale) == track.notes[j]);
        }
    }
    assert(notes.no_duplicates()) by {
        assert forall|i: int, j: int|
            0 <= i < notes.len() && 0 <= j < notes.len() && i != j implies notes[i] != notes[j] by {
            assert(is_playable(notes[i], scale));
            assert(!same_key_overlap(notes[i], notes[j], scale));
        }
    }
    assert forall|n: Note| #[trigger] back.contains(n) <==> notes.contains(n) by {
        if back.contains(n) {
            let i = choose|i: int| 0 <= i < back.len() && back[i] == n;
            assert(notes.contains(back[i]));
        }
        if notes.contains(n) {
            let j = choose|j: int| 0 <= j < notes.len() && notes[j] == n;
            lemma_exact_note(notes[j], editor);
            assert(scan.notes.contains(raw_of(notes[j], scale)));
            assert(track.notes.contains(raw_of(notes[j], scale)));
            let i = choose|i: int|
                0 <= i < track.notes.len() && track.notes[i] == raw_of(notes[j], scale);
            assert(back[i] == n);
        }
    }
    lemma_same_items(back, notes);
}

/// The track of a controller lane is read as the blocks that lie on it.
proof fn lemma_controller_lane_track(
    editor: EditorView,
    performed: Seq<Note>,
    cell: (usize, usize),
    end: u64,
)
    requires
        survives(editor, performed),
        editor.cc_at(cell.0 as int, cell.1 as int) is Some,
    ensures
        ({
            let track = parsed(cell_track(editor, performed, cell));
            let notes = notes_on(performed, cell);
            let events = lane_events(editor, performed, cell);
            let number = editor.cc_at(cell.0 as int, cell.1 as int)->0;
            let blocks = blocks_of(events, end);
            &&& track.name == Some(cell)
            &&& track.notes.len() == 0
            &&& track.groups == (if notes.len() > 0 {
                seq![GroupView { number, events }]
            } else {
                Seq::<GroupView>::empty()
            })
            &&& blocks.len() == notes.len()
            &&& block_notes(blocks, cell.0, cell.1, TICKS_PER_QUARTER).to_multiset()
                == notes.to_multiset()
        }),
{
    let scale = editor.scale;
    let number = editor.cc_at(cell.0 as int, cell.1 as int)->0;
    let notes = notes_on(performed, cell);
    let messages = ordered_messages(performed, cell, Some(number), scale);
    let scan = heard(named(cell), messages);
    let track = parsed(cell_track(editor, performed, cell));
    let events = lane_events(editor, performed, cell);
    let blocks = blocks_of(events, end);
    lemma_lane_is_apart(editor, performed, cell);
    lemma_notes_on(editor, performed, cell);
    if notes.len() == 0 {
        lemma_no_messages(performed, cell, Some(number), scale);
        assert(messages =~= Seq::<OutEvent>::empty());
        lemma_scan_cell_track(editor, performed, cell);
        assert(scan.ccs =~= controller_events(Seq::<OutEvent>::empty()));
        lemma_changing_groups(Seq::<OutEvent>::empty(), 0, FIRST_CHANNEL_MODE_CC as int);
        assert(!changes(times_and_values(Seq::<OutEvent>::empty())));
        stable_sort_orders(scan.notes);
        assert(block_notes(blocks, cell.0, cell.1, TICKS_PER_QUARTER) =~= notes);
    } else {
        assert(is_exact(notes[0], editor));
        let heard_events = lemma_hear_blocks(performed, cell, number, scale, end);
        lemma_scan_cell_track(editor, performed, cell);
        lemma_heard_time(named(cell), messages);
        stable_sort_orders(scan.notes);
        lemma_hear_blocks_events(performed, cell, number, scale);
        assert(track.groups[0] == GroupView { number, events: heard_events });
        let back = block_notes(blocks, cell.0, cell.1, TICKS_PER_QUARTER);
        assert(heard_events == events);
        assert forall|i: int| 0 <= i < blocks.len() implies notes.contains(#[trigger] back[i])
            && block_of(back[i]) == blocks[i] by {
            assert(blocks.contains(blocks[i]));
            let j = choose|j: int|
                0 <= j < notes.len() && block_of(#[trigger] notes[j]) == blocks[i];
            lemma_exact_block(notes[j], editor);
            assert(back[i] == notes[j]);
        }
        assert(back.no_duplicates()) by {
            assert forall|i: int, j: int|
                0 <= i < back.len() && 0 <= j < back.len() && i != j implies back[i] != back[j] by {
                assert(blocks[i] != blocks[j]);
                assert(block_of(back[i]) == blocks[i]);
                assert(block_of(back[j]) == blocks[j]);
            }
        }
        assert(notes.no_duplicates()) by {
            assert forall|i: int, j: int|
                0 <= i < notes.len() && 0 <= j < notes.len() && i != j implies notes[i]
                != notes[j] by {
                lemma_exact_times(notes[i], editor);
                assert(!blocks_overlap(notes[i], notes[j]));
            }
        }
        assert forall|n: Note| #[trigger] back.contains(n) <==> notes.contains(n) by {
            if back.contains(n) {
                let i = choose|i: int| 0 <= i < back.len() && back[i] == n;
                assert(notes.contains(back[i]));
            }
            if notes.contains(n) {
                let j = choose|j: int| 0 <= j < notes.len() && notes[j] == n;
                lemma_exact_block(notes[j], editor);
                assert(blocks.contains(block_of(notes[j])));
                let i = choose|i: int| 0 <= i < blocks.len() && blocks[i] == block_of(notes[j]);
                assert(back[i] == n);
            }
        }
        lemma_same_items(back, notes);
    }
}

/// A lane without notes has no messages.
proof fn lemma_no_messages(
    performed: Seq<Note>,
    cell: (usize, usize),
    controller: Option<u8>,
    scale: ScaleMode,
)
    requires
        notes_on(performed, cell).len() == 0,
    ensures
        cell_messages(performed, cell, controller, scale).len() == 0,
        ordered_messages(performed, cell, controller, scale).len() == 0,
    decreases performed.len(),
{
    if performed.len() > 0 {
        lemma_no_messages(performed.drop_last(), cell, controller, scale);
    }
    stable_sort_orders(cell_messages(performed, cell, controller, scale));
}

/// The one controller of a controller lane has the events of the lane.
proof fn lemma_hear_blocks_events(
    performed: Seq<Note>,
    cell: (usize, usize),
    number: u8,
    scale: ScaleMode,
)
    requires
        blocks_are_apart(notes_on(performed, cell)),
        number < FIRST_CHANNEL_MODE_CC,
        notes_on(performed, cell).len() > 0,
    ensures
        ({
            let messages = ordered_messages(performed, cell, Some(number), scale);
            let groups = changing_groups(
                heard(named(cell), messages).ccs,
                FIRST_CHANNEL_MODE_CC as int,
            );
            groups.len() == 1 ==> groups[0].events == times_and_values(messages)
        }),
{
    let messages = ordered_messages(performed, cell, Some(number), scale);
    lemma_messages_of_blocks(performed, cell, number, scale);
    let raw = cell_messages(performed, cell, Some(number), scale);
    let sorted = stable_sorted(raw);
    stable_sort_orders(raw);
    lemma_permutation(sorted, raw);
    lemma_kept_come_from(sorted);
    let channel = (cell.1 % 16) as u8;
    assert forall|i: int| 0 <= i < messages.len() implies is_controller(#[trigger] messages[i])
        && messages[i].first == number by {
        assert(sorted.contains(messages[i]));
        assert(controls(messages[i], notes_on(performed, cell), channel, number));
    }
    lemma_hear_controllers(cell, messages, number);
    lemma_changing_groups(messages, number, FIRST_CHANNEL_MODE_CC as int);
}

/// Messages that are kept were there before.
proof fn lemma_kept_come_from(events: Seq<OutEvent>)
    ensures
        forall|i: int|
            0 <= i < without_redundant_releases(events).len() ==> events.contains(
                #[trigger] without_redundant_releases(events)[i],
            ),
    decreases events.len(),
{
    if events.len() > 0 {
        let tail = events.skip(1);
        lemma_kept_come_from(tail);
        let rest = without_redundant_releases(tail);
        let kept = without_redundant_releases(events);
        assert forall|i: int| 0 <= i < kept.len() implies events.contains(#[trigger] kept[i]) by {
            if !is_redundant(events[0], tail) && i == 0 {
                assert(kept[0] == events[0]);
            } else {
                let at = if is_redundant(events[0], tail) {
                    i
                } else {
                    i - 1
                };
                assert(kept[i] == rest[at]);
                let m = choose|m: int| 0 <= m < tail.len() && tail[m] == rest[at];
                assert(events[m + 1] == kept[i]);
            }
        }
    }
}

/// The notes on those of the given lanes that are controller lanes, or on
/// those that are not.
spec fn gathered(
    cells: Seq<(usize, usize)>,
    performed: Seq<Note>,
    editor: EditorView,
    controllers: bool,
) -> Multiset<Note>
    decreases cells.len(),
{
    if cells.len() == 0 {
        Multiset::empty()
    } else {
        let before = gathered(cells.drop_last(), performed, editor, controllers);
        let cell = cells.last();
        if (editor.cc_at(cell.0 as int, cell.1 as int) is Some) == controllers {
            before.add(notes_on(performed, cell).to_multiset())
        } else {
            before
        }
    }
}

/// The controllers that wait after the given lanes were laid out.
spec fn waiting(
    cells: Seq<(usize, usize)>,
    performed: Seq<Note>,
    editor: EditorView,
) -> Seq<PendingView>
    decreases cells.len(),
{
    if cells.len() == 0 {
        Seq::empty()
    } else {
        let before = waiting(cells.drop_last(), performed, editor);
        let cell = cells.last();
        match editor.cc_at(cell.0 as int, cell.1 as int) {
            Some(number) if notes_on(performed, cell).len() > 0 => before.push(
                PendingView {
                    track: cell.0,
                    lane: Some(cell.1),
                    groups: seq![
                        GroupView { number, events: lane_events(editor, performed, cell) },
                    ],
                },
            ),
            _ => before,
        }
    }
}

/// The controller lanes among the given lanes that have blocks.
pub open spec fn controller_lanes(
    cells: Seq<(usize, usize)>,
    performed: Seq<Note>,
    editor: EditorView,
) -> Seq<(usize, usize, u8)>
    decreases cells.len(),
{
    if cells.len() == 0 {
        Seq::empty()
    } else {
        let before = controller_lanes(cells.drop_last(), performed, editor);
        let cell = cells.last();
        match editor.cc_at(cell.0 as int, cell.1 as int) {
            Some(number) if notes_on(performed, cell).len() > 0 => before.push(
                (cell.0, cell.1, number),
            ),
            _ => before,
        }
    }
}

/// The tracks of lanes as they are read.
spec fn read_lanes(
    cells: Seq<(usize, usize)>,
    performed: Seq<Note>,
    editor: EditorView,
) -> Seq<ParsedView> {
    Seq::new(cells.len(), |i: int| parsed(cell_track(editor, performed, cells[i])))
}

/// Notes that go to a given lane are put behind the notes that are there.
proof fn lemma_with_notes(
    layout: LayoutView,
    raw: Seq<RawNote>,
    cell: (usize, usize),
    scale: ScaleMode,
)
    ensures
        ({
            let after = layout.with_notes(raw, cell.0, cell.1, true, TICKS_PER_QUARTER, scale);
            &&& after.notes == layout.notes + placed_notes(raw, cell, scale)
            &&& after.pending == layout.pending
        }),
    decreases raw.len(),
{
    let after = layout.with_notes(raw, cell.0, cell.1, true, TICKS_PER_QUARTER, scale);
    if raw.len() == 0 {
        assert(after.notes =~= layout.notes + placed_notes(raw, cell, scale));
    } else {
        lemma_with_notes(layout, raw.drop_last(), cell, scale);
        assert(placed_notes(raw, cell, scale) =~= placed_notes(raw.drop_last(), cell, scale).push(
            placed_note(raw.last(), cell.0, cell.1, TICKS_PER_QUARTER, scale),
        ));
        assert(after.notes =~= layout.notes + placed_notes(raw, cell, scale));
    }
}

/// The lanes are laid out one after the other.
proof fn lemma_lay_out_lanes(
    cells: Seq<(usize, usize)>,
    performed: Seq<Note>,
    editor: EditorView,
)
    requires
        survives(editor, performed),
    ensures
        ({
            let layout = laid_out(
                read_lanes(cells, performed, editor),
                TICKS_PER_QUARTER,
                editor.scale,
            );
            &&& layout.notes.to_multiset() == gathered(cells, performed, editor, false)
            &&& layout.pending == waiting(cells, performed, editor)
        }),
    decreases cells.len(),
{
    broadcast use vstd::seq_lib::group_to_multiset_ensures;

    let tracks = read_lanes(cells, performed, editor);
    let layout = laid_out(tracks, TICKS_PER_QUARTER, editor.scale);
    if cells.len() == 0 {
        assert(layout.notes.to_multiset() =~= Multiset::<Note>::empty());
    } else {
        let shorter = cells.drop_last();
        let cell = cells.last();
        lemma_lay_out_lanes(shorter, performed, editor);
        assert(tracks.drop_last() =~= read_lanes(shorter, performed, editor));
        let before = laid_out(tracks.drop_last(), TICKS_PER_QUARTER, editor.scale);
        let track = parsed(cell_track(editor, performed, cell));
        assert(tracks.last() == track);
        if editor.cc_at(cell.0 as int, cell.1 as int) is None {
            lemma_note_lane_track(editor, performed, cell);
        } else {
            lemma_controller_lane_track(editor, performed, cell, 0);
        }
        lemma_with_notes(before, track.notes, cell, editor.scale);
        let added = placed_notes(track.notes, cell, editor.scale);
        assert(layout.notes == before.notes + added);
        vstd::seq_lib::lemma_multiset_commutative(before.notes, added);
        if editor.cc_at(cell.0 as int, cell.1 as int) is Some {
            assert(before.notes + added =~= before.notes);
            assert(layout.pending =~= waiting(cells, performed, editor));
        } else {
            assert(layout.pending =~= waiting(cells, performed, editor));
        }
        assert(layout.notes.to_multiset() =~= gathered(cells, performed, editor, false));
    }
}

/// The controllers of the lanes are restored one after the other.
proof fn lemma_restore_lanes(
    cells: Seq<(usize, usize)>,
    performed: Seq<Note>,
    editor: EditorView,
    layout: LayoutView,
    end: u64,
)
    requires
        survives(editor, performed),
    ensures
        ({
            let all = restored(
                waiting(cells, performed, editor),
                layout,
                end,
                TICKS_PER_QUARTER,
            );
            &&& all.notes.to_multiset() == layout.notes.to_multiset().add(
                gathered(cells, performed, editor, true),
            )
            &&& all.lane_ccs == controller_lanes(cells, performed, editor)
        }),
    decreases cells.len(),
{
    broadcast use vstd::seq_lib::group_to_multiset_ensures;

    let pending = waiting(cells, performed, editor);
    let all = restored(pending, layout, end, TICKS_PER_QUARTER);
    if cells.len() == 0 {
        assert(all.notes.to_multiset() =~= layout.notes.to_multiset().add(Multiset::empty()));
    } else {
        let shorter = cells.drop_last();
        let cell = cells.last();
        lemma_restore_lanes(shorter, performed, editor, layout, end);
        let before = restored(
            waiting(shorter, performed, editor),
            layout,
            end,
            TICKS_PER_QUARTER,
        );
        let notes = notes_on(performed, cell);
        let controller = editor.cc_at(cell.0 as int, cell.1 as int);
        if controller is Some {
            lemma_controller_lane_track(editor, performed, cell, end);
            if notes.len() > 0 {
                let number = controller->0;
                let events = lane_events(editor, performed, cell);
                let blocks = blocks_of(events, end);
                let added = block_notes(blocks, cell.0, cell.1, TICKS_PER_QUARTER);
                let groups = seq![GroupView { number, events }];
                assert(pending.drop_last() =~= waiting(shorter, performed, editor));
                assert(pending.last().groups == groups);
                reveal_with_fuel(RestoreView::with_groups, 2);
                assert(groups.drop_last() =~= Seq::<GroupView>::empty());
                assert(all.notes == before.notes + added);
                vstd::seq_lib::lemma_multiset_commutative(before.notes, added);
                assert(all.lane_ccs =~= controller_lanes(cells, performed, editor));
            } else {
                assert(notes =~= Seq::<Note>::empty());
                assert(notes.to_multiset() =~= Multiset::<Note>::empty());
            }
        }
        assert(all.notes.to_multiset() =~= layout.notes.to_multiset().add(
            gathered(cells, performed, editor, true),
        ));
    }
}

/// One more note is gathered once where its lane is among the lanes.
proof fn lemma_gather_one(
    cells: Seq<(usize, usize)>,
    performed: Seq<Note>,
    editor: EditorView,
)
    requires
        cells.no_duplicates(),
        performed.len() > 0,
    ensures
        ({
            let shorter = performed.drop_last();
            let last = performed.last();
            let both = gathered(cells, performed, editor, false).add(
                gathered(cells, performed, editor, true),
            );
            let before = gathered(cells, shorter, editor, false).add(
                gathered(cells, shorter, editor, true),
            );
            both == if cells.contains((last.track, last.lane)) {
                before.insert(last)
            } else {
                before
            }
        }),
    decreases cells.len(),
{
    broadcast use vstd::seq_lib::group_to_multiset_ensures;

    let shorter = performed.drop_last();
    let last = performed.last();
    let home = (last.track, last.lane);
    let both = gathered(cells, performed, editor, false).add(
        gathered(cells, performed, editor, true),
    );
    let before = gathered(cells, shorter, editor, false).add(
        gathered(cells, shorter, editor, true),
    );
    if cells.len() == 0 {
        assert(both =~= before);
    } else {
        let fewer = cells.drop_last();
        let cell = cells.last();
        assert(fewer.no_duplicates());
        lemma_gather_one(fewer, performed, editor);
        let inner = gathered(fewer, performed, editor, false).add(
            gathered(fewer, performed, editor, true),
        );
        let inner_before = gathered(fewer, shorter, editor, false).add(
            gathered(fewer, shorter, editor, true),
        );
        let here = notes_on(performed, cell).to_multiset();
        let here_before = notes_on(shorter, cell).to_multiset();
        assert(both =~= inner.add(here)) by {
            if editor.cc_at(cell.0 as int, cell.1 as int) is Some {
                assert(gathered(cells, performed, editor, true) == gathered(
                    fewer,
                    performed,
                    editor,
                    true,
                ).add(here));
            } else {
                assert(gathered(cells, performed, editor, false) == gathered(
                    fewer,
                    performed,
                    editor,
                    false,
                ).add(here));
            }
        }
        assert(before =~= inner_before.add(here_before)) by {
            if editor.cc_at(cell.0 as int, cell.1 as int) is Some {
                assert(gathered(cells, shorter, editor, true) == gathered(
                    fewer,
                    shorter,
                    editor,
                    true,
                ).add(here_before));
            } else {
                assert(gathered(cells, shorter, editor, false) == gathered(
                    fewer,
                    shorter,
                    editor,
                    false,
                ).add(here_before));
            }
        }
        assert(cells.contains(home) <==> fewer.contains(home) || home == cell) by {
            if cells.contains(home) {
                let i = choose|i: int| 0 <= i < cells.len() && cells[i] == home;
                if i < fewer.len() {
                    assert(fewer[i] == home);
                }
            }
            if fewer.contains(home) {
                let i = choose|i: int| 0 <= i < fewer.len() && fewer[i] == home;
                assert(cells[i] == home);
            }
            if home == cell {
                assert(cells[cells.len() - 1] == home);
            }
        }
        if home == cell {
            assert(!fewer.contains(home)) by {
                if fewer.contains(home) {
                    let i = choose|i: int| 0 <= i < fewer.len() && fewer[i] == home;
                    assert(cells[i] == cells[cells.len() - 1]);
                }
            }
            assert(notes_on(performed, cell) == notes_on(shorter, cell).push(last));
            assert(both =~= before.insert(last));
        } else {
            assert(notes_on(performed, cell) == notes_on(shorter, cell));
            if cells.contains(home) {
                assert(both =~= before.insert(last));
            } else {
                assert(both =~= before);
            }
        }
    }
}

/// All the notes are gathered where the lanes of all of them are among the
/// lanes.
proof fn lemma_gather_all(
    cells: Seq<(usize, usize)>,
    performed: Seq<Note>,
    editor: EditorView,
)
    requires
        cells.no_duplicates(),
        forall|i: int|
            #![trigger performed[i]]
            0 <= i < performed.len() ==> cells.contains((performed[i].track, performed[i].lane)),
    ensures
        gathered(cells, performed, editor, false).add(gathered(cells, performed, editor, true))
            == performed.to_multiset(),
    decreases performed.len(),
{
    broadcast use vstd::seq_lib::group_to_multiset_ensures;

    if performed.len() == 0 {
        lemma_gather_none(cells, performed, editor);
        assert(performed.to_multiset() =~= Multiset::<Note>::empty());
        assert(gathered(cells, performed, editor, false).add(
            gathered(cells, performed, editor, true),
        ) =~= Multiset::<Note>::empty());
    } else {
        let shorter = performed.drop_last();
        assert forall|i: int|
            #![trigger shorter[i]]
            0 <= i < shorter.len() implies cells.contains((shorter[i].track, shorter[i].lane)) by {
            assert(performed[i] == shorter[i]);
        }
        lemma_gather_all(cells, shorter, editor);
        lemma_gather_one(cells, performed, editor);
        assert(performed[performed.len() - 1] == performed.last());
        assert(performed =~= shorter.push(performed.last()));
    }
}

proof fn lemma_gather_none(
    cells: Seq<(usize, usize)>,
    performed: Seq<Note>,
    editor: EditorView,
)
    requires
        performed.len() == 0,
    ensures
        gathered(cells, performed, editor, false) == Multiset::<Note>::empty(),
        gathered(cells, performed, editor, true) == Multiset::<Note>::empty(),
    decreases cells.len(),
{
    broadcast use vstd::seq_lib::group_to_multiset_ensures;

    if cells.len() > 0 {
        lemma_gather_none(cells.drop_last(), performed, editor);
        let notes = notes_on(performed, cells.last());
        assert(notes.to_multiset() =~= Multiset::<Note>::empty());
        assert(gathered(cells, performed, editor, false) =~= Multiset::<Note>::empty());
        assert(gathered(cells, performed, editor, true) =~= Multiset::<Note>::empty());
    }
}

/// Every lane of the tracks is listed once.
proof fn lemma_lane_cells_unique(tracks: Seq<TrackView>)
    requires
        tracks.len() <= usize::MAX,
    ensures
        lane_cells(tracks).no_duplicates(),
        forall|i: int|
            0 <= i < lane_cells(tracks).len() ==> (#[trigger] lane_cells(tracks)[i]).0
                < tracks.len(),
    decreases tracks.len(),
{
    if tracks.len() > 0 {
        let shorter = tracks.drop_last();
        lemma_lane_cells_unique(shorter);
        let before = lane_cells(shorter);
        let cells = lane_cells(tracks);
        assert forall|i: int| 0 <= i < cells.len() implies (#[trigger] cells[i]).0
            < tracks.len() by {
            if i < before.len() {
                assert(cells[i] == before[i]);
            }
        }
        assert forall|i: int, j: int|
            0 <= i < cells.len() && 0 <= j < cells.len() && i != j implies cells[i] != cells[j] by {
            if i < before.len() {
                assert(cells[i] == before[i]);
            }
            if j < before.len() {
                assert(cells[j] == before[j]);
            }
        }
    }
}

/// Adding the lanes of notes repeats none.
proof fn lemma_note_cells_unique(cells: Seq<(usize, usize)>, notes: Seq<Note>)
    requires
        cells.no_duplicates(),
    ensures
        with_note_cells(cells, notes).no_duplicates(),
    decreases notes.len(),
{
    if notes.len() > 0 {
        lemma_note_cells_unique(cells, notes.drop_last());
    }
}

/// Every exported lane is listed once.
pub proof fn exported_lanes_are_distinct(editor: EditorView)
    requires
        editor.tracks.len() <= usize::MAX,
    ensures
        exported_cells(editor).no_duplicates(),
{
    lemma_lane_cells_unique(editor.tracks);
    lemma_note_cells_unique(lane_cells(editor.tracks), editor.notes);
}

/// What is read of the first track: a tempo and a time signature.
proof fn lemma_scan_conductor(editor: EditorView)
    ensures
        ({
            let scan = scanned(conductor(editor));
            let tempo = if editor.tempo == 0 {
                1
            } else {
                editor.tempo as int
            };
            &&& scan.tempo == Some(tempo_of(((60_000_000int / tempo) % 0x100_0000) as u32))
            &&& scan.signature == Some(
                signature_of(
                    if editor.beats < 1 {
                        1
                    } else if editor.beats > 255 {
                        255
                    } else {
                        editor.beats as u8
                    },
                    power_of_beat_type(editor.beat_type),
                ),
            )
            &&& !is_kept(parsed(conductor(editor)))
        }),
{
    let events = conductor(editor);
    reveal_with_fuel(scanned, 4);
    assert(events.drop_last().drop_last().drop_last() =~= Seq::<SmfEventView>::empty());
    let scan = scanned(events);
    assert(scan.ccs =~= controller_events(Seq::<OutEvent>::empty()));
    lemma_changing_groups(Seq::<OutEvent>::empty(), 0, FIRST_CHANNEL_MODE_CC as int);
    assert(!changes(times_and_values(Seq::<OutEvent>::empty())));
    stable_sort_orders(scan.notes);
}

/// The tracks of an exported file are read as the lanes.
proof fn lemma_read_exported(
    editor: EditorView,
    performed: Seq<Note>,
    count: int,
)
    requires
        survives(editor, performed),
        0 <= count <= exported_cells(editor).len(),
    ensures
        ({
            let tracks = exported_tracks(editor, performed).take(count + 1);
            &&& kept_tracks(tracks) == read_lanes(
                exported_cells(editor).take(count),
                performed,
                editor,
            )
            &&& first_tempo(tracks) == scanned(conductor(editor)).tempo
            &&& first_signature(tracks) == scanned(conductor(editor)).signature
        }),
    decreases count,
{
    let all = exported_tracks(editor, performed);
    let cells = exported_cells(editor);
    let tracks = all.take(count + 1);
    lemma_scan_conductor(editor);
    if count == 0 {
        reveal_with_fuel(kept_tracks, 2);
        reveal_with_fuel(first_tempo, 2);
        reveal_with_fuel(first_signature, 2);
        assert(tracks.last() == conductor(editor));
        assert(tracks.drop_last() =~= Seq::<Seq<SmfEventView>>::empty());
        assert(kept_tracks(tracks) =~= read_lanes(cells.take(0), performed, editor));
    } else {
        lemma_read_exported(editor, performed, count - 1);
        assert(tracks.drop_last() =~= all.take(count));
        let cell = cells[count - 1];
        assert(tracks.last() == cell_track(editor, performed, cell));
        if editor.cc_at(cell.0 as int, cell.1 as int) is None {
            lemma_note_lane_track(editor, performed, cell);
        } else {
            lemma_controller_lane_track(editor, performed, cell, 0);
        }
        assert(kept_tracks(tracks) =~= read_lanes(cells.take(count), performed, editor));
    }
}

/// Exporting a sequence and importing the file gives back its notes, each on
/// its lane, and its controller lanes, as far as they have blocks. The file
/// must be able to hold what the notes say.
pub proof fn export_import_round_trip(editor: EditorView, performed: Seq<Note>)
    requires
        survives(editor, performed),
    ensures
        ({
            let file = SmfView {
                resolution: Some(TICKS_PER_QUARTER),
                tracks: exported_tracks(editor, performed),
            };
            let back = imported(file, editor.scale);
            &&& back.notes.to_multiset() == performed.to_multiset()
            &&& back.lane_ccs == controller_lanes(exported_cells(editor), performed, editor)
        }),
{
    let file = SmfView {
        resolution: Some(TICKS_PER_QUARTER),
        tracks: exported_tracks(editor, performed),
    };
    let cells = exported_cells(editor);
    let count = cells.len() as int;
    lemma_read_exported(editor, performed, count);
    assert(file.tracks.take(count + 1) =~= file.tracks);
    assert(cells.take(count) =~= cells);
    let tracks = kept_tracks(file.tracks);
    let layout = laid_out(tracks, TICKS_PER_QUARTER, editor.scale);
    let all = restored(layout.pending, layout, file_end(tracks), TICKS_PER_QUARTER);
    lemma_lay_out_lanes(cells, performed, editor);
    lemma_restore_lanes(cells, performed, editor, layout, file_end(tracks));
    exported_lanes_are_distinct(editor);
    lemma_gather_all(cells, performed, editor);
    stable_sort_orders(all.notes);
}

/// A note as a file holds it: it starts and ends at the nearest ticks of the file,
/// at least one apart, and has no ramp.
pub open spec fn as_written(note: Note) -> Note {
    Note {
        start_tick: (35 * start_in_file(note)) as i64,
        duration: (35 * (end_in_file(note) - start_in_file(note))) as i64,
        velocity_to: note.velocity,
        ..note
    }
}

/// Notes as a file holds them.
pub open spec fn all_as_written(notes: Seq<Note>) -> Seq<Note> {
    Seq::new(notes.len(), |i: int| as_written(notes[i]))
}

/// Whether notes start at the beginning or later, and have a length.
pub open spec fn all_begin(notes: Seq<Note>) -> bool {
    forall|i: int|
        0 <= i < notes.len() ==> (#[trigger] notes[i]).start_tick >= 0 && notes[i].duration > 0
}

/// What a file holds of a note is written as the note itself is.
proof fn lemma_written_alike(note: Note, controller: Option<u8>, channel: u8, editor: EditorView)
    requires
        note.start_tick >= 0,
        note.duration > 0,
        is_exact(as_written(note), editor),
    ensures
        note_messages(as_written(note), controller, channel, editor.scale) == note_messages(
            note,
            controller,
            channel,
            editor.scale,
        ),
{
    lemma_exact_times(as_written(note), editor);
    let start = start_in_file(note);
    let end = end_in_file(note);
    assert(0 <= start <= u32::MAX);
    assert(start < end <= u32::MAX + 1);
    assert(as_written(note).start_tick == 35 * start);
    assert(as_written(note).duration == 35 * (end - start));
}

proof fn lemma_cells_written_alike(
    performed: Seq<Note>,
    cell: (usize, usize),
    controller: Option<u8>,
    editor: EditorView,
)
    requires
        all_begin(performed),
        forall|i: int|
            0 <= i < performed.len() ==> is_exact(as_written(#[trigger] performed[i]), editor),
    ensures
        cell_messages(all_as_written(performed), cell, controller, editor.scale) == cell_messages(
            performed,
            cell,
            controller,
            editor.scale,
        ),
    decreases performed.len(),
{
    if performed.len() > 0 {
        let shorter = performed.drop_last();
        let last = performed[performed.len() - 1];
        assert forall|i: int| 0 <= i < shorter.len() implies is_exact(
            as_written(#[trigger] shorter[i]),
            editor,
        ) && shorter[i].start_tick >= 0 && shorter[i].duration > 0 by {
            assert(shorter[i] == performed[i]);
        }
        lemma_cells_written_alike(shorter, cell, controller, editor);
        assert(all_as_written(performed).drop_last() =~= all_as_written(shorter));
        assert(all_as_written(performed).last() == as_written(last));
        lemma_written_alike(last, controller, (cell.1 % 16) as u8, editor);
    }
}

/// What a file holds of notes is written as the notes themselves are.
proof fn lemma_tracks_written_alike(editor: EditorView, performed: Seq<Note>)
    requires
        all_begin(performed),
        survives(editor, all_as_written(performed)),
    ensures
        exported_tracks(editor, all_as_written(performed)) == exported_tracks(editor, performed),
{
    let written = all_as_written(performed);
    let cells = exported_cells(editor);
    assert forall|i: int| 0 <= i < performed.len() implies is_exact(
        as_written(#[trigger] performed[i]),
        editor,
    ) by {
        assert(is_exact(written[i], editor));
    }
    assert forall|i: int| 0 <= i < cells.len() implies cell_track(editor, written, #[trigger] cells[i])
        == cell_track(editor, performed, cells[i]) by {
        let controller = editor.cc_at(cells[i].0 as int, cells[i].1 as int);
        lemma_cells_written_alike(performed, cells[i], controller, editor);
    }
    assert(exported_tracks(editor, written) =~= exported_tracks(editor, performed));
}

/// Without controller lanes there are none with blocks.
proof fn lemma_no_controller_lanes(
    cells: Seq<(usize, usize)>,
    performed: Seq<Note>,
    editor: EditorView,
)
    requires
        forall|i: int|
            0 <= i < cells.len() ==> editor.cc_at(
                (#[trigger] cells[i]).0 as int,
                cells[i].1 as int,
            ) is None,
    ensures
        controller_lanes(cells, performed, editor).len() == 0,
    decreases cells.len(),
{
    if cells.len() > 0 {
        let shorter = cells.drop_last();
        assert forall|i: int| 0 <= i < shorter.len() implies editor.cc_at(
            (#[trigger] shorter[i]).0 as int,
            shorter[i].1 as int,
        ) is None by {
            assert(shorter[i] == cells[i]);
        }
        assert(cells.last() == cells[cells.len() - 1]);
        lemma_no_controller_lanes(shorter, performed, editor);
    }
}

/// Exporting a sequence and importing the file gives every note back on its lane,
/// with its pitch and velocity, at the nearest ticks of the file, and gives the
/// controller lanes that have blocks, and no others. This holds of notes anywhere,
/// tuplets and swung notes included, as long as they do not get in each other's
/// way in the file.
pub proof fn export_import_finds_the_nearest_ticks(editor: EditorView, performed: Seq<Note>)
    requires
        all_begin(performed),
        survives(editor, all_as_written(performed)),
    ensures
        ({
            let file = SmfView {
                resolution: Some(TICKS_PER_QUARTER),
                tracks: exported_tracks(editor, performed),
            };
            let back = imported(file, editor.scale);
            &&& back.notes.to_multiset() == all_as_written(performed).to_multiset()
            &&& back.lane_ccs == controller_lanes(
                exported_cells(editor),
                all_as_written(performed),
                editor,
            )
            &&& (forall|i: int|
                0 <= i < exported_cells(editor).len() ==> editor.cc_at(
                    (#[trigger] exported_cells(editor)[i]).0 as int,
                    exported_cells(editor)[i].1 as int,
                ) is None) ==> back.lane_ccs.len() == 0
        }),
        forall|i: int|
            0 <= i < performed.len() ==> {
                let note = #[trigger] performed[i];
                let late = as_written(note).start_tick - note.start_tick;
                let longer = as_written(note).start_tick + as_written(note).duration - (
                note.start_tick + note.duration);
                &&& -17 <= late <= 17
                &&& -17 <= longer <= 51
                &&& note.duration >= 35 ==> longer <= 17
            },
{
    let written = all_as_written(performed);
    lemma_tracks_written_alike(editor, performed);
    export_import_round_trip(editor, written);
    if forall|i: int|
        0 <= i < exported_cells(editor).len() ==> editor.cc_at(
            (#[trigger] exported_cells(editor)[i]).0 as int,
            exported_cells(editor)[i].1 as int,
        ) is None {
        lemma_no_controller_lanes(exported_cells(editor), written, editor);
    }
    assert forall|i: int| 0 <= i < performed.len() implies {
        let note = #[trigger] performed[i];
        let late = as_written(note).start_tick - note.start_tick;
        let longer = as_written(note).start_tick + as_written(note).duration - (note.start_tick
            + note.duration);
        &&& -17 <= late <= 17
        &&& -17 <= longer <= 51
        &&& note.duration >= 35 ==> longer <= 17
    } by {
        let note = performed[i];
        assert(is_exact(written[i], editor));
        lemma_exact_times(written[i], editor);
        lemma_rounding(note);
    }
}

/// A note that a file can hold lies close to its ticks in the file.
proof fn lemma_rounding(note: Note)
    requires
        note.start_tick >= 0,
        note.duration > 0,
        as_written(note).start_tick + as_written(note).duration < 35 * 0x1000_0000,
    ensures
        -17 <= 35 * start_in_file(note) - note.start_tick <= 17,
        -17 <= 35 * end_in_file(note) - (note.start_tick + note.duration) <= 51,
        note.duration >= 35 ==> 35 * end_in_file(note) - (note.start_tick + note.duration) <= 17,
        note.duration >= 35 ==> end_in_file(note) == file_tick(note.end() as int),
        as_written(note).start_tick == 35 * start_in_file(note),
        as_written(note).start_tick + as_written(note).duration == 35 * end_in_file(note),
{
    let start = note.start_tick as int;
    let end = note.end() as int;
    assert(0 <= start_in_file(note) < end_in_file(note) <= u32::MAX + 1);
    assert(as_written(note).start_tick == 35 * start_in_file(note));
    assert(as_written(note).duration == 35 * (end_in_file(note) - start_in_file(note)));
    assert(start_in_file(note) == (2 * start + 35) / 70);
    assert(end >= start);
    assert(file_tick(end) < 0x1000_0000);
    assert(file_tick(end) == (2 * end + 35) / 70);
}

/// Notes that are at least one tick of the file long and do not clash do not get
/// in each other's way in the file.
pub proof fn notes_apart_are_written_apart(a: Note, b: Note, editor: EditorView)
    requires
        a.start_tick >= 0,
        b.start_tick >= 0,
        a.duration >= 35,
        b.duration >= 35,
        as_written(a).start_tick + as_written(a).duration < 35 * 0x1000_0000,
        as_written(b).start_tick + as_written(b).duration < 35 * 0x1000_0000,
        !clash(a, b, editor),
    ensures
        !clash(as_written(a), as_written(b), editor),
{
    lemma_rounding(a);
    lemma_rounding(b);
}

/// The tempo and the time signature survive an export where a file and the
/// editor can both hold them.
pub proof fn export_import_keeps_meter(editor: EditorView, performed: Seq<Note>)
    requires
        all_begin(performed),
        survives(editor, all_as_written(performed)),
        20 <= editor.tempo <= 300,
        1 <= editor.beats <= 255,
        editor.beat_type == 1 || editor.beat_type == 2 || editor.beat_type == 4 || editor.beat_type
            == 8 || editor.beat_type == 16 || editor.beat_type == 32,
    ensures
        ({
            let file = SmfView {
                resolution: Some(TICKS_PER_QUARTER),
                tracks: exported_tracks(editor, performed),
            };
            let back = imported(file, editor.scale);
            &&& back.tempo == Some(editor.tempo)
            &&& back.time_signature == Some((editor.beats, editor.beat_type))
        }),
{
    let tracks = exported_tracks(editor, performed);
    let count = exported_cells(editor).len() as int;
    lemma_tracks_written_alike(editor, performed);
    lemma_read_exported(editor, all_as_written(performed), count);
    assert(tracks.take(count + 1) =~= tracks);
    lemma_scan_conductor(editor);
    let tempo = editor.tempo as int;
    let us = 60_000_000int / tempo;
    assert(200_000 <= us <= 3_000_000 && 60_000_000int / us == tempo) by (nonlinear_arith)
        requires
            20 <= tempo <= 300,
            us == 60_000_000int / tempo,
    ;
}

} // verus!
