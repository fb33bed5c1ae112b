//! Standard MIDI files, read and written through the `midly` crate.

use midly::MetaMessage::{EndOfTrack, Tempo, TimeSignature, TrackName};
use midly::TrackEventKind::Meta;
use midly::{live::LiveEvent, num::u28, Arena, Format, Header, Timing, TrackEvent};
use vstd::prelude::*;

verus! {

/// What happens at one point of a track.
#[derive(Debug)]
pub enum SmfKind {
    /// A message to a device, as its bytes: the status, then the data. Empty
    /// for an event that is neither such a message nor one of the kinds below.
    Channel(Vec<u8>),
    /// Microseconds per quarter note.
    Tempo(u32),
    /// Numerator, power of two of the denominator, clocks per click and 32nd
    /// notes per quarter.
    TimeSignature(u8, u8, u8, u8),
    /// The name of the track, as bytes.
    TrackName(Vec<u8>),
    /// The end of the track.
    EndOfTrack,
}

/// An event of a track and the ticks since the event before it.
#[derive(Debug)]
pub struct SmfEvent {
    pub delta: u32,
    pub kind: SmfKind,
}

/// What an [`SmfKind`] holds.
#[verifier::ext_equal]
pub enum SmfKindView {
    Channel(Seq<u8>),
    Tempo(u32),
    TimeSignature(u8, u8, u8, u8),
    TrackName(Seq<u8>),
    EndOfTrack,
}

/// What an [`SmfEvent`] holds.
#[verifier::ext_equal]
pub struct SmfEventView {
    pub delta: u32,
    pub kind: SmfKindView,
}

impl View for SmfKind {
    type V = SmfKindView;

    open spec fn view(&self) -> SmfKindView {
        match self {
            SmfKind::Channel(bytes) => SmfKindView::Channel(bytes@),
            SmfKind::Tempo(us) => SmfKindView::Tempo(*us),
            SmfKind::TimeSignature(n, d, c, q) => SmfKindView::TimeSignature(*n, *d, *c, *q),
            SmfKind::TrackName(bytes) => SmfKindView::TrackName(bytes@),
            SmfKind::EndOfTrack => SmfKindView::EndOfTrack,
        }
    }
}

impl View for SmfEvent {
    type V = SmfEventView;

    open spec fn view(&self) -> SmfEventView {
        SmfEventView { delta: self.delta, kind: self.kind@ }
    }
}

/// The views of a track's events.
pub open spec fn event_views(events: Seq<SmfEvent>) -> Seq<SmfEventView> {
    Seq::new(events.len(), |i: int| events[i]@)
}

/// The views of a file's tracks.
pub open spec fn tracks_view(tracks: Seq<Vec<SmfEvent>>) -> Seq<Seq<SmfEventView>> {
    Seq::new(tracks.len(), |i: int| event_views(tracks[i]@))
}

/// A MIDI file: its resolution and its tracks.
#[derive(Debug)]
pub struct SmfFile {
    /// Ticks per quarter note; `None` where the file counts in frames.
    pub resolution: Option<u16>,
    pub tracks: Vec<Vec<SmfEvent>>,
}

/// What an [`SmfFile`] holds.
#[verifier::ext_equal]
pub struct SmfView {
    pub resolution: Option<u16>,
    pub tracks: Seq<Seq<SmfEventView>>,
}

impl View for SmfFile {
    type V = SmfView;

    open spec fn view(&self) -> SmfView {
        SmfView { resolution: self.resolution, tracks: tracks_view(self.tracks@) }
    }
}

/// Whether an event can be put into a file: its numbers fit their fields, and
/// a message is a note or controller message of three bytes.
pub open spec fn is_writable(event: SmfEventView) -> bool {
    &&& event.delta < 0x1000_0000
    &&& match event.kind {
        SmfKindView::Channel(bytes) => {
            &&& bytes.len() == 3
            &&& 0x80 <= bytes[0] < 0xC0
            &&& bytes[1] < 0x80
            &&& bytes[2] < 0x80
        },
        SmfKindView::Tempo(us) => us < 0x100_0000,
        SmfKindView::TimeSignature(..) => true,
        SmfKindView::TrackName(bytes) => bytes.len() < 0x1000_0000,
        SmfKindView::EndOfTrack => true,
    }
}

/// Whether every event of a track can be put into a file.
pub open spec fn all_writable(events: Seq<SmfEventView>) -> bool {
    forall|i: int| 0 <= i < events.len() ==> is_writable(#[trigger] events[i])
}

/// The most bytes that the events of a track take up in a file.
pub open spec fn size_bound(events: Seq<SmfEventView>) -> int
    decreases events.len(),
{
    if events.len() == 0 {
        0
    } else {
        size_bound(events.drop_last()) + 11 + match events.last().kind {
            SmfKindView::TrackName(bytes) => bytes.len() as int,
            _ => 0,
        }
    }
}

/// A MIDI file of the `midly` crate.
#[verifier::external_type_specification]
#[verifier::external_body]
pub struct ExSmf<'a>(midly::Smf<'a>);

/// What a byte string is read as: the file, or the text of the error.
pub uninterp spec fn smf_read(bytes: Seq<u8>) -> Result<SmfView, Seq<char>>;

/// The bytes of a file of parallel tracks with the given ticks per quarter note,
/// or the text of the error.
pub uninterp spec fn smf_written(
    resolution: u16,
    tracks: Seq<Seq<SmfEventView>>,
) -> Result<Seq<u8>, Seq<char>>;

/// The tracks that a file holds.
pub uninterp spec fn smf_tracks(smf: midly::Smf<'_>) -> Seq<Seq<SmfEventView>>;

/// The resolution that a file holds.
pub uninterp spec fn smf_resolution(smf: midly::Smf<'_>) -> Option<u16>;

/// Whether the tracks of a file are to be played together.
pub uninterp spec fn smf_parallel(smf: midly::Smf<'_>) -> bool;

/// Four bytes as a number, the highest first.
pub open spec fn high_first(bytes: Seq<u8>, at: int) -> int {
    0x100_0000 * bytes[at] + 0x1_0000 * bytes[at + 1] + 0x100 * bytes[at + 2] + bytes[at + 3]
}

/// Four bytes as a number, the lowest first.
pub open spec fn low_first(bytes: Seq<u8>, at: int) -> int {
    bytes[at] + 0x100 * bytes[at + 1] + 0x1_0000 * bytes[at + 2] + 0x100_0000 * bytes[at + 3]
}

/// Whether four letters stand somewhere.
pub open spec fn letters_at(bytes: Seq<u8>, at: int, a: u8, b: u8, c: u8, d: u8) -> bool {
    &&& at + 4 <= bytes.len()
    &&& bytes[at] == a
    &&& bytes[at + 1] == b
    &&& bytes[at + 2] == c
    &&& bytes[at + 3] == d
}

/// Whether a chunk is a header: its letters are `MThd`.
pub open spec fn is_header(bytes: Seq<u8>, at: int) -> bool {
    letters_at(bytes, at, 77, 84, 104, 100)
}

/// Where something ends that starts at `from` and has a length, in a part of the
/// file that ends at `end`.
pub open spec fn stop_of(from: int, length: int, end: int) -> int {
    if from + length > end {
        end
    } else {
        from + length
    }
}

/// Whether, among the chunks between `at` and `end`, a header's division starts
/// at `place`. A chunk is four letters, a length and as many bytes; the division
/// follows four bytes of a header.
pub open spec fn is_division(bytes: Seq<u8>, at: int, end: int, place: int) -> bool
    decreases end - at,
{
    if end - at < 8 {
        false
    } else {
        let stop = stop_of(at + 8, high_first(bytes, at + 4), end);
        ||| is_header(bytes, at) && stop - at >= 14 && place == at + 12
        ||| is_division(bytes, stop, end, place)
    }
}

/// The first chunk with the letters `data` between `at` and `end`, as its start
/// and end. Here lengths have their lowest byte first, and a byte follows where
/// one is odd.
pub open spec fn data_chunk(bytes: Seq<u8>, at: int, end: int) -> (int, int)
    decreases end - at,
{
    if end - at < 8 {
        (0, 0)
    } else {
        let length = low_first(bytes, at + 4);
        let stop = stop_of(at + 8, length, end);
        if letters_at(bytes, at, 100, 97, 116, 97) {
            (at + 8, stop)
        } else {
            data_chunk(bytes, stop_of(stop, length % 2, end), end)
        }
    }
}

/// Where the chunks of a file lie, as their start and end: in all of it or, in a
/// container with the letters `RIFF` and `RMID`, in its data.
pub open spec fn chunks_of(bytes: Seq<u8>) -> (int, int) {
    if letters_at(bytes, 0, 82, 73, 70, 70) {
        if bytes.len() < 12 || !letters_at(bytes, 8, 82, 77, 73, 68) || low_first(bytes, 4) < 4 {
            (0, 0)
        } else {
            data_chunk(bytes, 12, stop_of(8, low_first(bytes, 4), bytes.len() as int))
        }
    } else {
        (0, bytes.len() as int)
    }
}

/// Whether the division of a header starts at a place of a file.
pub open spec fn holds_division(bytes: Seq<u8>, place: int) -> bool {
    is_division(bytes, chunks_of(bytes).0, chunks_of(bytes).1, place)
}

/// Whether all frame rates of a file can be negated within a byte. A division
/// that starts with 128 has one that cannot.
pub open spec fn is_parsable(bytes: Seq<u8>) -> bool {
    forall|place: int| #[trigger] holds_division(bytes, place) ==> bytes[place] != 0x80
}

/// A file with every frame rate that cannot be negated replaced by its neighbour.
/// Neither is a rate that is known, so both are refused alike.
pub open spec fn mended(bytes: Seq<u8>) -> Seq<u8> {
    Seq::new(
        bytes.len(),
        |i: int|
            if bytes[i] == 0x80 && holds_division(bytes, i) {
                0x81
            } else {
                bytes[i]
            },
    )
}

/// A file that can be read needs no mending.
pub proof fn a_parsable_file_stays(bytes: Seq<u8>)
    requires
        is_parsable(bytes),
    ensures
        mended(bytes) == bytes,
{
    assert(mended(bytes) =~= bytes);
}

/// Divisions lie inside their chunks, behind the heads.
proof fn lemma_division_lies(bytes: Seq<u8>, at: int, end: int, place: int)
    requires
        is_division(bytes, at, end, place),
    ensures
        at + 12 <= place < end - 1,
    decreases end - at,
{
    let stop = stop_of(at + 8, high_first(bytes, at + 4), end);
    if is_division(bytes, stop, end, place) {
        lemma_division_lies(bytes, stop, end, place);
    }
}

/// What stands at divisions does not change where they are.
proof fn lemma_same_divisions(a: Seq<u8>, b: Seq<u8>, at: int, end: int, place: int)
    requires
        a.len() == b.len(),
        0 <= at,
        end <= a.len(),
        forall|i: int|
            at <= i < end && (#[trigger] a[i]) != b[i] ==> is_division(a, at, end, i),
    ensures
        is_division(a, at, end, place) == is_division(b, at, end, place),
    decreases end - at,
{
    if end - at >= 8 {
        assert forall|i: int| at <= i < at + 8 implies a[i] == b[i] by {
            if a[i] != b[i] {
                lemma_division_lies(a, at, end, i);
            }
        }
        assert(is_header(a, at) == is_header(b, at));
        assert(high_first(a, at + 4) == high_first(b, at + 4));
        let stop = stop_of(at + 8, high_first(a, at + 4), end);
        assert forall|i: int| stop <= i < end && (#[trigger] a[i]) != b[i] implies is_division(
            a,
            stop,
            end,
            i,
        ) by {
            assert(is_division(a, at, end, i));
        }
        lemma_same_divisions(a, b, stop, end, place);
    }
}

/// The data of a container lies inside it.
proof fn lemma_data_lies(bytes: Seq<u8>, at: int, end: int)
    requires
        0 <= at,
        end <= bytes.len(),
    ensures
        ({
            let (from, to) = data_chunk(bytes, at, end);
            &&& 0 <= from <= to <= bytes.len()
            &&& from >= at + 8 || from == to
        }),
    decreases end - at,
{
    if end - at >= 8 && !letters_at(bytes, at, 100, 97, 116, 97) {
        let length = low_first(bytes, at + 4);
        let stop = stop_of(at + 8, length, end);
        lemma_data_lies(bytes, stop_of(stop, length % 2, end), end);
    }
}

/// What stands inside the data of a container does not change where they are.
proof fn lemma_same_data(a: Seq<u8>, b: Seq<u8>, at: int, end: int)
    requires
        a.len() == b.len(),
        0 <= at,
        end <= a.len(),
        data_chunk(a, at, end).0 < data_chunk(a, at, end).1,
        forall|i: int| 0 <= i < data_chunk(a, at, end).0 ==> (#[trigger] a[i]) == b[i],
    ensures
        data_chunk(a, at, end) == data_chunk(b, at, end),
    decreases end - at,
{
    lemma_data_lies(a, at, end);
    if end - at >= 8 {
        assert(low_first(a, at + 4) == low_first(b, at + 4));
        assert(letters_at(a, at, 100, 97, 116, 97) == letters_at(b, at, 100, 97, 116, 97));
        if !letters_at(a, at, 100, 97, 116, 97) {
            let length = low_first(a, at + 4);
            let stop = stop_of(at + 8, length, end);
            lemma_same_data(a, b, stop_of(stop, length % 2, end), end);
        }
    }
}

/// A mended file can be read.
proof fn lemma_mended_is_parsable(bytes: Seq<u8>)
    ensures
        is_parsable(mended(bytes)),
{
    let after = mended(bytes);
    let (from, to) = chunks_of(bytes);
    if letters_at(bytes, 0, 82, 73, 70, 70) && bytes.len() >= 12 {
        lemma_data_lies(bytes, 12, stop_of(8, low_first(bytes, 4), bytes.len() as int));
    }
    assert(0 <= from <= to <= bytes.len());
    assert forall|i: int| 0 <= i < bytes.len() && (#[trigger] bytes[i]) != after[i] implies from
        + 12 <= i && is_division(bytes, from, to, i) by {
        lemma_division_lies(bytes, from, to, i);
    }
    assert forall|i: int| 0 <= i < from + 12 && i < bytes.len() implies (#[trigger] bytes[i])
        == after[i] by {}
    if letters_at(bytes, 0, 82, 73, 70, 70) {
        assert(letters_at(after, 0, 82, 73, 70, 70));
        if bytes.len() >= 12 {
            assert(low_first(bytes, 4) == low_first(after, 4));
            assert(letters_at(bytes, 8, 82, 77, 73, 68) == letters_at(after, 8, 82, 77, 73, 68));
            let end = stop_of(8, low_first(bytes, 4), bytes.len() as int);
            if letters_at(bytes, 8, 82, 77, 73, 68) && low_first(bytes, 4) >= 4 {
                if from < to {
                    lemma_same_data(bytes, after, 12, end);
                } else {
                    assert(after =~= bytes) by {
                        assert forall|i: int| 0 <= i < bytes.len() implies bytes[i] == after[i] by {
                            if bytes[i] != after[i] {
                                lemma_division_lies(bytes, from, to, i);
                            }
                        }
                    }
                }
            }
        }
    } else {
        assert(letters_at(after, 0, 82, 73, 70, 70) == letters_at(bytes, 0, 82, 73, 70, 70));
    }
    assert(chunks_of(after) == chunks_of(bytes));
    assert forall|place: int| #[trigger] holds_division(after, place) implies after[place]
        != 0x80 by {
        lemma_same_divisions(bytes, after, from, to, place);
        lemma_division_lies(bytes, from, to, place);
        assert(holds_division(bytes, place));
    }
}

/// Four bytes as a number, the highest first.
fn read_high_first(bytes: &[u8], at: usize) -> (number: u64)
    requires
        at + 4 <= bytes@.len(),
    ensures
        number == high_first(bytes@, at as int),
        number <= u32::MAX,
{
    0x100_0000 * bytes[at] as u64 + 0x1_0000 * bytes[at + 1] as u64 + 0x100 * bytes[at + 2] as u64
        + bytes[at + 3] as u64
}

/// Four bytes as a number, the lowest first.
fn read_low_first(bytes: &[u8], at: usize) -> (number: u64)
    requires
        at + 4 <= bytes@.len(),
    ensures
        number == low_first(bytes@, at as int),
        number <= u32::MAX,
{
    bytes[at] as u64 + 0x100 * bytes[at + 1] as u64 + 0x1_0000 * bytes[at + 2] as u64 + 0x100_0000
        * bytes[at + 3] as u64
}

/// Whether four letters stand somewhere.
fn has_letters(bytes: &[u8], at: usize, letters: [u8; 4]) -> (yes: bool)
    requires
        at <= bytes@.len(),
    ensures
        yes == letters_at(
            bytes@,
            at as int,
            letters@[0],
            letters@[1],
            letters@[2],
            letters@[3],
        ),
{
    bytes.len() - at >= 4 && bytes[at] == letters[0] && bytes[at + 1] == letters[1] && bytes[at + 2]
        == letters[2] && bytes[at + 3] == letters[3]
}

/// Where something ends that has a length.
fn stop_after(from: usize, length: u64, end: usize) -> (stop: usize)
    requires
        from <= end,
    ensures
        stop == stop_of(from as int, length as int, end as int),
        from <= stop <= end,
{
    if length > (end - from) as u64 {
        end
    } else {
        from + length as usize
    }
}

/// The first chunk with the letters `data`.
fn find_data(bytes: &[u8], start: usize, end: usize) -> (found: (usize, usize))
    requires
        start <= end <= bytes@.len(),
    ensures
        (found.0 as int, found.1 as int) == data_chunk(bytes@, start as int, end as int),
        found.0 <= found.1 <= bytes@.len(),
{
    let mut at: usize = start;
    while end - at >= 8
        invariant
            at <= end <= bytes@.len(),
            data_chunk(bytes@, start as int, end as int) == data_chunk(
                bytes@,
                at as int,
                end as int,
            ),
        decreases end - at,
    {
        let length: u64 = read_low_first(bytes, at + 4);
        let stop: usize = stop_after(at + 8, length, end);
        if has_letters(bytes, at, [100, 97, 116, 97]) {
            return (at + 8, stop);
        }
        at = stop_after(stop, length % 2, end);
    }
    (0, 0)
}

/// Where the chunks of a file lie.
fn find_chunks(bytes: &[u8]) -> (found: (usize, usize))
    ensures
        (found.0 as int, found.1 as int) == chunks_of(bytes@),
        found.0 <= found.1 <= bytes@.len(),
{
    if !has_letters(bytes, 0, [82, 73, 70, 70]) {
        return (0, bytes.len());
    }
    if bytes.len() < 12 || !has_letters(bytes, 8, [82, 77, 73, 68]) {
        return (0, 0);
    }
    let length: u64 = read_low_first(bytes, 4);
    if length < 4 {
        return (0, 0);
    }
    find_data(bytes, 12, stop_after(8, length, bytes.len()))
}

/// A file with every frame rate that cannot be negated replaced by its neighbour.
fn mend(bytes: &[u8]) -> (copy: Vec<u8>)
    ensures
        copy@ == mended(bytes@),
        is_parsable(copy@),
{
    let mut copy: Vec<u8> = Vec::new();
    let mut index: usize = 0;
    while index < bytes.len()
        invariant
            index <= bytes@.len(),
            copy@ == bytes@.take(index as int),
        decreases bytes@.len() - index,
    {
        copy.push(bytes[index]);
        assert(bytes@.take(index + 1) =~= bytes@.take(index as int).push(bytes@[index as int]));
        index += 1;
    }
    let (start, end): (usize, usize) = find_chunks(bytes);
    let mut at: usize = start;
    while end - at >= 8
        invariant
            at <= end <= bytes@.len(),
            (start as int, end as int) == chunks_of(bytes@),
            copy@.len() == bytes@.len(),
            forall|i: int| #[trigger]
                is_division(bytes@, at as int, end as int, i) ==> holds_division(bytes@, i),
            forall|i: int|
                0 <= i < bytes@.len() ==> (#[trigger] copy@[i]) == if bytes@[i] == 0x80
                    && holds_division(bytes@, i) && !is_division(
                    bytes@,
                    at as int,
                    end as int,
                    i,
                ) {
                    0x81u8
                } else {
                    bytes@[i]
                },
        decreases end - at,
    {
        let stop: usize = stop_after(at + 8, read_high_first(bytes, at + 4), end);
        let header: bool = has_letters(bytes, at, [77, 84, 104, 100]) && stop - at >= 14;
        let ghost before = copy@;
        if header && bytes[at + 12] == 0x80 {
            copy.set(at + 12, 0x81);
        }
        proof {
            assert forall|i: int| #[trigger]
                is_division(bytes@, stop as int, end as int, i) implies holds_division(
                bytes@,
                i,
            ) by {
                assert(is_division(bytes@, at as int, end as int, i));
            }
            assert forall|i: int| 0 <= i < bytes@.len() implies (#[trigger] copy@[i])
                == if bytes@[i] == 0x80 && holds_division(bytes@, i) && !is_division(
                bytes@,
                stop as int,
                end as int,
                i,
            ) {
                0x81u8
            } else {
                bytes@[i]
            } by {
                assert(before[i] == copy@[i] || i == at + 12);
                assert(is_division(bytes@, at as int, end as int, i) == (header && i == at + 12
                    || is_division(bytes@, stop as int, end as int, i)));
                if is_division(bytes@, stop as int, end as int, i) {
                    lemma_division_lies(bytes@, stop as int, end as int, i);
                }
            }
        }
        at = stop;
    }
    proof {
        assert(copy@ =~= mended(bytes@));
        lemma_mended_is_parsable(bytes@);
    }
    copy
}

/// Reads a MIDI file: calls [`midly::Smf::parse`].
///
/// Claimed of it: the outcome, the text of the error included, is a function
/// of the bytes. It negates a frame rate within a byte, so a division with one
/// that cannot be negated is left out.
#[verifier::external_body]
fn parse_smf<'a>(bytes: &'a [u8]) -> (outcome: Result<midly::Smf<'a>, String>)
    requires
        is_parsable(bytes@),
    ensures
        match outcome {
            Ok(smf) => smf_read(bytes@) == Ok::<SmfView, Seq<char>>(
                SmfView { resolution: smf_resolution(smf), tracks: smf_tracks(smf) },
            ),
            Err(text) => smf_read(bytes@) == Err::<SmfView, Seq<char>>(text@),
        },
{
    midly::Smf::parse(bytes).map_err(|error| error.to_string())
}

/// The resolution of a file: reads the public field `header` of
/// [`midly::Smf`].
#[verifier::external_body]
fn resolution_of(smf: &midly::Smf<'_>) -> (resolution: Option<u16>)
    ensures
        resolution == smf_resolution(*smf),
{
    match smf.header.timing {
        Timing::Metrical(ticks) => Some(ticks.as_int()),
        Timing::Timecode(..) => None,
    }
}

/// The number of tracks of a file: the length of the public field `tracks` of
/// [`midly::Smf`].
#[verifier::external_body]
fn track_count(smf: &midly::Smf<'_>) -> (count: usize)
    ensures
        count == smf_tracks(*smf).len(),
{
    smf.tracks.len()
}

/// The events of one track of a file: reads the public field `tracks` of
/// [`midly::Smf`], and takes messages as the bytes that
/// [`midly::live::LiveEvent::write`] gives.
#[verifier::external_body]
fn track_events(smf: &midly::Smf<'_>, track: usize) -> (events: Vec<SmfEvent>)
    requires
        track < smf_tracks(*smf).len(),
    ensures
        event_views(events@) == smf_tracks(*smf)[track as int],
{
    let convert = |event: &TrackEvent| SmfEvent {
        delta: event.delta.as_int(),
        kind: match event.kind {
            Meta(Tempo(us)) => SmfKind::Tempo(us.as_int()),
            Meta(TimeSignature(n, d, c, q)) => SmfKind::TimeSignature(n, d, c, q),
            Meta(TrackName(name)) => SmfKind::TrackName(name.to_vec()),
            Meta(EndOfTrack) => SmfKind::EndOfTrack,
            other => {
                let mut raw = Vec::new();
                other.as_live_event().map(|live| live.write(&mut raw));
                SmfKind::Channel(raw)
            },
        },
    };
    smf.tracks[track].iter().map(convert).collect()
}

/// A file without tracks: calls [`midly::Smf::new`] with a header for parallel
/// tracks and the given ticks per quarter note.
#[verifier::external_body]
fn new_smf<'a>(resolution: u16) -> (smf: midly::Smf<'a>)
    requires
        resolution < 0x8000,
    ensures
        smf_parallel(smf),
        smf_resolution(smf) == Some(resolution),
        smf_tracks(smf) == Seq::<Seq<SmfEventView>>::empty(),
{
    midly::Smf::new(Header::new(Format::Parallel, Timing::Metrical(resolution.into())))
}

/// Puts a track behind the tracks of a file: pushes to the public field
/// `tracks` of [`midly::Smf`]. Messages go through
/// [`midly::live::LiveEvent::parse`], which takes any message with a complete
/// set of data bytes.
#[verifier::external_body]
fn push_track<'a>(smf: &mut midly::Smf<'a>, events: &'a Vec<SmfEvent>)
    requires
        all_writable(event_views(events@)),
    ensures
        smf_tracks(*final(smf)) == smf_tracks(*old(smf)).push(event_views(events@)),
        smf_resolution(*final(smf)) == smf_resolution(*old(smf)),
        smf_parallel(*final(smf)) == smf_parallel(*old(smf)),
{
    let convert = |event: &'a SmfEvent| TrackEvent {
        delta: u28::from(event.delta),
        kind: match &event.kind {
            SmfKind::Tempo(us) => Meta(Tempo((*us).into())),
            SmfKind::TimeSignature(n, d, c, q) => Meta(TimeSignature(*n, *d, *c, *q)),
            SmfKind::TrackName(name) => Meta(TrackName(name)),
            SmfKind::EndOfTrack => Meta(EndOfTrack),
            SmfKind::Channel(raw) => LiveEvent::parse(raw).unwrap().as_track_event(
                &Arena::new(),
            ).to_static(),
        },
    };
    smf.tracks.push(events.iter().map(convert).collect());
}

/// The bytes of a file: calls [`midly::Smf::write_std`] on a vector.
///
/// Claimed of it: the outcome is a function of the ticks per quarter note and the
/// events of a file of parallel tracks whose events can all be written. It fails
/// on more than 65535 tracks. It succeeds on as many or fewer that each stay
/// below four gigabytes. The bytes then have one header, with those ticks as its
/// division, and reading them gives the same file back.
#[verifier::external_body]
fn write_smf(smf: &midly::Smf<'_>) -> (outcome: Result<Vec<u8>, String>)
    requires
        smf_parallel(*smf),
        smf_resolution(*smf) is Some,
        forall|i: int|
            0 <= i < smf_tracks(*smf).len() ==> all_writable(#[trigger] smf_tracks(*smf)[i]),
    ensures
        match outcome {
            Ok(bytes) => {
                &&& smf_written(smf_resolution(*smf)->0, smf_tracks(*smf)) == Ok::<
                    Seq<u8>,
                    Seq<char>,
                >(bytes@)
                &&& smf_tracks(*smf).len() <= 65535
                &&& is_parsable(bytes@)
                &&& smf_read(bytes@) == Ok::<SmfView, Seq<char>>(
                    SmfView { resolution: smf_resolution(*smf), tracks: smf_tracks(*smf) },
                )
            },
            Err(text) => {
                &&& smf_written(smf_resolution(*smf)->0, smf_tracks(*smf)) == Err::<
                    Seq<u8>,
                    Seq<char>,
                >(text@)
                &&& smf_tracks(*smf).len() > 65535 || exists|i: int|
                    0 <= i < smf_tracks(*smf).len() && size_bound(#[trigger] smf_tracks(*smf)[i])
                        > u32::MAX
            },
        },
{
    let mut bytes = Vec::new();
    smf.write_std(&mut bytes).map_err(|error| error.to_string())?;
    Ok(bytes)
}

/// Reads a MIDI file. A frame rate that cannot be negated is read as its
/// neighbour, and refused as that one is.
pub fn read_file(bytes: &[u8]) -> (outcome: Result<SmfFile, String>)
    ensures
        match outcome {
            Ok(file) => smf_read(mended(bytes@)) == Ok::<SmfView, Seq<char>>(file@),
            Err(text) => smf_read(mended(bytes@)) == Err::<SmfView, Seq<char>>(text@),
        },
{
    let copy = mend(bytes);
    let smf = match parse_smf(copy.as_slice()) {
        Ok(smf) => smf,
        Err(text) => return Err(text),
    };
    let count: usize = track_count(&smf);
    let mut tracks: Vec<Vec<SmfEvent>> = Vec::new();
    let mut at: usize = 0;
    while at < count
        invariant
            count == smf_tracks(smf).len(),
            at <= count,
            tracks_view(tracks@) == smf_tracks(smf).take(at as int),
        decreases count - at,
    {
        let events = track_events(&smf, at);
        let ghost before = tracks@;
        tracks.push(events);
        proof {
            assert(tracks_view(tracks@) =~= tracks_view(before).push(event_views(events@)));
            assert(smf_tracks(smf).take(at + 1) =~= smf_tracks(smf).take(at as int).push(
                smf_tracks(smf)[at as int],
            ));
        }
        at += 1;
    }
    assert(smf_tracks(smf).take(at as int) =~= smf_tracks(smf));
    Ok(SmfFile { resolution: resolution_of(&smf), tracks })
}

/// Writes a MIDI file of parallel tracks.
pub fn write_file(resolution: u16, tracks: &Vec<Vec<SmfEvent>>) -> (outcome: Result<
    Vec<u8>,
    String,
>)
    requires
        resolution < 0x8000,
        forall|i: int|
            0 <= i < tracks@.len() ==> all_writable(event_views(#[trigger] tracks@[i]@)),
    ensures
        match outcome {
            Ok(bytes) => {
                &&& smf_written(resolution, tracks_view(tracks@)) == Ok::<
                    Seq<u8>,
                    Seq<char>,
                >(bytes@)
                &&& tracks@.len() <= 65535
                &&& mended(bytes@) == bytes@
                &&& smf_read(bytes@) == Ok::<SmfView, Seq<char>>(
                    SmfView { resolution: Some(resolution), tracks: tracks_view(tracks@) },
                )
            },
            Err(text) => {
                &&& smf_written(resolution, tracks_view(tracks@)) == Err::<
                    Seq<u8>,
                    Seq<char>,
                >(text@)
                &&& tracks@.len() > 65535 || exists|i: int|
                    0 <= i < tracks@.len() && size_bound(event_views(#[trigger] tracks@[i]@))
                        > u32::MAX
            },
        },
{
    let mut smf = new_smf(resolution);
    let mut at: usize = 0;
    while at < tracks.len()
        invariant
            at <= tracks@.len(),
            forall|i: int|
                0 <= i < tracks@.len() ==> all_writable(event_views(#[trigger] tracks@[i]@)),
            smf_parallel(smf),
            smf_resolution(smf) == Some(resolution),
            smf_tracks(smf) == tracks_view(tracks@).take(at as int),
        decreases tracks@.len() - at,
    {
        push_track(&mut smf, &tracks[at]);
        proof {
            let views = tracks_view(tracks@);
            assert(views.take(at + 1) =~= views.take(at as int).push(views[at as int]));
        }
        at += 1;
    }
    assert(smf_tracks(smf) =~= tracks_view(tracks@));
    let outcome = write_smf(&smf);
    proof {
        if outcome is Ok {
            a_parsable_file_stays((outcome->Ok_0)@);
        }
        if outcome is Err && tracks@.len() <= 65535 {
            let i = choose|i: int|
                0 <= i < smf_tracks(smf).len() && size_bound(#[trigger] smf_tracks(smf)[i])
                    > u32::MAX;
            assert(size_bound(event_views(tracks@[i]@)) > u32::MAX);
        }
    }
    outcome
}

/// Mending a file changes nothing but the first byte of a division that starts
/// with 128, which becomes 129. In a file that starts with the header chunk of six
/// bytes, that is the thirteenth byte.
pub proof fn mending_changes_divisions_alone(bytes: Seq<u8>, i: int)
    requires
        0 <= i < bytes.len(),
    ensures
        mended(bytes).len() == bytes.len(),
        bytes[i] != 128 ==> mended(bytes)[i] == bytes[i],
        mended(bytes)[i] == bytes[i] || mended(bytes)[i] == 129,
        bytes.len() >= 14 && bytes.take(8) == seq![77u8, 84, 104, 100, 0, 0, 0, 6] ==> {
            &&& holds_division(bytes, 12)
            &&& bytes[12] == 128 ==> mended(bytes)[12] == 129
        },
{
    if bytes.len() >= 14 && bytes.take(8) == seq![77u8, 84, 104, 100, 0, 0, 0, 6] {
        let head = bytes.take(8);
        assert(bytes[0] == head[0] && bytes[1] == head[1] && bytes[2] == head[2] && bytes[3]
            == head[3]);
        assert(bytes[4] == head[4] && bytes[5] == head[5] && bytes[6] == head[6] && bytes[7]
            == head[7]);
        assert(is_division(bytes, 0, bytes.len() as int, 12));
    }
}

} // verus!
