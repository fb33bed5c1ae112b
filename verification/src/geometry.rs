//! Rows of the grid, and how far a drag moves notes.

use crate::lanes::{lemma_row_start_grows, row_start};
use crate::sequencer::{EditorView, MidiEditor, Note};
use crate::time::{
    is_nearest_line, lemma_nearest_is_close, narrow, nearest_multiple, saturate, snap_nearest,
    snapping_goes_to_the_nearest_line, TICKS_PER_QUARTER,
};
use vstd::prelude::*;

verus! {

/// The rows at which the tracks of a sequence start, as numbers of the machine.
pub open spec fn offsets_of(editor: EditorView) -> Seq<usize> {
    Seq::new(editor.tracks.len(), |t: int| row_start(editor.tracks, t) as usize)
}

/// Whether `offsets` are the rows at which the tracks of a sequence start.
pub open spec fn are_row_starts(offsets: Seq<usize>, editor: EditorView) -> bool {
    &&& offsets.len() == editor.tracks.len()
    &&& forall|t: int|
        0 <= t < offsets.len() ==> #[trigger] offsets[t] == row_start(editor.tracks, t)
}

/// The row in which a note is shown.
pub open spec fn row_of(offsets: Seq<usize>, note: Note) -> int {
    (if note.track < offsets.len() {
        offsets[note.track as int] as int
    } else {
        0
    }) + note.lane
}

/// The last of the first `count` tracks that starts at a row or above it, and
/// the lane that the row is there; a row behind the lanes is the last lane.
pub open spec fn cell_among(
    offsets: Seq<usize>,
    editor: EditorView,
    row: int,
    count: int,
) -> (usize, usize)
    decreases count,
{
    if count <= 0 {
        (0usize, 0usize)
    } else if row >= offsets[count - 1] {
        let lane = row - offsets[count - 1];
        let last = editor.lane_count(count - 1) - 1;
        (
            (count - 1) as usize,
            (if lane > last {
                last
            } else {
                lane
            }) as usize,
        )
    } else {
        cell_among(offsets, editor, row, count - 1)
    }
}

/// The track and the lane of a row.
pub open spec fn cell_of_row(offsets: Seq<usize>, editor: EditorView, row: int) -> (usize, usize) {
    cell_among(offsets, editor, row, offsets.len() as int)
}

/// The rows at which the tracks start.
pub fn track_row_offsets(editor: &MidiEditor) -> (offsets: Vec<usize>)
    requires
        row_start(editor@.tracks, editor@.tracks.len() as int) <= usize::MAX,
    ensures
        are_row_starts(offsets@, editor@),
        offsets@ == offsets_of(editor@),
{
    let mut offsets: Vec<usize> = Vec::new();
    let mut row: usize = 0;
    let mut at: usize = 0;
    while at < editor.tracks.len()
        invariant
            at <= editor@.tracks.len(),
            row_start(editor@.tracks, editor@.tracks.len() as int) <= usize::MAX,
            row == row_start(editor@.tracks, at as int),
            offsets@.len() == at,
            forall|t: int| 0 <= t < at ==> #[trigger] offsets@[t] == row_start(editor@.tracks, t),
        decreases editor@.tracks.len() - at,
    {
        offsets.push(row);
        proof {
            lemma_row_start_grows(editor@.tracks, at + 1, editor@.tracks.len() as int);
        }
        row += editor.lanes(at);
        at += 1;
    }
    assert(offsets@ =~= offsets_of(editor@));
    offsets
}

/// The row in which a note is shown.
pub fn note_row(offsets: &Vec<usize>, note: &Note) -> (row: usize)
    requires
        row_of(offsets@, *note) <= usize::MAX,
    ensures
        row == row_of(offsets@, *note),
{
    if note.track < offsets.len() {
        offsets[note.track] + note.lane
    } else {
        note.lane
    }
}

/// The track and the lane of a row.
pub fn row_to_track_lane(offsets: &Vec<usize>, editor: &MidiEditor, row: usize) -> (cell: (
    usize,
    usize,
))
    ensures
        cell == cell_of_row(offsets@, editor@, row as int),
{
    let mut count: usize = offsets.len();
    while count > 0
        invariant
            count <= offsets@.len(),
            cell_of_row(offsets@, editor@, row as int) == cell_among(
                offsets@,
                editor@,
                row as int,
                count as int,
            ),
        decreases count,
    {
        let track: usize = count - 1;
        if row >= offsets[track] {
            let lane: usize = row - offsets[track];
            let last: usize = editor.lanes(track) - 1;
            return (
                track,
                if lane > last {
                    last
                } else {
                    lane
                },
            );
        }
        count -= 1;
    }
    (0, 0)
}

/// Whether a note that moves by `d_row` rows lands on a lane of its kind: a
/// block stays on its own lane, and a note goes to no controller lane.
pub open spec fn lands_well(
    note: Note,
    offsets: Seq<usize>,
    editor: EditorView,
    d_row: int,
) -> bool {
    let row = row_of(offsets, note) + d_row;
    let (track, lane) = cell_of_row(
        offsets,
        editor,
        if row < 0 {
            0
        } else {
            row
        },
    );
    match editor.cc_at(note.track as int, note.lane as int) {
        Some(_) => track == note.track && lane == note.lane,
        None => editor.cc_at(track as int, lane as int) is None,
    }
}

/// Whether all notes that move by `d_row` rows land on lanes of their kind.
pub open spec fn all_land_well(
    targets: Seq<(usize, Note)>,
    offsets: Seq<usize>,
    editor: EditorView,
    d_row: int,
) -> bool {
    forall|i: int|
        0 <= i < targets.len() ==> lands_well((#[trigger] targets[i]).1, offsets, editor, d_row)
}

/// Whether the rows of all notes are among the first `rows`.
pub open spec fn rows_fit(targets: Seq<(usize, Note)>, offsets: Seq<usize>, rows: int) -> bool {
    forall|i: int|
        0 <= i < targets.len() ==> row_of(offsets, (#[trigger] targets[i]).1) < rows
}

/// Whether all notes land on lanes of their kind.
pub fn keeps_lane_kind(
    targets: &Vec<(usize, Note)>,
    offsets: &Vec<usize>,
    editor: &MidiEditor,
    d_row: i32,
) -> (yes: bool)
    requires
        rows_fit(targets@, offsets@, 0x8000_0000),
    ensures
        yes == all_land_well(targets@, offsets@, editor@, d_row as int),
{
    let mut at: usize = 0;
    while at < targets.len()
        invariant
            at <= targets@.len(),
            rows_fit(targets@, offsets@, 0x8000_0000),
            forall|i: int|
                0 <= i < at ==> lands_well(
                    (#[trigger] targets@[i]).1,
                    offsets@,
                    editor@,
                    d_row as int,
                ),
        decreases targets@.len() - at,
    {
        let note = targets[at].1;
        assert(row_of(offsets@, targets@[at as int].1) < 0x8000_0000);
        let moved: i64 = note_row(offsets, &note) as i64 + d_row as i64;
        let row: usize = if moved < 0 {
            0
        } else {
            moved as usize
        };
        let (track, lane): (usize, usize) = row_to_track_lane(offsets, editor, row);
        let well: bool = match editor.lane_cc(note.track, note.lane) {
            Some(_) => track == note.track && lane == note.lane,
            None => editor.lane_cc(track, lane).is_none(),
        };
        if !well {
            assert(!lands_well(targets@[at as int].1, offsets@, editor@, d_row as int));
            return false;
        }
        at += 1;
    }
    true
}

/// The smallest row of the notes.
pub open spec fn top_row(targets: Seq<(usize, Note)>, offsets: Seq<usize>) -> int
    decreases targets.len(),
{
    if targets.len() <= 1 {
        row_of(offsets, targets[0].1)
    } else {
        let before = top_row(targets.drop_last(), offsets);
        let here = row_of(offsets, targets.last().1);
        if here < before {
            here
        } else {
            before
        }
    }
}

/// The largest row of the notes.
pub open spec fn bottom_row(targets: Seq<(usize, Note)>, offsets: Seq<usize>) -> int
    decreases targets.len(),
{
    if targets.len() <= 1 {
        row_of(offsets, targets[0].1)
    } else {
        let before = bottom_row(targets.drop_last(), offsets);
        let here = row_of(offsets, targets.last().1);
        if here > before {
            here
        } else {
            before
        }
    }
}

/// The earliest start of the notes.
pub open spec fn first_start(targets: Seq<(usize, Note)>) -> i64
    decreases targets.len(),
{
    if targets.len() == 0 {
        i64::MAX
    } else {
        let before = first_start(targets.drop_last());
        if targets.last().1.start_tick < before {
            targets.last().1.start_tick
        } else {
            before
        }
    }
}

/// The shortest length of the notes.
pub open spec fn shortest(targets: Seq<(usize, Note)>) -> i64
    decreases targets.len(),
{
    if targets.len() == 0 {
        i64::MAX
    } else {
        let before = shortest(targets.drop_last());
        if targets.last().1.duration < before {
            targets.last().1.duration
        } else {
            before
        }
    }
}

/// A number of rows held to `low` to `high`.
pub open spec fn held_rows(value: int, low: int, high: int) -> int {
    if value < low {
        low
    } else if value > high {
        high
    } else {
        value
    }
}

/// The number of rows nearest to `d_row`, on the way to 0, by which all notes
/// land on lanes of their kind.
pub open spec fn stepped_back(
    targets: Seq<(usize, Note)>,
    offsets: Seq<usize>,
    editor: EditorView,
    d_row: int,
) -> int
    decreases
        if d_row < 0 {
            -d_row
        } else {
            d_row
        },
{
    if d_row == 0 || all_land_well(targets, offsets, editor, d_row) {
        d_row
    } else if d_row > 0 {
        stepped_back(targets, offsets, editor, d_row - 1)
    } else {
        stepped_back(targets, offsets, editor, d_row + 1)
    }
}

/// How far a note's start moves such that the note lands on the grid.
pub open spec fn snapped_by(from: int, by: int, snap: int) -> int {
    nearest_multiple(from + by, snap) - from
}

/// The larger of two numbers.
pub open spec fn larger(a: int, b: int) -> int {
    if a < b {
        b
    } else {
        a
    }
}

/// The smaller of two numbers.
pub open spec fn smaller(a: int, b: int) -> int {
    if b < a {
        b
    } else {
        a
    }
}

/// How far notes move, in time and in rows. The grabbed note, the first one,
/// lands on the grid, and all move by the same amount. None starts before 0 or
/// leaves the rows, and all land on lanes of their kind.
pub open spec fn movement(
    targets: Seq<(usize, Note)>,
    offsets: Seq<usize>,
    editor: EditorView,
    dx_raw: int,
    d_row_raw: int,
    snap: int,
    rows: int,
) -> (i64, int) {
    if targets.len() == 0 {
        (0i64, 0)
    } else {
        let d_row = held_rows(
            d_row_raw,
            -top_row(targets, offsets),
            rows - 1 - bottom_row(targets, offsets),
        );
        (
            saturate(
                larger(
                    snapped_by(targets[0].1.start_tick as int, dx_raw, snap),
                    -first_start(targets),
                ),
            ),
            stepped_back(targets, offsets, editor, d_row),
        )
    }
}

/// The smallest and the largest row of the notes.
fn find_rows(targets: &Vec<(usize, Note)>, offsets: &Vec<usize>) -> (rows: (i64, i64))
    requires
        targets@.len() > 0,
        rows_fit(targets@, offsets@, 0x8000_0000),
    ensures
        rows.0 == top_row(targets@, offsets@),
        rows.1 == bottom_row(targets@, offsets@),
        0 <= rows.0 <= rows.1 < 0x8000_0000,
{
    assert(row_of(offsets@, targets@[0].1) < 0x8000_0000);
    let first: i64 = note_row(offsets, &targets[0].1) as i64;
    let mut top: i64 = first;
    let mut bottom: i64 = first;
    let mut at: usize = 1;
    while at < targets.len()
        invariant
            1 <= at <= targets@.len(),
            rows_fit(targets@, offsets@, 0x8000_0000),
            top == top_row(targets@.take(at as int), offsets@),
            bottom == bottom_row(targets@.take(at as int), offsets@),
            0 <= top <= bottom < 0x8000_0000,
        decreases targets@.len() - at,
    {
        assert(targets@.take(at + 1).drop_last() =~= targets@.take(at as int));
        assert(row_of(offsets@, targets@[at as int].1) < 0x8000_0000);
        let here: i64 = note_row(offsets, &targets[at].1) as i64;
        if here < top {
            top = here;
        }
        if here > bottom {
            bottom = here;
        }
        at += 1;
    }
    assert(targets@.take(at as int) =~= targets@);
    (top, bottom)
}

/// The earliest start of the notes.
fn find_first_start(targets: &Vec<(usize, Note)>) -> (start: i64)
    ensures
        start == first_start(targets@),
{
    let mut start: i64 = i64::MAX;
    let mut at: usize = 0;
    while at < targets.len()
        invariant
            at <= targets@.len(),
            start == first_start(targets@.take(at as int)),
        decreases targets@.len() - at,
    {
        assert(targets@.take(at + 1).drop_last() =~= targets@.take(at as int));
        let here: i64 = targets[at].1.start_tick;
        if here < start {
            start = here;
        }
        at += 1;
    }
    assert(targets@.take(at as int) =~= targets@);
    start
}

/// The shortest length of the notes.
fn find_shortest(targets: &Vec<(usize, Note)>) -> (length: i64)
    ensures
        length == shortest(targets@),
{
    let mut length: i64 = i64::MAX;
    let mut at: usize = 0;
    while at < targets.len()
        invariant
            at <= targets@.len(),
            length == shortest(targets@.take(at as int)),
        decreases targets@.len() - at,
    {
        assert(targets@.take(at + 1).drop_last() =~= targets@.take(at as int));
        let here: i64 = targets[at].1.duration;
        if here < length {
            length = here;
        }
        at += 1;
    }
    assert(targets@.take(at as int) =~= targets@);
    length
}

/// How far a start moves such that it lands on the grid.
fn snap_by(from: i64, by: i64, snap: i64) -> (result: i128)
    requires
        snap > 0,
    ensures
        result == snapped_by(from as int, by as int, snap as int),
        -0x2_0000_0000_0000_0000 <= result <= 0x2_0000_0000_0000_0000,
{
    let aim: i128 = from as i128 + by as i128;
    proof {
        lemma_nearest_is_close(aim as int, snap as int);
    }
    snap_nearest(aim, snap) - from as i128
}

/// How far notes move, in time and in rows.
pub fn move_delta(
    targets: &Vec<(usize, Note)>,
    offsets: &Vec<usize>,
    editor: &MidiEditor,
    dx_raw: i64,
    d_row_raw: i32,
    snap: i64,
    rows: usize,
) -> (delta: (i64, i32))
    requires
        snap > 0,
        rows <= i32::MAX,
        rows_fit(targets@, offsets@, rows as int),
    ensures
        (delta.0, delta.1 as int) == movement(
            targets@,
            offsets@,
            editor@,
            dx_raw as int,
            d_row_raw as int,
            snap as int,
            rows as int,
        ),
{
    if targets.len() == 0 {
        return (0, 0);
    }
    proof {
        assert(rows_fit(targets@, offsets@, 0x8000_0000)) by {
            assert forall|i: int| 0 <= i < targets@.len() implies row_of(
                offsets@,
                (#[trigger] targets@[i]).1,
            ) < 0x8000_0000 by {
                assert(row_of(offsets@, targets@[i].1) < rows);
            }
        }
        lemma_bottom_row(targets@, offsets@, rows as int);
    }
    let wanted: i128 = snap_by(targets[0].1.start_tick, dx_raw, snap);
    let floor: i128 = -(find_first_start(targets) as i128);
    let dx: i64 = narrow(
        if wanted < floor {
            floor
        } else {
            wanted
        },
    );
    let (top, bottom): (i64, i64) = find_rows(targets, offsets);
    let low: i64 = -top;
    let high: i64 = rows as i64 - 1 - bottom;
    let held: i64 = if (d_row_raw as i64) < low {
        low
    } else if d_row_raw as i64 > high {
        high
    } else {
        d_row_raw as i64
    };
    let mut d_row: i32 = held as i32;
    let ghost start = d_row as int;
    while d_row != 0 && !keeps_lane_kind(targets, offsets, editor, d_row)
        invariant
            rows_fit(targets@, offsets@, 0x8000_0000),
            stepped_back(targets@, offsets@, editor@, start) == stepped_back(
                targets@,
                offsets@,
                editor@,
                d_row as int,
            ),
        decreases
            if d_row < 0 {
                -(d_row as int)
            } else {
                d_row as int
            },
    {
        if d_row > 0 {
            d_row -= 1;
        } else {
            d_row += 1;
        }
    }
    (dx, d_row)
}

/// The largest row is among the rows.
proof fn lemma_bottom_row(targets: Seq<(usize, Note)>, offsets: Seq<usize>, rows: int)
    requires
        targets.len() > 0,
        rows_fit(targets, offsets, rows),
    ensures
        0 <= top_row(targets, offsets) <= bottom_row(targets, offsets) < rows,
    decreases targets.len(),
{
    let last = targets[targets.len() - 1];
    assert(row_of(offsets, last.1) < rows);
    if targets.len() > 1 {
        let shorter = targets.drop_last();
        assert forall|i: int| 0 <= i < shorter.len() implies row_of(
            offsets,
            (#[trigger] shorter[i]).1,
        ) < rows by {
            assert(row_of(offsets, targets[i].1) < rows);
        }
        lemma_bottom_row(shorter, offsets, rows);
    } else {
        assert(row_of(offsets, targets[0].1) < rows);
    }
}

/// Where the playhead goes for a position: to the nearest beat, or to the
/// start of the selected note where that is nearer. A free position is taken
/// as it is.
pub open spec fn sought(raw: int, beat: int, selected_start: Option<i64>, free: bool) -> i64 {
    let inside = larger(raw, 0);
    let width = if beat > 0 {
        beat
    } else {
        TICKS_PER_QUARTER as int
    };
    let snapped = larger(nearest_multiple(inside, width), 0);
    if free {
        saturate(inside)
    } else {
        match selected_start {
            Some(start) if distance(inside, start as int) < distance(inside, snapped) => start,
            _ => saturate(snapped),
        }
    }
}

/// The distance of two numbers.
pub open spec fn distance(a: int, b: int) -> int {
    if a < b {
        b - a
    } else {
        a - b
    }
}

/// Where the playhead goes for a position.
pub fn seek_target(raw: i64, beat: i64, selected_start: Option<i64>, free: bool) -> (target: i64)
    ensures
        target == sought(raw as int, beat as int, selected_start, free),
{
    let inside: i64 = if raw < 0 {
        0
    } else {
        raw
    };
    if free {
        return inside;
    }
    let width: i64 = if beat > 0 {
        beat
    } else {
        TICKS_PER_QUARTER
    };
    proof {
        lemma_nearest_is_close(inside as int, width as int);
        assert(nearest_multiple(inside as int, width as int) >= 0) by (nonlinear_arith)
            requires
                inside >= 0,
                width > 0,
        ;
    }
    let snapped: i128 = snap_nearest(inside as i128, width);
    let from_grid: i128 = if (inside as i128) < snapped {
        snapped - inside as i128
    } else {
        inside as i128 - snapped
    };
    match selected_start {
        Some(start) => {
            let from_note: i128 = if inside < start {
                start as i128 - inside as i128
            } else {
                inside as i128 - start as i128
            };
            if from_note < from_grid {
                start
            } else {
                narrow(snapped)
            }
        },
        None => narrow(snapped),
    }
}

/// How far the grabbed end of notes moves. The grabbed note's end lands on the
/// grid, and all move by the same amount. No note gets shorter than the grid,
/// and none starts before 0.
pub open spec fn resizing(
    targets: Seq<(usize, Note)>,
    dx_raw: int,
    snap: int,
    from_left: bool,
) -> i64 {
    if targets.len() == 0 {
        0
    } else if from_left {
        saturate(
            smaller(
                larger(
                    snapped_by(targets[0].1.start_tick as int, dx_raw, snap),
                    -first_start(targets),
                ),
                shortest(targets) - snap,
            ),
        )
    } else {
        saturate(
            larger(
                snapped_by(targets[0].1.end() as int, dx_raw, snap),
                snap - shortest(targets),
            ),
        )
    }
}

/// How far the grabbed end of notes moves.
pub fn resize_delta(
    targets: &Vec<(usize, Note)>,
    dx_raw: i64,
    snap: i64,
    from_left: bool,
) -> (delta: i64)
    requires
        snap > 0,
    ensures
        delta == resizing(targets@, dx_raw as int, snap as int, from_left),
{
    if targets.len() == 0 {
        return 0;
    }
    let length: i128 = find_shortest(targets) as i128;
    if from_left {
        let wanted: i128 = snap_by(targets[0].1.start_tick, dx_raw, snap);
        let floor: i128 = -(find_first_start(targets) as i128);
        let raised: i128 = if wanted < floor {
            floor
        } else {
            wanted
        };
        let ceiling: i128 = length - snap as i128;
        narrow(
            if ceiling < raised {
                ceiling
            } else {
                raised
            },
        )
    } else {
        let wanted: i128 = snap_by(targets[0].1.end_tick(), dx_raw, snap);
        let floor: i128 = snap as i128 - length;
        narrow(
            if wanted < floor {
                floor
            } else {
                wanted
            },
        )
    }
}

/// The cell of a row is found again among the first `count` tracks.
proof fn lemma_cell_among(
    offsets: Seq<usize>,
    editor: EditorView,
    track: int,
    lane: int,
    count: int,
)
    requires
        are_row_starts(offsets, editor),
        0 <= track < count <= editor.tracks.len(),
        0 <= lane < editor.lane_count(track),
    ensures
        cell_among(offsets, editor, offsets[track] + lane, count) == (track as usize, lane as usize),
    decreases count,
{
    if track < count - 1 {
        lemma_row_start_grows(editor.tracks, track + 1, count - 1);
        lemma_cell_among(offsets, editor, track, lane, count - 1);
    }
}

/// The row of a lane leads back to the lane.
pub proof fn the_row_of_a_lane_leads_back(offsets: Seq<usize>, editor: EditorView, note: Note)
    requires
        are_row_starts(offsets, editor),
        note.track < editor.tracks.len(),
        note.lane < editor.lane_count(note.track as int),
    ensures
        cell_of_row(offsets, editor, row_of(offsets, note)) == (note.track, note.lane),
{
    lemma_cell_among(
        offsets,
        editor,
        note.track as int,
        note.lane as int,
        editor.tracks.len() as int,
    );
}

proof fn lemma_row_among(offsets: Seq<usize>, editor: EditorView, row: int, count: int)
    requires
        are_row_starts(offsets, editor),
        0 < count <= editor.tracks.len() <= usize::MAX,
        0 <= row < row_start(editor.tracks, count),
    ensures
        ({
            let (track, lane) = cell_among(offsets, editor, row, count);
            &&& track < count
            &&& lane < editor.lane_count(track as int)
            &&& offsets[track as int] + lane == row
        }),
    decreases count,
{
    if row < offsets[count - 1] {
        assert(count > 1);
        lemma_row_among(offsets, editor, row, count - 1);
    }
}

/// The lane of a row is one of the sequence's lanes, and is shown in that row.
pub proof fn the_lane_of_a_row_leads_back(offsets: Seq<usize>, editor: EditorView, row: int)
    requires
        are_row_starts(offsets, editor),
        editor.tracks.len() <= usize::MAX,
        0 <= row < row_start(editor.tracks, editor.tracks.len() as int),
    ensures
        ({
            let (track, lane) = cell_of_row(offsets, editor, row);
            &&& track < editor.tracks.len()
            &&& lane < editor.lane_count(track as int)
            &&& offsets[track as int] + lane == row
        }),
{
    lemma_row_among(offsets, editor, row, editor.tracks.len() as int);
}

proof fn lemma_first_start(targets: Seq<(usize, Note)>, i: int)
    requires
        0 <= i < targets.len(),
    ensures
        first_start(targets) <= targets[i].1.start_tick,
        shortest(targets) <= targets[i].1.duration,
    decreases targets.len(),
{
    if i < targets.len() - 1 {
        lemma_first_start(targets.drop_last(), i);
    }
}

proof fn lemma_rows_between(targets: Seq<(usize, Note)>, offsets: Seq<usize>, i: int)
    requires
        0 <= i < targets.len(),
    ensures
        top_row(targets, offsets) <= row_of(offsets, targets[i].1) <= bottom_row(targets, offsets),
    decreases targets.len(),
{
    if targets.len() > 1 && i < targets.len() - 1 {
        lemma_rows_between(targets.drop_last(), offsets, i);
    } else if targets.len() > 1 {
        lemma_rows_between(targets.drop_last(), offsets, 0);
    }
}

proof fn lemma_stepped_back(
    targets: Seq<(usize, Note)>,
    offsets: Seq<usize>,
    editor: EditorView,
    d_row: int,
)
    ensures
        ({
            let stepped = stepped_back(targets, offsets, editor, d_row);
            &&& 0 <= d_row ==> 0 <= stepped <= d_row
            &&& d_row <= 0 ==> d_row <= stepped <= 0
            &&& stepped == 0 || all_land_well(targets, offsets, editor, stepped)
            &&& forall|d: int|
                (0 <= stepped < d <= d_row || d_row <= d < stepped <= 0) ==> !#[trigger]
                all_land_well(targets, offsets, editor, d)
        }),
    decreases
        if d_row < 0 {
            -d_row
        } else {
            d_row
        },
{
    if d_row == 0 || all_land_well(targets, offsets, editor, d_row) {
    } else if d_row > 0 {
        lemma_stepped_back(targets, offsets, editor, d_row - 1);
    } else {
        lemma_stepped_back(targets, offsets, editor, d_row + 1);
    }
}

/// A move leaves no note before the start of the sequence or outside of the
/// rows.
pub proof fn a_move_stays_inside(
    targets: Seq<(usize, Note)>,
    offsets: Seq<usize>,
    editor: EditorView,
    dx_raw: int,
    d_row_raw: int,
    snap: int,
    rows: int,
    i: int,
)
    requires
        first_start(targets) > i64::MIN,
        rows_fit(targets, offsets, rows),
        0 <= i < targets.len(),
    ensures
        ({
            let (dx, d_row) = movement(targets, offsets, editor, dx_raw, d_row_raw, snap, rows);
            &&& targets[i].1.start_tick + dx >= 0
            &&& 0 <= row_of(offsets, targets[i].1) + d_row < rows
        }),
{
    lemma_first_start(targets, i);
    lemma_rows_between(targets, offsets, i);
    lemma_bottom_row(targets, offsets, rows);
    let d_row = held_rows(
        d_row_raw,
        -top_row(targets, offsets),
        rows - 1 - bottom_row(targets, offsets),
    );
    lemma_stepped_back(targets, offsets, editor, d_row);
}

/// A move takes a controller's blocks to no other lane and notes to no
/// controller lane, and goes as far as it can without doing so.
pub proof fn a_move_keeps_lane_kinds(
    targets: Seq<(usize, Note)>,
    offsets: Seq<usize>,
    editor: EditorView,
    dx_raw: int,
    d_row_raw: int,
    snap: int,
    rows: int,
)
    requires
        are_row_starts(offsets, editor),
        forall|i: int|
            0 <= i < targets.len() ==> (#[trigger] targets[i]).1.track < editor.tracks.len()
                && targets[i].1.lane < editor.lane_count(targets[i].1.track as int),
        targets.len() > 0,
    ensures
        ({
            let (dx, d_row) = movement(targets, offsets, editor, dx_raw, d_row_raw, snap, rows);
            let held = held_rows(
                d_row_raw,
                -top_row(targets, offsets),
                rows - 1 - bottom_row(targets, offsets),
            );
            &&& all_land_well(targets, offsets, editor, d_row)
            &&& forall|d: int|
                (0 <= d_row < d <= held || held <= d < d_row <= 0) ==> !#[trigger] all_land_well(
                    targets,
                    offsets,
                    editor,
                    d,
                )
        }),
{
    let held = held_rows(
        d_row_raw,
        -top_row(targets, offsets),
        rows - 1 - bottom_row(targets, offsets),
    );
    lemma_stepped_back(targets, offsets, editor, held);
    assert(all_land_well(targets, offsets, editor, 0)) by {
        assert forall|i: int| 0 <= i < targets.len() implies lands_well(
            (#[trigger] targets[i]).1,
            offsets,
            editor,
            0,
        ) by {
            the_row_of_a_lane_leads_back(offsets, editor, targets[i].1);
        }
    }
}

/// The grabbed note lands on the grid, unless a note would start before 0.
pub proof fn the_grabbed_note_lands_on_the_grid(
    targets: Seq<(usize, Note)>,
    offsets: Seq<usize>,
    editor: EditorView,
    dx_raw: int,
    d_row_raw: int,
    snap: int,
    rows: int,
)
    requires
        targets.len() > 0,
        snap > 0,
        i64::MIN <= snapped_by(targets[0].1.start_tick as int, dx_raw, snap) <= i64::MAX,
        snapped_by(targets[0].1.start_tick as int, dx_raw, snap) >= -first_start(targets),
    ensures
        (targets[0].1.start_tick + movement(
            targets,
            offsets,
            editor,
            dx_raw,
            d_row_raw,
            snap,
            rows,
        ).0) % snap == 0,
{
    vstd::arithmetic::div_mod::lemma_mod_multiples_basic(
        crate::time::rounded_quotient(targets[0].1.start_tick + dx_raw, snap),
        snap,
    );
}

/// A resize leaves every note at least as long as the grid is wide.
pub proof fn a_resize_keeps_the_shortest_length(
    targets: Seq<(usize, Note)>,
    dx_raw: int,
    snap: int,
    i: int,
)
    requires
        0 <= i < targets.len(),
        shortest(targets) >= 0,
        0 < snap <= i64::MAX,
    ensures
        targets[i].1.duration - resizing(targets, dx_raw, snap, true) >= snap,
        targets[i].1.duration + resizing(targets, dx_raw, snap, false) >= snap,
{
    lemma_first_start(targets, i);
}

/// A resize at the left moves no start before 0. Where a note is shorter than
/// the grid is wide, there must be room in front of the first note to make it
/// that long.
pub proof fn a_resize_stays_inside(
    targets: Seq<(usize, Note)>,
    dx_raw: int,
    snap: int,
    i: int,
)
    requires
        0 <= i < targets.len(),
        first_start(targets) >= 0,
        snap - shortest(targets) <= first_start(targets),
    ensures
        targets[i].1.start_tick + resizing(targets, dx_raw, snap, true) >= 0,
{
    lemma_first_start(targets, i);
}

/// Every beat, and with it every bar line, can be reached with the playhead.
pub proof fn every_beat_can_be_sought(count: int, beat: int)
    requires
        beat > 0,
        0 <= count * beat <= i64::MAX,
    ensures
        sought(count * beat, beat, None, false) == count * beat,
{
    crate::time::lemma_nearest_of_multiple(count, beat);
}

/// The playhead never goes before the start of the sequence.
pub proof fn the_playhead_stays_inside(
    raw: int,
    beat: int,
    selected_start: Option<i64>,
    free: bool,
)
    requires
        selected_start is Some ==> selected_start->0 >= 0,
    ensures
        sought(raw, beat, selected_start, free) >= 0,
{
}

proof fn lemma_shortest_is_there(targets: Seq<(usize, Note)>) -> (at: int)
    requires
        targets.len() > 0,
    ensures
        0 <= at < targets.len(),
        targets[at].1.duration == shortest(targets),
    decreases targets.len(),
{
    if targets.len() == 1 {
        assert(shortest(targets.drop_last()) == i64::MAX);
        0
    } else if targets.last().1.duration < shortest(targets.drop_last()) {
        targets.len() - 1
    } else {
        lemma_shortest_is_there(targets.drop_last())
    }
}

proof fn lemma_first_is_there(targets: Seq<(usize, Note)>) -> (at: int)
    requires
        targets.len() > 0,
    ensures
        0 <= at < targets.len(),
        targets[at].1.start_tick == first_start(targets),
    decreases targets.len(),
{
    if targets.len() == 1 {
        assert(first_start(targets.drop_last()) == i64::MAX);
        0
    } else if targets.last().1.start_tick < first_start(targets.drop_last()) {
        targets.len() - 1
    } else {
        lemma_first_is_there(targets.drop_last())
    }
}

/// Dragging the right end of notes takes the grabbed note's end to the line of
/// the grid that is nearest to where it was dragged, to the left as to the
/// right, as long as every note stays at least one grid step long. Where one
/// would not, some note becomes exactly that long and none becomes shorter.
pub proof fn a_dragged_end_lands_on_the_nearest_line(
    targets: Seq<(usize, Note)>,
    dx_raw: int,
    snap: int,
    line: int,
)
    requires
        targets.len() > 0,
        0 < snap <= i64::MAX,
        forall|i: int| 0 <= i < targets.len() ==> (#[trigger] targets[i]).1.duration >= 0,
        i64::MIN <= targets[0].1.start_tick + targets[0].1.duration <= i64::MAX,
        is_nearest_line(
            line,
            targets[0].1.start_tick + targets[0].1.duration + dx_raw,
            snap,
        ),
        i64::MIN <= line - (targets[0].1.start_tick + targets[0].1.duration) <= i64::MAX,
    ensures
        ({
            let end = targets[0].1.start_tick + targets[0].1.duration;
            let delta = resizing(targets, dx_raw, snap, false);
            let stays = forall|i: int|
                0 <= i < targets.len() ==> (#[trigger] targets[i]).1.duration + (line - end)
                    >= snap;
            &&& stays ==> {
                &&& end + delta == line
                &&& (end + delta) % snap == 0
                &&& 2 * (end + delta - (end + dx_raw)) <= snap
                &&& 2 * (end + dx_raw - (end + delta)) <= snap
            }
            &&& !stays ==> {
                &&& exists|j: int|
                    0 <= j < targets.len() && (#[trigger] targets[j]).1.duration + delta == snap
                &&& forall|i: int|
                    0 <= i < targets.len() ==> (#[trigger] targets[i]).1.duration + delta >= snap
            }
        }),
{
    let end = targets[0].1.start_tick + targets[0].1.duration;
    snapping_goes_to_the_nearest_line(line, end + dx_raw, snap);
    let j = lemma_shortest_is_there(targets);
    let delta = resizing(targets, dx_raw, snap, false);
    let stays = forall|i: int|
        0 <= i < targets.len() ==> (#[trigger] targets[i]).1.duration + (line - end) >= snap;
    if stays {
        assert(targets[j].1.duration + (line - end) >= snap);
    } else {
        let i = choose|i: int|
            0 <= i < targets.len() && (#[trigger] targets[i]).1.duration + (line - end) < snap;
        lemma_first_start(targets, i);
        assert(targets[j].1.duration + delta == snap);
        assert forall|i: int| 0 <= i < targets.len() implies (#[trigger] targets[i]).1.duration
            + delta >= snap by {
            lemma_first_start(targets, i);
        }
    }
}

/// Dragging the left end of notes takes the grabbed note's start to the line of
/// the grid that is nearest to where it was dragged, as long as no note starts
/// before 0 and every note stays at least one grid step long. Where a note would
/// start before 0, the first one starts at 0. Where a note would become too
/// short, some note becomes exactly one grid step long and none shorter.
pub proof fn a_dragged_start_lands_on_the_nearest_line(
    targets: Seq<(usize, Note)>,
    dx_raw: int,
    snap: int,
    line: int,
)
    requires
        targets.len() > 0,
        0 < snap <= i64::MAX,
        forall|i: int|
            0 <= i < targets.len() ==> (#[trigger] targets[i]).1.duration >= 0
                && targets[i].1.start_tick >= 0,
        is_nearest_line(line, targets[0].1.start_tick + dx_raw, snap),
        i64::MIN <= line - targets[0].1.start_tick <= i64::MAX,
    ensures
        ({
            let by = line - targets[0].1.start_tick;
            let delta = resizing(targets, dx_raw, snap, true);
            let stays = forall|i: int|
                0 <= i < targets.len() ==> (#[trigger] targets[i]).1.start_tick + by >= 0;
            let long = forall|i: int|
                0 <= i < targets.len() ==> (#[trigger] targets[i]).1.duration - by >= snap;
            &&& stays && long ==> targets[0].1.start_tick + delta == line
            &&& !long ==> {
                &&& exists|j: int|
                    0 <= j < targets.len() && ((#[trigger] targets[j]).1.duration - delta == snap)
                &&& forall|i: int|
                    0 <= i < targets.len() ==> (#[trigger] targets[i]).1.duration - delta >= snap
            }
            &&& !stays ==> exists|j: int|
                0 <= j < targets.len() && ((#[trigger] targets[j]).1.start_tick + delta == 0
                    || targets[j].1.duration - delta == snap)
        }),
{
    let by = line - targets[0].1.start_tick;
    snapping_goes_to_the_nearest_line(line, targets[0].1.start_tick + dx_raw, snap);
    let j = lemma_shortest_is_there(targets);
    let k = lemma_first_is_there(targets);
    let delta = resizing(targets, dx_raw, snap, true);
    let stays = forall|i: int|
        0 <= i < targets.len() ==> (#[trigger] targets[i]).1.start_tick + by >= 0;
    let long = forall|i: int|
        0 <= i < targets.len() ==> (#[trigger] targets[i]).1.duration - by >= snap;
    assert(targets[j].1.duration >= 0 && targets[k].1.start_tick >= 0);
    if stays {
        assert(targets[k].1.start_tick + by >= 0);
    } else {
        let i = choose|i: int|
            0 <= i < targets.len() && (#[trigger] targets[i]).1.start_tick + by < 0;
        lemma_first_start(targets, i);
        assert(targets[k].1.start_tick + delta == 0 || targets[j].1.duration - delta == snap);
    }
    if long {
        assert(targets[j].1.duration - by >= snap);
    } else {
        let i = choose|i: int|
            0 <= i < targets.len() && (#[trigger] targets[i]).1.duration - by < snap;
        lemma_first_start(targets, i);
        assert(targets[j].1.duration - delta == snap);
        assert forall|i: int| 0 <= i < targets.len() implies (#[trigger] targets[i]).1.duration
            - delta >= snap by {
            lemma_first_start(targets, i);
        }
    }
}

/// Dragging notes takes the grabbed one to the line of the grid that is nearest
/// to where it was dragged, as long as no note starts before 0. Where one would,
/// the first of them starts at 0.
pub proof fn a_dragged_note_lands_on_the_nearest_line(
    targets: Seq<(usize, Note)>,
    offsets: Seq<usize>,
    editor: EditorView,
    dx_raw: int,
    d_row_raw: int,
    snap: int,
    rows: int,
    line: int,
)
    requires
        targets.len() > 0,
        0 < snap <= i64::MAX,
        forall|i: int| 0 <= i < targets.len() ==> (#[trigger] targets[i]).1.start_tick >= 0,
        is_nearest_line(line, targets[0].1.start_tick + dx_raw, snap),
        i64::MIN <= line - targets[0].1.start_tick <= i64::MAX,
    ensures
        ({
            let by = line - targets[0].1.start_tick;
            let dx = movement(targets, offsets, editor, dx_raw, d_row_raw, snap, rows).0;
            let stays = forall|i: int|
                0 <= i < targets.len() ==> (#[trigger] targets[i]).1.start_tick + by >= 0;
            &&& stays ==> targets[0].1.start_tick + dx == line
            &&& !stays ==> {
                &&& exists|j: int|
                    0 <= j < targets.len() && (#[trigger] targets[j]).1.start_tick + dx == 0
                &&& forall|i: int|
                    0 <= i < targets.len() ==> (#[trigger] targets[i]).1.start_tick + dx >= 0
            }
        }),
{
    let by = line - targets[0].1.start_tick;
    snapping_goes_to_the_nearest_line(line, targets[0].1.start_tick + dx_raw, snap);
    let k = lemma_first_is_there(targets);
    let dx = movement(targets, offsets, editor, dx_raw, d_row_raw, snap, rows).0;
    assert(targets[k].1.start_tick >= 0);
    if forall|i: int| 0 <= i < targets.len() ==> (#[trigger] targets[i]).1.start_tick + by >= 0 {
        assert(targets[k].1.start_tick + by >= 0);
    } else {
        let i = choose|i: int|
            0 <= i < targets.len() && (#[trigger] targets[i]).1.start_tick + by < 0;
        lemma_first_start(targets, i);
        assert(targets[k].1.start_tick + dx == 0);
        assert forall|i: int| 0 <= i < targets.len() implies (#[trigger] targets[i]).1.start_tick
            + dx >= 0 by {
            lemma_first_start(targets, i);
        }
    }
}

proof fn lemma_rows_are_there(targets: Seq<(usize, Note)>, offsets: Seq<usize>) -> (at: (int, int))
    requires
        targets.len() > 0,
    ensures
        0 <= at.0 < targets.len(),
        0 <= at.1 < targets.len(),
        row_of(offsets, targets[at.0].1) == top_row(targets, offsets),
        row_of(offsets, targets[at.1].1) == bottom_row(targets, offsets),
    decreases targets.len(),
{
    if targets.len() == 1 {
        (0, 0)
    } else {
        let shorter = targets.drop_last();
        let before = lemma_rows_are_there(shorter, offsets);
        let here = row_of(offsets, targets.last().1);
        (
            if here < top_row(shorter, offsets) {
                targets.len() - 1
            } else {
                before.0
            },
            if here > bottom_row(shorter, offsets) {
                targets.len() - 1
            } else {
                before.1
            },
        )
    }
}

/// Dragged by some rows, notes go by that many rows if all of them stay inside
/// and land on lanes of their kind. Where there are no controller lanes, they go
/// as far as the first or the last row lets them.
pub proof fn a_dragged_note_goes_to_its_row(
    targets: Seq<(usize, Note)>,
    offsets: Seq<usize>,
    editor: EditorView,
    dx_raw: int,
    d_row_raw: int,
    snap: int,
    rows: int,
)
    requires
        targets.len() > 0,
        rows_fit(targets, offsets, rows),
    ensures
        ({
            let d_row = movement(targets, offsets, editor, dx_raw, d_row_raw, snap, rows).1;
            let fits = forall|i: int|
                0 <= i < targets.len() ==> 0 <= row_of(offsets, (#[trigger] targets[i]).1)
                    + d_row_raw < rows;
            let plain = forall|track: int, lane: int| editor.cc_at(track, lane) is None;
            &&& fits && all_land_well(targets, offsets, editor, d_row_raw) ==> d_row == d_row_raw
            &&& fits && plain ==> d_row == d_row_raw
            &&& !fits && plain && d_row_raw > 0 ==> exists|j: int|
                0 <= j < targets.len() && row_of(offsets, (#[trigger] targets[j]).1) + d_row
                    == rows - 1
            &&& !fits && plain && d_row_raw < 0 ==> exists|j: int|
                0 <= j < targets.len() && row_of(offsets, (#[trigger] targets[j]).1) + d_row == 0
            &&& d_row_raw >= 0 ==> 0 <= d_row <= d_row_raw
            &&& d_row_raw <= 0 ==> d_row_raw <= d_row <= 0
        }),
{
    let (top, bottom) = lemma_rows_are_there(targets, offsets);
    let held = held_rows(
        d_row_raw,
        -top_row(targets, offsets),
        rows - 1 - bottom_row(targets, offsets),
    );
    lemma_bottom_row(targets, offsets, rows);
    lemma_stepped_back(targets, offsets, editor, held);
    let d_row = movement(targets, offsets, editor, dx_raw, d_row_raw, snap, rows).1;
    if forall|i: int|
        0 <= i < targets.len() ==> 0 <= row_of(offsets, (#[trigger] targets[i]).1) + d_row_raw
            < rows {
        assert(0 <= row_of(offsets, targets[top].1) + d_row_raw);
        assert(row_of(offsets, targets[bottom].1) + d_row_raw < rows);
        assert(held == d_row_raw);
    } else {
        let i = choose|i: int|
            0 <= i < targets.len() && !(0 <= row_of(offsets, (#[trigger] targets[i]).1) + d_row_raw
                < rows);
        lemma_rows_between(targets, offsets, i);
    }
    if forall|track: int, lane: int| editor.cc_at(track, lane) is None {
        assert(all_land_well(targets, offsets, editor, held)) by {
            assert forall|i: int| 0 <= i < targets.len() implies lands_well(
                (#[trigger] targets[i]).1,
                offsets,
                editor,
                held,
            ) by {
                let row = row_of(offsets, targets[i].1) + held;
                let (track, lane) = cell_of_row(
                    offsets,
                    editor,
                    if row < 0 {
                        0
                    } else {
                        row
                    },
                );
                assert(editor.cc_at(targets[i].1.track as int, targets[i].1.lane as int) is None);
                assert(editor.cc_at(track as int, lane as int) is None);
            }
        }
        assert(row_of(offsets, targets[top].1) == top_row(targets, offsets));
        assert(row_of(offsets, targets[bottom].1) == bottom_row(targets, offsets));
    }
}

/// A block is dragged to no other row, and nothing else with it. A note is
/// dragged to no lane of a controller.
pub proof fn a_dragged_block_stays_in_its_row(
    targets: Seq<(usize, Note)>,
    offsets: Seq<usize>,
    editor: EditorView,
    dx_raw: int,
    d_row_raw: int,
    snap: int,
    rows: int,
    i: int,
)
    requires
        are_row_starts(offsets, editor),
        editor.tracks.len() <= usize::MAX,
        forall|i: int|
            0 <= i < targets.len() ==> (#[trigger] targets[i]).1.track < editor.tracks.len()
                && targets[i].1.lane < editor.lane_count(targets[i].1.track as int),
        rows == row_start(editor.tracks, editor.tracks.len() as int),
        rows_fit(targets, offsets, rows),
        0 <= i < targets.len(),
    ensures
        ({
            let note = targets[i].1;
            let d_row = movement(targets, offsets, editor, dx_raw, d_row_raw, snap, rows).1;
            let (track, lane) = cell_of_row(offsets, editor, row_of(offsets, note) + d_row);
            &&& editor.cc_at(note.track as int, note.lane as int) is Some ==> d_row == 0
            &&& editor.cc_at(note.track as int, note.lane as int) is None ==> editor.cc_at(
                track as int,
                lane as int,
            ) is None
        }),
{
    let note = targets[i].1;
    let d_row = movement(targets, offsets, editor, dx_raw, d_row_raw, snap, rows).1;
    a_move_keeps_lane_kinds(targets, offsets, editor, dx_raw, d_row_raw, snap, rows);
    lemma_rows_between(targets, offsets, i);
    lemma_bottom_row(targets, offsets, rows);
    let held = held_rows(
        d_row_raw,
        -top_row(targets, offsets),
        rows - 1 - bottom_row(targets, offsets),
    );
    lemma_stepped_back(targets, offsets, editor, held);
    assert(lands_well(targets[i].1, offsets, editor, d_row));
    let row = row_of(offsets, note) + d_row;
    assert(0 <= row < rows);
    the_lane_of_a_row_leads_back(offsets, editor, row);
}

/// The playhead goes to the nearest of the beats and the start of the selected
/// note, and to a position itself where it is free. A position before 0 is
/// taken as 0, and a beat without a width as a quarter note.
pub proof fn the_playhead_goes_to_the_nearest_place(
    raw: int,
    beat: int,
    selected_start: Option<i64>,
    free: bool,
    count: int,
)
    requires
        raw <= 0x2000_0000_0000_0000,
        beat <= 0x2000_0000_0000_0000,
    ensures
        ({
            let target = sought(raw, beat, selected_start, free);
            let inside = if raw < 0 {
                0
            } else {
                raw
            };
            let width = if beat <= 0 {
                33600
            } else {
                beat
            };
            &&& free ==> target == inside
            &&& !free ==> target as int % width == 0 || Some(target) == selected_start
            &&& !free ==> distance(inside, target as int) <= distance(inside, count * width)
            &&& !free && selected_start is Some ==> distance(inside, target as int) <= distance(
                inside,
                selected_start->0 as int,
            )
            &&& !free && 2 * distance(inside, count * width) < width && (selected_start is Some
                ==> distance(inside, count * width) <= distance(inside, selected_start->0 as int))
                ==> target == count * width
        }),
{
    let inside = larger(raw, 0);
    let width = if beat > 0 {
        beat
    } else {
        TICKS_PER_QUARTER as int
    };
    let nearest = nearest_multiple(inside, width);
    lemma_nearest_is_close(inside, width);
    let quotient = crate::time::rounded_quotient(inside, width);
    assert(quotient >= 0) by {
        vstd::arithmetic::div_mod::lemma_div_pos_is_pos(2 * inside + width, 2 * width);
    }
    assert(nearest >= 0) by (nonlinear_arith)
        requires
            nearest == quotient * width,
            quotient >= 0,
            width > 0,
    ;
    vstd::arithmetic::div_mod::lemma_mod_multiples_basic(quotient, width);
    vstd::arithmetic::div_mod::lemma_mod_multiples_basic(count, width);
    assert(nearest - count * width == (quotient - count) * width) by (nonlinear_arith)
        requires
            nearest == quotient * width,
    ;
    if quotient != count {
        assert((quotient - count) * width >= width || (quotient - count) * width <= -width)
            by (nonlinear_arith)
            requires
                quotient != count,
                width > 0,
        ;
    }
    if 2 * distance(inside, count * width) < width {
        snapping_goes_to_the_nearest_line(count * width, inside, width);
    }
}

/// The lanes are shown from the top downwards, track by track, each in a row of
/// its own: the first lane in the first row, and every one directly below the
/// lane or the track before it.
pub proof fn lanes_are_shown_in_their_order(offsets: Seq<usize>, editor: EditorView, note: Note)
    requires
        are_row_starts(offsets, editor),
        note.track < editor.tracks.len(),
        note.lane < editor.lane_count(note.track as int),
    ensures
        note.track == 0 && note.lane == 0 ==> row_of(offsets, note) == 0,
        note.lane > 0 ==> row_of(offsets, note) == row_of(
            offsets,
            Note { lane: (note.lane - 1) as usize, ..note },
        ) + 1,
        note.track > 0 && note.lane == 0 ==> row_of(offsets, note) == row_of(
            offsets,
            Note {
                track: (note.track - 1) as usize,
                lane: (editor.lane_count(note.track - 1) - 1) as usize,
                ..note
            },
        ) + 1,
{
    if note.track > 0 {
        lemma_row_start_grows(editor.tracks, note.track - 1, note.track as int);
    }
}

} // verus!
