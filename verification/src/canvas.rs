//! Where notes are shown, and what a position on the screen points at.
//!
//! Lengths on the screen are whole numbers of subpixels. Areas of notes are kept
//! in finer units still, such that nothing is rounded: see [`Area`].

use crate::geometry::{larger, row_of, smaller};
use crate::sequencer::Note;
use crate::time::{floor_quotient, narrow, round_quotient, rounded_quotient, saturate};
use vstd::prelude::*;

verus! {

/// Subpixels in a pixel.
pub const SUBPIXELS: i64 = 1024;

/// The height of the ruler above the lanes.
pub const RULER_HEIGHT: i64 = 22528;

/// The units of an [`Area`] across a subpixel.
pub const UNITS_ACROSS: i128 = 67200;

/// The units of an [`Area`] down a subpixel.
pub const UNITS_DOWN: i128 = 12;

/// One pixel across, in units of an [`Area`].
pub const PIXEL_ACROSS: i128 = 68812800;

/// How the grid is laid out on the screen.
#[derive(Clone, Copy, PartialEq, Eq, Structural, Debug)]
pub struct Canvas {
    /// The left end of the grid.
    pub origin_x: i64,
    /// The upper end of the ruler.
    pub origin_y: i64,
    /// The width of a quarter note.
    pub ppq: i32,
    /// The height of a lane.
    pub row_h: i32,
}

/// A rectangle: across in units of [`UNITS_ACROSS`], down in units of
/// [`UNITS_DOWN`]. Its edges belong to it.
#[derive(Clone, Copy, PartialEq, Eq, Structural, Debug)]
pub struct Area {
    pub left: i128,
    pub right: i128,
    pub top: i128,
    pub bottom: i128,
}

/// What part of a note a position points at.
#[derive(Clone, Copy, PartialEq, Eq, Structural, Debug)]
pub enum Hit {
    /// The middle.
    Body,
    /// The right end: it moves, the start stays.
    ResizeRight,
    /// The left end: it moves, the end stays.
    ResizeLeft,
}

impl Canvas {
    /// The left end of a note's area.
    pub open spec fn note_left(self, note: Note) -> int {
        self.origin_x * UNITS_ACROSS + 2 * (note.start_tick * self.ppq)
    }

    /// The width of a note's area: a pixel less than the note takes up, and at
    /// least four pixels.
    pub open spec fn note_width(self, note: Note) -> int {
        larger(2 * (note.duration * self.ppq) - PIXEL_ACROSS, 4 * PIXEL_ACROSS)
    }

    /// The upper end of a row.
    pub open spec fn row_top(self, row: int) -> int {
        UNITS_DOWN * (self.origin_y + RULER_HEIGHT) + UNITS_DOWN * (row * self.row_h)
    }

    /// The area of a note in row `row`. A twelfth of the row is left free above
    /// it and below it.
    pub open spec fn area(self, row: int, note: Note) -> Area {
        Area {
            left: self.note_left(note) as i128,
            right: (self.note_left(note) + self.note_width(note)) as i128,
            top: (self.row_top(row) + self.row_h) as i128,
            bottom: (self.row_top(row) + 11 * self.row_h) as i128,
        }
    }
}

impl Area {
    /// Whether a height is inside.
    pub open spec fn spans(self, y: int) -> bool {
        self.top <= y <= self.bottom
    }

    /// Half way across.
    pub open spec fn center(self) -> int {
        (self.left + self.right) / 2
    }

    /// Where the right end begins: ten pixels before the edge. Where the left
    /// end can be grabbed, too, both share the area at its center.
    pub open spec fn right_end(self, left_resize: bool) -> int {
        if left_resize {
            larger(self.right - 10 * PIXEL_ACROSS, self.center())
        } else {
            self.right - 10 * PIXEL_ACROSS
        }
    }

    /// What a position points at.
    pub open spec fn part_at(self, x: int, y: int, left_resize: bool) -> Option<Hit> {
        if !self.spans(y) {
            None
        } else if self.right_end(left_resize) <= x <= self.right + 2 * PIXEL_ACROSS {
            Some(Hit::ResizeRight)
        } else if left_resize && self.left - 2 * PIXEL_ACROSS <= x <= smaller(
            self.left + 10 * PIXEL_ACROSS,
            self.center(),
        ) {
            Some(Hit::ResizeLeft)
        } else if self.left <= x <= self.right {
            Some(Hit::Body)
        } else {
            None
        }
    }

    /// Whether two areas have a point in common.
    pub open spec fn meets(self, other: Area) -> bool {
        self.left <= other.right && other.left <= self.right && self.top <= other.bottom
            && other.top <= self.bottom
    }
}

/// The last of the first `count` notes that a position points at, and its part.
/// Later notes are drawn over earlier ones.
pub open spec fn hit_among(
    notes: Seq<Note>,
    offsets: Seq<usize>,
    canvas: Canvas,
    x: int,
    y: int,
    left_resize: bool,
    count: int,
) -> Option<(usize, Hit)>
    decreases count,
{
    if count <= 0 {
        None
    } else {
        let note = notes[count - 1];
        match canvas.area(row_of(offsets, note), note).part_at(
            x * UNITS_ACROSS,
            y * UNITS_DOWN,
            left_resize,
        ) {
            Some(part) => Some(((count - 1) as usize, part)),
            None => hit_among(notes, offsets, canvas, x, y, left_resize, count - 1),
        }
    }
}

fn place_area(canvas: &Canvas, row: i128, note: &Note) -> (area: Area)
    requires
        0 <= row <= 0x2_0000_0000_0000_0000,
    ensures
        area == canvas.area(row as int, *note),
        area.left == canvas.note_left(*note),
        area.right == canvas.note_left(*note) + canvas.note_width(*note),
        area.top == canvas.row_top(row as int) + canvas.row_h,
        area.bottom == canvas.row_top(row as int) + 11 * canvas.row_h,
        -0x4_0000_0000_0000_0000_0000_0000 <= area.left <= area.right
            <= 0x4_0000_0000_0000_0000_0000_0000,
{
    let ppq: i128 = canvas.ppq as i128;
    let start: i128 = note.start_tick as i128;
    let duration: i128 = note.duration as i128;
    let row_h: i128 = canvas.row_h as i128;
    proof {
        assert(-0x4000_0000_0000_0000_0000_0000 <= start * ppq <= 0x4000_0000_0000_0000_0000_0000)
            by (nonlinear_arith)
            requires
                -0x8000_0000_0000_0000 <= start <= 0x8000_0000_0000_0000,
                -0x8000_0000 <= ppq <= 0x8000_0000,
        ;
        assert(-0x4000_0000_0000_0000_0000_0000 <= duration * ppq
            <= 0x4000_0000_0000_0000_0000_0000) by (nonlinear_arith)
            requires
                -0x8000_0000_0000_0000 <= duration <= 0x8000_0000_0000_0000,
                -0x8000_0000 <= ppq <= 0x8000_0000,
        ;
        assert(-0x1_0000_0000_0000_0000_0000_0000 <= row * row_h
            <= 0x1_0000_0000_0000_0000_0000_0000) by (nonlinear_arith)
            requires
                0 <= row <= 0x2_0000_0000_0000_0000,
                -0x8000_0000 <= row_h <= 0x8000_0000,
        ;
    }
    let left: i128 = canvas.origin_x as i128 * UNITS_ACROSS + 2 * (start * ppq);
    let wanted: i128 = 2 * (duration * ppq) - PIXEL_ACROSS;
    let width: i128 = if wanted < 4 * PIXEL_ACROSS {
        4 * PIXEL_ACROSS
    } else {
        wanted
    };
    let above: i128 = UNITS_DOWN * (canvas.origin_y as i128 + RULER_HEIGHT as i128) + UNITS_DOWN * (
    row * row_h);
    Area { left, right: left + width, top: above + row_h, bottom: above + 11 * row_h }
}

/// The area of a note in row `row`.
pub fn note_area(canvas: &Canvas, row: usize, note: &Note) -> (area: Area)
    ensures
        area == canvas.area(row as int, *note),
        area.left == canvas.note_left(*note),
        area.right == canvas.note_left(*note) + canvas.note_width(*note),
        area.top == canvas.row_top(row as int) + canvas.row_h,
        area.bottom == canvas.row_top(row as int) + 11 * canvas.row_h,
{
    place_area(canvas, row as i128, note)
}

fn wide_row(offsets: &Vec<usize>, note: &Note) -> (row: i128)
    ensures
        row == row_of(offsets@, *note),
        0 <= row <= 0x2_0000_0000_0000_0000,
{
    if note.track < offsets.len() {
        offsets[note.track] as i128 + note.lane as i128
    } else {
        note.lane as i128
    }
}

fn find_part(area: &Area, x: i128, y: i128, left_resize: bool) -> (part: Option<Hit>)
    requires
        -0x4_0000_0000_0000_0000_0000_0000 <= area.left <= area.right
            <= 0x4_0000_0000_0000_0000_0000_0000,
    ensures
        part == area.part_at(x as int, y as int, left_resize),
{
    if y < area.top || y > area.bottom {
        return None;
    }
    let center: i128 = floor_quotient(area.left + area.right, 2);
    let near: i128 = area.right - 10 * PIXEL_ACROSS;
    let right_end: i128 = if left_resize && near < center {
        center
    } else {
        near
    };
    if right_end <= x && x <= area.right + 2 * PIXEL_ACROSS {
        return Some(Hit::ResizeRight);
    }
    if left_resize {
        let far: i128 = area.left + 10 * PIXEL_ACROSS;
        let left_end: i128 = if center < far {
            center
        } else {
            far
        };
        if area.left - 2 * PIXEL_ACROSS <= x && x <= left_end {
            return Some(Hit::ResizeLeft);
        }
    }
    if area.left <= x && x <= area.right {
        Some(Hit::Body)
    } else {
        None
    }
}

/// The note that a position points at, and which part of it.
pub fn hit_note(
    notes: &Vec<Note>,
    offsets: &Vec<usize>,
    canvas: &Canvas,
    pos: (i64, i64),
    left_resize: bool,
) -> (hit: Option<(usize, Hit)>)
    ensures
        hit == hit_among(
            notes@,
            offsets@,
            *canvas,
            pos.0 as int,
            pos.1 as int,
            left_resize,
            notes@.len() as int,
        ),
{
    let x: i128 = pos.0 as i128 * UNITS_ACROSS;
    let y: i128 = pos.1 as i128 * UNITS_DOWN;
    let mut count: usize = notes.len();
    while count > 0
        invariant
            count <= notes@.len(),
            x == pos.0 * UNITS_ACROSS,
            y == pos.1 * UNITS_DOWN,
            hit_among(
                notes@,
                offsets@,
                *canvas,
                pos.0 as int,
                pos.1 as int,
                left_resize,
                notes@.len() as int,
            ) == hit_among(
                notes@,
                offsets@,
                *canvas,
                pos.0 as int,
                pos.1 as int,
                left_resize,
                count as int,
            ),
        decreases count,
    {
        let note = notes[count - 1];
        let area = place_area(canvas, wide_row(offsets, &note), &note);
        match find_part(&area, x, y, left_resize) {
            Some(part) => {
                return Some((count - 1, part));
            },
            None => {},
        }
        count -= 1;
    }
    None
}

/// The rectangle between two positions.
pub open spec fn frame_of(a: (i64, i64), b: (i64, i64)) -> Area {
    Area {
        left: (smaller(a.0 as int, b.0 as int) * UNITS_ACROSS) as i128,
        right: (larger(a.0 as int, b.0 as int) * UNITS_ACROSS) as i128,
        top: (smaller(a.1 as int, b.1 as int) * UNITS_DOWN) as i128,
        bottom: (larger(a.1 as int, b.1 as int) * UNITS_DOWN) as i128,
    }
}

/// The rectangle between two positions.
pub fn frame(a: (i64, i64), b: (i64, i64)) -> (area: Area)
    ensures
        area == frame_of(a, b),
{
    let (left, right): (i64, i64) = if b.0 < a.0 {
        (b.0, a.0)
    } else {
        (a.0, b.0)
    };
    let (top, bottom): (i64, i64) = if b.1 < a.1 {
        (b.1, a.1)
    } else {
        (a.1, b.1)
    };
    Area {
        left: left as i128 * UNITS_ACROSS,
        right: right as i128 * UNITS_ACROSS,
        top: top as i128 * UNITS_DOWN,
        bottom: bottom as i128 * UNITS_DOWN,
    }
}

/// `base`, and behind it the numbers of those of the first `count` notes that
/// the frame meets and that are not in it.
pub open spec fn framed(
    notes: Seq<Note>,
    offsets: Seq<usize>,
    canvas: Canvas,
    around: Area,
    base: Seq<usize>,
    count: int,
) -> Seq<usize>
    decreases count,
{
    if count <= 0 {
        base
    } else {
        let before = framed(notes, offsets, canvas, around, base, count - 1);
        let note = notes[count - 1];
        if around.meets(canvas.area(row_of(offsets, note), note)) && !before.contains(
            (count - 1) as usize,
        ) {
            before.push((count - 1) as usize)
        } else {
            before
        }
    }
}

/// What is selected with a frame: what was selected before, and the notes that
/// it meets.
pub fn framed_notes(
    notes: &Vec<Note>,
    offsets: &Vec<usize>,
    canvas: &Canvas,
    around: &Area,
    base: &Vec<usize>,
) -> (selection: Vec<usize>)
    ensures
        selection@ == framed(
            notes@,
            offsets@,
            *canvas,
            *around,
            base@,
            notes@.len() as int,
        ),
{
    let mut selection: Vec<usize> = base.clone();
    assert(selection@ =~= base@);
    let mut at: usize = 0;
    while at < notes.len()
        invariant
            at <= notes@.len(),
            selection@ == framed(notes@, offsets@, *canvas, *around, base@, at as int),
        decreases notes@.len() - at,
    {
        let note = notes[at];
        let area = place_area(canvas, wide_row(offsets, &note), &note);
        let meets: bool = around.left <= area.right && area.left <= around.right && around.top
            <= area.bottom && area.top <= around.bottom;
        if meets && !crate::state::holds(&selection, at) {
            selection.push(at);
        }
        at += 1;
    }
    selection
}

/// Whether a height is among the lanes: below the ruler, and above the end of
/// what is shown.
pub fn is_inside_lanes(origin_y: i64, y: i64, content_h: i64) -> (yes: bool)
    ensures
        yes == (origin_y + RULER_HEIGHT <= y < origin_y + content_h),
{
    y as i128 >= origin_y as i128 + RULER_HEIGHT as i128 && (y as i128) < origin_y as i128
        + content_h as i128
}

/// The row at a height, out of `rows`. Above the first and below the last row
/// it is that row.
pub open spec fn row_at_height(canvas: Canvas, rows: int, y: int) -> int {
    let row = (y - canvas.origin_y - RULER_HEIGHT) / (canvas.row_h as int);
    if row < 0 {
        0
    } else if row > rows - 1 {
        rows - 1
    } else {
        row
    }
}

/// The row at a height, out of `rows`.
pub fn row_at(canvas: &Canvas, rows: usize, y: i64) -> (row: usize)
    requires
        canvas.row_h > 0,
        rows > 0,
    ensures
        row == row_at_height(*canvas, rows as int, y as int),
{
    let row: i128 = floor_quotient(
        y as i128 - canvas.origin_y as i128 - RULER_HEIGHT as i128,
        canvas.row_h as i128,
    );
    if row < 0 {
        0
    } else if row > rows as i128 - 1 {
        rows - 1
    } else {
        row as usize
    }
}

/// The tick at or before a position.
pub open spec fn tick_at_position(canvas: Canvas, x: int) -> i64 {
    saturate(((x - canvas.origin_x) * crate::time::TICKS_PER_QUARTER) / (canvas.ppq as int))
}

/// The tick at or before a position.
pub fn tick_at(canvas: &Canvas, x: i64) -> (tick: i64)
    requires
        canvas.ppq > 0,
    ensures
        tick == tick_at_position(*canvas, x as int),
{
    narrow(floor_quotient((x as i128 - canvas.origin_x as i128) * 33600, canvas.ppq as i128))
}

/// The parts of a lane in which the height of a position is measured.
pub const LANE_PARTS: i64 = 65536;

/// Where a position is on the grid: the tick at or before it, and how far down
/// the lanes it is, in parts of a lane.
pub open spec fn content_of(canvas: Canvas, pos: (i64, i64)) -> (i64, i64) {
    (
        tick_at_position(canvas, pos.0 as int),
        saturate(
            ((pos.1 - canvas.origin_y - RULER_HEIGHT) * LANE_PARTS) / (canvas.row_h as int),
        ),
    )
}

/// Where a position is on the grid.
pub fn to_content_pos(canvas: &Canvas, pos: (i64, i64)) -> (content: (i64, i64))
    requires
        canvas.ppq > 0,
        canvas.row_h > 0,
    ensures
        content == content_of(*canvas, pos),
{
    let down: i128 = (pos.1 as i128 - canvas.origin_y as i128 - RULER_HEIGHT as i128) * 65536;
    (tick_at(canvas, pos.0), narrow(floor_quotient(down, canvas.row_h as i128)))
}

/// Where a place on the grid is on the screen.
pub open spec fn screen_of(canvas: Canvas, content: (i64, i64)) -> (i64, i64) {
    (
        saturate(
            canvas.origin_x + (content.0 * canvas.ppq) / crate::time::TICKS_PER_QUARTER as int,
        ),
        saturate(
            canvas.origin_y + RULER_HEIGHT + (content.1 * canvas.row_h) / LANE_PARTS as int,
        ),
    )
}

/// Where a place on the grid is on the screen.
pub fn to_screen_pos(canvas: &Canvas, content: (i64, i64)) -> (pos: (i64, i64))
    ensures
        pos == screen_of(*canvas, content),
{
    proof {
        assert(-0x4000_0000_0000_0000_0000_0000 <= content.0 * canvas.ppq
            <= 0x4000_0000_0000_0000_0000_0000) by (nonlinear_arith)
            requires
                -0x8000_0000_0000_0000 <= content.0 <= 0x8000_0000_0000_0000,
                -0x8000_0000 <= canvas.ppq <= 0x8000_0000,
        ;
        assert(-0x4000_0000_0000_0000_0000_0000 <= content.1 * canvas.row_h
            <= 0x4000_0000_0000_0000_0000_0000) by (nonlinear_arith)
            requires
                -0x8000_0000_0000_0000 <= content.1 <= 0x8000_0000_0000_0000,
                -0x8000_0000 <= canvas.row_h <= 0x8000_0000,
        ;
    }
    let across: i128 = floor_quotient(content.0 as i128 * canvas.ppq as i128, 33600);
    let down: i128 = floor_quotient(content.1 as i128 * canvas.row_h as i128, LANE_PARTS as i128);
    (
        narrow(canvas.origin_x as i128 + across),
        narrow(canvas.origin_y as i128 + RULER_HEIGHT as i128 + down),
    )
}

/// The part of the visible area along its edges in which a drag scrolls.
pub const SCROLL_MARGIN: i64 = 49152;

/// How fast a drag scrolls at an edge.
pub const SCROLL_SPEED: i64 = 14336;

/// How fast a drag scrolls at a depth inside the margin: in proportion, and at
/// the edge and beyond it at full speed.
pub open spec fn scroll_speed(depth: int) -> int {
    if depth <= 0 {
        0
    } else if depth >= SCROLL_MARGIN {
        SCROLL_SPEED as int
    } else {
        depth * SCROLL_SPEED / SCROLL_MARGIN as int
    }
}

/// How far the contents scroll in one direction for a pointer between the edges
/// `low` and `high`. They move back where the pointer is at the high edge.
pub open spec fn scroll_between(low: int, high: int, pointer: int) -> int {
    if pointer > high - SCROLL_MARGIN {
        -scroll_speed(pointer - (high - SCROLL_MARGIN))
    } else if pointer < low + SCROLL_MARGIN {
        scroll_speed(low + SCROLL_MARGIN - pointer)
    } else {
        0
    }
}

/// What is visible of the grid.
#[derive(Clone, Copy, PartialEq, Eq, Structural, Debug)]
pub struct Visible {
    pub left: i64,
    pub right: i64,
    pub top: i64,
    pub bottom: i64,
}

fn speed_at(depth: i128) -> (speed: i64)
    ensures
        speed == scroll_speed(depth as int),
        0 <= speed <= SCROLL_SPEED,
{
    if depth <= 0 {
        0
    } else if depth >= SCROLL_MARGIN as i128 {
        SCROLL_SPEED
    } else {
        depth as i64 * SCROLL_SPEED / SCROLL_MARGIN
    }
}

fn scroll_along(low: i64, high: i64, pointer: i64) -> (delta: i64)
    ensures
        delta == scroll_between(low as int, high as int, pointer as int),
{
    let upper: i128 = high as i128 - SCROLL_MARGIN as i128;
    let lower: i128 = low as i128 + SCROLL_MARGIN as i128;
    if pointer as i128 > upper {
        -speed_at(pointer as i128 - upper)
    } else if (pointer as i128) < lower {
        speed_at(lower - pointer as i128)
    } else {
        0
    }
}

/// How far the contents scroll, across and down, while something is dragged
/// near an edge of what is visible.
pub fn edge_scroll_delta(visible: &Visible, pointer: (i64, i64), vertical: bool) -> (delta: (
    i64,
    i64,
))
    ensures
        delta.0 == scroll_between(visible.left as int, visible.right as int, pointer.0 as int),
        delta.1 == (if vertical {
            scroll_between(visible.top as int, visible.bottom as int, pointer.1 as int)
        } else {
            0
        }),
{
    let across: i64 = scroll_along(visible.left, visible.right, pointer.0);
    let down: i64 = if vertical {
        scroll_along(visible.top, visible.bottom, pointer.1)
    } else {
        0
    };
    (across, down)
}

/// How far the grid is scrolled such that a tick stays at a position.
pub open spec fn anchored_offset(
    viewport_left: int,
    anchor_x: int,
    anchor_tick: int,
    ppq: int,
) -> i64 {
    saturate(
        larger(
            rounded_quotient(anchor_tick * ppq, crate::time::TICKS_PER_QUARTER as int) - (anchor_x
                - viewport_left),
            0,
        ),
    )
}

/// How far the grid is scrolled such that a tick stays at a position. It cannot
/// be scrolled beyond its left end.
pub fn horizontal_offset_for_anchor(
    viewport_left: i64,
    anchor_x: i64,
    anchor_tick: i64,
    ppq: i32,
) -> (offset: i64)
    ensures
        offset == anchored_offset(
            viewport_left as int,
            anchor_x as int,
            anchor_tick as int,
            ppq as int,
        ),
        offset >= 0,
{
    proof {
        assert(-0x4000_0000_0000_0000_0000_0000 <= anchor_tick * ppq
            <= 0x4000_0000_0000_0000_0000_0000) by (nonlinear_arith)
            requires
                -0x8000_0000_0000_0000 <= anchor_tick <= 0x8000_0000_0000_0000,
                -0x8000_0000 <= ppq <= 0x8000_0000,
        ;
    }
    let at: i128 = round_quotient(anchor_tick as i128 * ppq as i128, 33600);
    let offset: i128 = at - (anchor_x as i128 - viewport_left as i128);
    narrow(
        if offset < 0 {
            0
        } else {
            offset
        },
    )
}

/// A product's quotient by one factor, multiplied by it again, is the product
/// or at most one factor less.
proof fn lemma_there_and_back(value: int, times: int, parts: int)
    requires
        times > 0,
        parts > 0,
    ensures
        ({
            let there = (value * parts) / times;
            let back = (there * times) / parts;
            &&& back <= value
            &&& (value - back - 1) * parts < times
        }),
{
    let there = (value * parts) / times;
    let back = (there * times) / parts;
    assert(there * times <= value * parts < there * times + times) by (nonlinear_arith)
        requires
            times > 0,
            there == (value * parts) / times,
    ;
    assert(back * parts <= there * times < back * parts + parts) by (nonlinear_arith)
        requires
            parts > 0,
            back == (there * times) / parts,
    ;
    assert(back <= value) by (nonlinear_arith)
        requires
            back * parts <= value * parts,
            parts > 0,
    ;
    assert((value - back - 1) * parts < times) by (nonlinear_arith)
        requires
            value * parts < there * times + times,
            there * times < back * parts + parts,
    ;
}

/// A position on the screen is found again from its place on the grid: exactly,
/// or before it by at most the width of a tick, or a part of a lane.
pub proof fn a_place_leads_back_to_the_position(canvas: Canvas, pos: (i64, i64))
    requires
        0 < canvas.ppq <= 491520,
        0 < canvas.row_h <= 98304,
        -0x1000_0000 <= canvas.origin_x <= 0x1000_0000,
        -0x1000_0000 <= canvas.origin_y <= 0x1000_0000,
        -0x1000_0000 <= pos.0 <= 0x1000_0000,
        -0x1000_0000 <= pos.1 <= 0x1000_0000,
    ensures
        ({
            let back = screen_of(canvas, content_of(canvas, pos));
            &&& back.0 <= pos.0
            &&& (pos.0 - back.0 - 1) * 33600 < canvas.ppq
            &&& back.1 <= pos.1
            &&& (pos.1 - back.1 - 1) * LANE_PARTS < canvas.row_h
        }),
{
    let across = pos.0 - canvas.origin_x;
    let down = pos.1 - canvas.origin_y - RULER_HEIGHT;
    lemma_there_and_back(across, canvas.ppq as int, 33600);
    lemma_there_and_back(down, canvas.row_h as int, LANE_PARTS as int);
    let there = (across * 33600) / (canvas.ppq as int);
    let below = (down * LANE_PARTS) / (canvas.row_h as int);
    assert(-0x8000_0000_0000 <= there <= 0x8000_0000_0000) by (nonlinear_arith)
        requires
            there == (across * 33600) / (canvas.ppq as int),
            canvas.ppq > 0,
            -0x2000_0000 <= across <= 0x2000_0000,
    ;
    assert(-0x8000_0000_0000 <= below <= 0x8000_0000_0000) by (nonlinear_arith)
        requires
            below == (down * 65536) / (canvas.row_h as int),
            canvas.row_h > 0,
            -0x3000_0000 <= down <= 0x3000_0000,
    ;
    let back_x = (there * canvas.ppq) / 33600;
    let back_y = (below * canvas.row_h) / (LANE_PARTS as int);
    assert(back_x >= across - 1 - 491520) by (nonlinear_arith)
        requires
            (across - back_x - 1) * 33600 < canvas.ppq,
            canvas.ppq <= 491520,
    ;
    assert(back_y >= down - 1 - 98304) by (nonlinear_arith)
        requires
            (down - back_y - 1) * 65536 < canvas.row_h,
            canvas.row_h <= 98304,
    ;
}

/// The ends of an area, as they are computed.
proof fn lemma_area_fits(canvas: Canvas, row: int, note: Note)
    requires
        0 <= row <= 0x2_0000_0000_0000_0000,
    ensures
        canvas.area(row, note).left == canvas.note_left(note),
        canvas.area(row, note).right == canvas.note_left(note) + canvas.note_width(note),
        canvas.area(row, note).top == canvas.row_top(row) + canvas.row_h,
        canvas.area(row, note).bottom == canvas.row_top(row) + 11 * canvas.row_h,
{
    let (start, duration) = (note.start_tick as int, note.duration as int);
    let (ppq, row_h) = (canvas.ppq as int, canvas.row_h as int);
    assert(-0x4000_0000_0000_0000_0000_0000 <= start * ppq <= 0x4000_0000_0000_0000_0000_0000)
        by (nonlinear_arith)
        requires
            -0x8000_0000_0000_0000 <= start <= 0x8000_0000_0000_0000,
            -0x8000_0000 <= ppq <= 0x8000_0000,
    ;
    assert(-0x4000_0000_0000_0000_0000_0000 <= duration * ppq <= 0x4000_0000_0000_0000_0000_0000)
        by (nonlinear_arith)
        requires
            -0x8000_0000_0000_0000 <= duration <= 0x8000_0000_0000_0000,
            -0x8000_0000 <= ppq <= 0x8000_0000,
    ;
    assert(-0x1_0000_0000_0000_0000_0000_0000 <= row * row_h
        <= 0x1_0000_0000_0000_0000_0000_0000) by (nonlinear_arith)
        requires
            0 <= row <= 0x2_0000_0000_0000_0000,
            -0x8000_0000 <= row_h <= 0x8000_0000,
    ;
}

/// However short a note is, both its ends can be grabbed, each at its edge.
pub proof fn both_ends_can_be_grabbed(canvas: Canvas, row: int, note: Note, y: int)
    requires
        0 <= row <= 0x2_0000_0000_0000_0000,
        canvas.area(row, note).spans(y),
    ensures
        ({
            let area = canvas.area(row, note);
            &&& area.part_at(area.right as int, y, true) == Some(Hit::ResizeRight)
            &&& area.part_at(area.left as int, y, true) == Some(Hit::ResizeLeft)
            &&& area.part_at(area.right as int, y, false) == Some(Hit::ResizeRight)
        }),
{
    lemma_area_fits(canvas, row, note);
}

/// The left end is only grabbed where that is switched on.
pub proof fn the_left_end_is_off_by_default(area: Area, x: int, y: int)
    ensures
        area.part_at(x, y, false) != Some(Hit::ResizeLeft),
{
}

/// Every point of a note's area points at some part of it.
pub proof fn an_area_has_no_holes(area: Area, x: int, y: int, left_resize: bool)
    requires
        area.spans(y),
        area.left <= x <= area.right,
    ensures
        area.part_at(x, y, left_resize) is Some,
{
}

/// Notes of different rows have no point in common, whatever part of them is
/// pointed at.
pub proof fn rows_keep_notes_apart(
    canvas: Canvas,
    row: int,
    note: Note,
    other_row: int,
    other: Note,
    x: int,
    y: int,
    left_resize: bool,
)
    requires
        canvas.row_h > 0,
        0 <= row < other_row <= 0x2_0000_0000_0000_0000,
    ensures
        canvas.area(row, note).part_at(x, y, left_resize) is None || canvas.area(
            other_row,
            other,
        ).part_at(x, y, left_resize) is None,
        !canvas.area(row, note).meets(canvas.area(other_row, other)),
{
    lemma_area_fits(canvas, row, note);
    lemma_area_fits(canvas, other_row, other);
    let row_h = canvas.row_h as int;
    assert(row * row_h + row_h <= other_row * row_h) by (nonlinear_arith)
        requires
            row + 1 <= other_row,
            row_h > 0,
    ;
}

/// A frame keeps what was selected before.
pub proof fn a_frame_keeps_the_base(
    notes: Seq<Note>,
    offsets: Seq<usize>,
    canvas: Canvas,
    around: Area,
    base: Seq<usize>,
    count: int,
)
    requires
        0 <= count <= notes.len(),
    ensures
        base.is_prefix_of(framed(notes, offsets, canvas, around, base, count)),
    decreases count,
{
    if count > 0 {
        a_frame_keeps_the_base(notes, offsets, canvas, around, base, count - 1);
    }
}

/// A frame selects every note that it meets.
pub proof fn a_frame_selects_what_it_meets(
    notes: Seq<Note>,
    offsets: Seq<usize>,
    canvas: Canvas,
    around: Area,
    base: Seq<usize>,
    count: int,
    i: int,
)
    requires
        0 <= i < count <= notes.len() <= usize::MAX,
        around.meets(canvas.area(row_of(offsets, notes[i]), notes[i])),
    ensures
        framed(notes, offsets, canvas, around, base, count).contains(i as usize),
    decreases count,
{
    let before = framed(notes, offsets, canvas, around, base, count - 1);
    if i < count - 1 {
        a_frame_selects_what_it_meets(notes, offsets, canvas, around, base, count - 1, i);
        let k = choose|k: int| 0 <= k < before.len() && before[k] == i as usize;
        assert(framed(notes, offsets, canvas, around, base, count)[k] == i as usize);
    } else if !before.contains(i as usize) {
        assert(before.push(i as usize)[before.len() as int] == i as usize);
    }
}

/// Away from the edges nothing scrolls.
pub proof fn nothing_scrolls_in_the_middle(low: int, high: int, pointer: int)
    requires
        low + SCROLL_MARGIN <= pointer <= high - SCROLL_MARGIN,
    ensures
        scroll_between(low, high, pointer) == 0,
{
}

/// Nearer to an edge it scrolls no slower, and never faster than at the edge.
pub proof fn scrolling_speeds_up_towards_the_edge(depth: int, deeper: int)
    requires
        depth <= deeper,
    ensures
        0 <= scroll_speed(depth) <= scroll_speed(deeper) <= SCROLL_SPEED,
{
}

/// Zooming keeps the anchored tick where it is, up to half a subpixel, unless
/// the grid's left end is in the way.
pub proof fn zooming_keeps_the_anchor(
    viewport_left: int,
    anchor_x: int,
    anchor_tick: int,
    ppq: int,
)
    requires
        0 < anchored_offset(viewport_left, anchor_x, anchor_tick, ppq) < i64::MAX,
    ensures
        ({
            let origin = viewport_left - anchored_offset(
                viewport_left,
                anchor_x,
                anchor_tick,
                ppq,
            );
            let shown = origin * 33600 + anchor_tick * ppq;
            -16800 <= shown - anchor_x * 33600 <= 16800
        }),
{
    crate::time::lemma_nearest_is_close(anchor_tick * ppq, 33600);
}

/// The tick at a position is the last one that is not to the right of it.
pub proof fn the_tick_at_a_position_lies_before_it(canvas: Canvas, x: int)
    requires
        canvas.ppq > 0,
        -0x100_0000_0000 <= x - canvas.origin_x <= 0x100_0000_0000,
    ensures
        ({
            let tick = tick_at_position(canvas, x) as int;
            &&& tick * canvas.ppq <= (x - canvas.origin_x) * 33600
            &&& (x - canvas.origin_x) * 33600 < (tick + 1) * canvas.ppq
        }),
{
    let across = (x - canvas.origin_x) * 33600;
    let ppq = canvas.ppq as int;
    let tick = across / ppq;
    vstd::arithmetic::div_mod::lemma_fundamental_div_mod(across, ppq);
    assert(tick * ppq <= across < (tick + 1) * ppq) by (nonlinear_arith)
        requires
            across == ppq * tick + across % ppq,
            0 <= across % ppq < ppq,
    ;
    assert(-0x1000_0000_0000_0000 <= tick <= 0x1000_0000_0000_0000) by (nonlinear_arith)
        requires
            tick * ppq <= across < (tick + 1) * ppq,
            ppq > 0,
            -0x800_0000_0000_0000 <= across <= 0x800_0000_0000_0000,
    ;
}

/// The row at a height is the one between whose upper and lower end it lies;
/// above all rows it is the first, and below them the last.
pub proof fn the_row_at_a_height_spans_it(canvas: Canvas, rows: int, y: int, row: int)
    requires
        canvas.row_h > 0,
        0 <= row < rows,
    ensures
        ({
            let down = y - (canvas.origin_y + RULER_HEIGHT);
            &&& row * canvas.row_h <= down < (row + 1) * canvas.row_h ==> row_at_height(
                canvas,
                rows,
                y,
            ) == row
            &&& down < 0 ==> row_at_height(canvas, rows, y) == 0
            &&& down >= rows * canvas.row_h ==> row_at_height(canvas, rows, y) == rows - 1
        }),
{
    let down = y - canvas.origin_y - RULER_HEIGHT;
    let row_h = canvas.row_h as int;
    let found = down / row_h;
    vstd::arithmetic::div_mod::lemma_fundamental_div_mod(down, row_h);
    assert(found * row_h <= down < (found + 1) * row_h) by (nonlinear_arith)
        requires
            down == row_h * found + down % row_h,
            0 <= down % row_h < row_h,
    ;
    if row * row_h <= down < (row + 1) * row_h {
        assert(found == row) by (nonlinear_arith)
            requires
                found * row_h <= down < (found + 1) * row_h,
                row * row_h <= down < (row + 1) * row_h,
                row_h > 0,
        ;
    }
    if down < 0 {
        assert(found < 0) by (nonlinear_arith)
            requires
                found * row_h <= down,
                down < 0,
                row_h > 0,
        ;
    }
    if down >= rows * row_h {
        assert(found >= rows) by (nonlinear_arith)
            requires
                rows * row_h <= down < (found + 1) * row_h,
                row_h > 0,
        ;
    }
}

/// Where a note's area is pointed at, the position lies in the note's row and at
/// a tick between its start and its end.
pub proof fn a_note_is_shown_where_it_lies(
    canvas: Canvas,
    rows: int,
    row: int,
    note: Note,
    x: int,
    y: int,
)
    requires
        canvas.ppq > 0,
        canvas.row_h > 0,
        0 <= row < rows <= 0x2_0000_0000_0000_0000,
        -0x100_0000_0000 <= x - canvas.origin_x <= 0x100_0000_0000,
        canvas.area(row, note).spans(y * UNITS_DOWN),
        canvas.area(row, note).left <= x * UNITS_ACROSS <= canvas.area(row, note).right,
    ensures
        row_at_height(canvas, rows, y) == row,
        note.start_tick <= tick_at_position(canvas, x),
        note.duration * canvas.ppq >= 5 * 1024 * 33600 ==> tick_at_position(canvas, x)
            < note.start_tick + note.duration,
{
    lemma_area_fits(canvas, row, note);
    let row_h = canvas.row_h as int;
    let ppq = canvas.ppq as int;
    assert((row + 1) * row_h == row * row_h + row_h) by (nonlinear_arith);
    the_row_at_a_height_spans_it(canvas, rows, y, row);
    the_tick_at_a_position_lies_before_it(canvas, x);
    let tick = tick_at_position(canvas, x) as int;
    let start = note.start_tick as int;
    let duration = note.duration as int;
    assert(x * 67200 == (x - canvas.origin_x) * 67200 + canvas.origin_x * 67200);
    assert(start * ppq <= (x - canvas.origin_x) * 33600);
    assert(start <= tick) by (nonlinear_arith)
        requires
            start * ppq < (tick + 1) * ppq,
            ppq > 0,
    ;
    if duration * ppq >= 5 * 1024 * 33600 {
        assert((start + duration) * ppq == start * ppq + duration * ppq) by (nonlinear_arith);
        assert(tick < start + duration) by (nonlinear_arith)
            requires
                tick * ppq < (start + duration) * ppq,
                ppq > 0,
        ;
    }
}

/// A position points at the last note of those that it lies on, and at no note
/// if it lies on none.
pub proof fn the_last_note_is_pointed_at(
    notes: Seq<Note>,
    offsets: Seq<usize>,
    canvas: Canvas,
    x: int,
    y: int,
    left_resize: bool,
    count: int,
    k: int,
)
    requires
        0 <= k < count <= notes.len() <= usize::MAX,
    ensures
        ({
            let hit = hit_among(notes, offsets, canvas, x, y, left_resize, count);
            let part = canvas.area(row_of(offsets, notes[k]), notes[k]).part_at(
                x * UNITS_ACROSS,
                y * UNITS_DOWN,
                left_resize,
            );
            &&& hit is None ==> part is None
            &&& part is Some ==> hit is Some && (hit->0).0 >= k
            &&& hit is Some && (hit->0).0 == k ==> part == Some((hit->0).1)
        }),
    decreases count,
{
    if k < count - 1 {
        the_last_note_is_pointed_at(
            notes,
            offsets,
            canvas,
            x,
            y,
            left_resize,
            count - 1,
            k,
        );
    } else {
        lemma_hits_are_among(notes, offsets, canvas, x, y, left_resize, count - 1);
    }
}

proof fn lemma_hits_are_among(
    notes: Seq<Note>,
    offsets: Seq<usize>,
    canvas: Canvas,
    x: int,
    y: int,
    left_resize: bool,
    count: int,
)
    requires
        0 <= count <= notes.len() <= usize::MAX,
    ensures
        hit_among(notes, offsets, canvas, x, y, left_resize, count) matches Some(hit) ==> hit.0
            < count,
    decreases count,
{
    if count > 0 {
        lemma_hits_are_among(notes, offsets, canvas, x, y, left_resize, count - 1);
    }
}

/// The right end of a note is grabbed in its last ten pixels and two pixels
/// behind it, the left end, where it can be, in its first ten and two before it.
/// On a note of 20 pixels or more they leave what is between them to its body.
pub proof fn ends_are_grabbed_near_the_edges(area: Area, x: int, y: int)
    requires
        area.spans(y),
        area.right - area.left >= 20 * 1024 * 67200,
    ensures
        area.right - 10 * 1024 * 67200 <= x <= area.right + 2 * 1024 * 67200 ==> area.part_at(
            x,
            y,
            false,
        ) == Some(Hit::ResizeRight) && area.part_at(x, y, true) == Some(Hit::ResizeRight),
        area.left - 2 * 1024 * 67200 <= x <= area.left + 10 * 1024 * 67200 && x < area.right - 10
            * 1024 * 67200 ==> area.part_at(x, y, true) == Some(Hit::ResizeLeft),
        area.left + 10 * 1024 * 67200 < x < area.right - 10 * 1024 * 67200 ==> area.part_at(
            x,
            y,
            true,
        ) == Some(Hit::Body),
        area.left <= x < area.right - 10 * 1024 * 67200 ==> area.part_at(x, y, false) == Some(
            Hit::Body,
        ),
        x > area.right + 2 * 1024 * 67200 || x < area.left - 2 * 1024 * 67200 ==> area.part_at(
            x,
            y,
            true,
        ) is None && area.part_at(x, y, false) is None,
{
}

/// A frame reaches from one position to the other, whichever is first.
pub proof fn a_frame_lies_between_its_corners(a: (i64, i64), b: (i64, i64))
    ensures
        ({
            let area = frame_of(a, b);
            &&& area.left <= a.0 * 67200 <= area.right
            &&& area.left <= b.0 * 67200 <= area.right
            &&& area.top <= a.1 * 12 <= area.bottom
            &&& area.top <= b.1 * 12 <= area.bottom
            &&& area.left == a.0 * 67200 || area.left == b.0 * 67200
            &&& area.right == a.0 * 67200 || area.right == b.0 * 67200
            &&& area.top == a.1 * 12 || area.top == b.1 * 12
            &&& area.bottom == a.1 * 12 || area.bottom == b.1 * 12
        }),
{
}

/// Two areas meet if some point lies in both.
pub proof fn areas_meet_in_a_point(a: Area, b: Area, x: int, y: int)
    requires
        a.left <= a.right,
        a.top <= a.bottom,
        b.left <= b.right,
        b.top <= b.bottom,
    ensures
        a.left <= x <= a.right && b.left <= x <= b.right && a.spans(y) && b.spans(y) ==> a.meets(b),
        a.meets(b) ==> {
            let corner = (larger(a.left as int, b.left as int), larger(a.top as int, b.top as int));
            &&& a.left <= corner.0 <= a.right
            &&& b.left <= corner.0 <= b.right
            &&& a.top <= corner.1 <= a.bottom
            &&& b.top <= corner.1 <= b.bottom
        },
{
}

/// A frame selects nothing but what was selected before and the notes that it
/// meets.
pub proof fn a_frame_selects_nothing_else(
    notes: Seq<Note>,
    offsets: Seq<usize>,
    canvas: Canvas,
    around: Area,
    base: Seq<usize>,
    count: int,
    k: usize,
)
    requires
        0 <= count <= notes.len() <= usize::MAX,
        framed(notes, offsets, canvas, around, base, count).contains(k),
    ensures
        base.contains(k) || (k < count && around.meets(
            canvas.area(row_of(offsets, notes[k as int]), notes[k as int]),
        )),
    decreases count,
{
    if count > 0 {
        let before = framed(notes, offsets, canvas, around, base, count - 1);
        let now = framed(notes, offsets, canvas, around, base, count);
        let i = choose|i: int| 0 <= i < now.len() && now[i] == k;
        if i < before.len() {
            assert(before[i] == k);
            a_frame_selects_nothing_else(
                notes,
                offsets,
                canvas,
                around,
                base,
                count - 1,
                k,
            );
        }
    }
}

/// What is shown moves left while something is dragged at the right edge, and
/// right at the left edge: by 14 pixels at the edge and beyond it, and in
/// proportion within the 48 pixels before it.
pub proof fn scrolling_goes_by_the_nearness_of_the_edge(low: int, high: int, pointer: int)
    requires
        high - low >= 2 * 48 * 1024,
    ensures
        ({
            let delta = scroll_between(low, high, pointer);
            let over = pointer - (high - 48 * 1024);
            let under = low + 48 * 1024 - pointer;
            &&& pointer >= high ==> delta == -14 * 1024
            &&& pointer <= low ==> delta == 14 * 1024
            &&& 0 < over < 48 * 1024 ==> (-delta) * 48 <= over * 14 < (-delta + 1) * 48
            &&& 0 < under < 48 * 1024 ==> delta * 48 <= under * 14 < (delta + 1) * 48
        }),
{
}

/// A note's area begins where the note starts, and ends a pixel before the note
/// does, but no less than four pixels after its start. Above it and below it a
/// twelfth of its row is free.
pub proof fn an_area_is_as_long_as_the_note(canvas: Canvas, row: int, note: Note)
    requires
        0 <= row <= 0x2_0000_0000_0000_0000,
    ensures
        ({
            let area = canvas.area(row, note);
            let left = 33600 * canvas.origin_x + note.start_tick * canvas.ppq;
            let top = canvas.origin_y + 22 * 1024 + row * canvas.row_h;
            let long = note.duration * canvas.ppq >= 5 * 1024 * 33600;
            &&& area.left == 2 * left
            &&& long ==> area.right == 2 * (left + note.duration * canvas.ppq - 1024 * 33600)
            &&& !long ==> area.right == 2 * (left + 4 * 1024 * 33600)
            &&& area.top - 12 * top == canvas.row_h
            &&& 12 * (top + canvas.row_h) - area.bottom == canvas.row_h
        }),
{
    lemma_area_fits(canvas, row, note);
}

/// A place on the grid is shown as many quarter notes to the right of the grid's
/// left end as its tick says, and as many lanes below the ruler as it says, both
/// rounded down to the screen's units.
pub proof fn a_place_is_shown_where_it_lies(canvas: Canvas, content: (i64, i64))
    requires
        -0x100_0000_0000 <= content.0 <= 0x100_0000_0000,
        -0x100_0000_0000 <= content.1 <= 0x100_0000_0000,
        0 <= canvas.ppq <= 491520,
        0 <= canvas.row_h <= 98304,
        -0x1000_0000_0000_0000 <= canvas.origin_x <= 0x1000_0000_0000_0000,
        -0x1000_0000_0000_0000 <= canvas.origin_y <= 0x1000_0000_0000_0000,
    ensures
        ({
            let across = screen_of(canvas, content).0 - canvas.origin_x;
            let down = screen_of(canvas, content).1 - (canvas.origin_y + 22 * 1024);
            &&& across * 33600 <= content.0 * canvas.ppq < (across + 1) * 33600
            &&& down * 65536 <= content.1 * canvas.row_h < (down + 1) * 65536
        }),
{
    let (tick, part) = (content.0 as int, content.1 as int);
    let (ppq, row_h) = (canvas.ppq as int, canvas.row_h as int);
    assert(-0x800_0000_0000_0000 <= tick * ppq <= 0x800_0000_0000_0000) by (nonlinear_arith)
        requires
            -0x100_0000_0000 <= tick <= 0x100_0000_0000,
            0 <= ppq <= 491520,
    ;
    assert(-0x800_0000_0000_0000 <= part * row_h <= 0x800_0000_0000_0000) by (nonlinear_arith)
        requires
            -0x100_0000_0000 <= part <= 0x100_0000_0000,
            0 <= row_h <= 98304,
    ;
}

/// A position lies as many lanes below the ruler as its place on the grid says,
/// rounded down to parts of a lane.
pub proof fn a_height_is_told_in_lanes(canvas: Canvas, pos: (i64, i64))
    requires
        canvas.row_h > 0,
        -0x100_0000_0000 <= pos.1 - canvas.origin_y <= 0x100_0000_0000,
    ensures
        ({
            let down = pos.1 - (canvas.origin_y + 22 * 1024);
            let lanes = content_of(canvas, pos).1;
            &&& lanes * canvas.row_h <= down * 65536
            &&& down * 65536 < (lanes + 1) * canvas.row_h
            &&& content_of(canvas, pos).0 == tick_at_position(canvas, pos.0 as int)
        }),
{
    let down = (pos.1 - (canvas.origin_y + 22 * 1024)) * 65536;
    let row_h = canvas.row_h as int;
    let lanes = down / row_h;
    vstd::arithmetic::div_mod::lemma_fundamental_div_mod(down, row_h);
    assert(lanes * row_h <= down < (lanes + 1) * row_h) by (nonlinear_arith)
        requires
            down == row_h * lanes + down % row_h,
            0 <= down % row_h < row_h,
    ;
    assert(-0x1000_0000_0000_0000 <= lanes <= 0x1000_0000_0000_0000) by (nonlinear_arith)
        requires
            lanes * row_h <= down < (lanes + 1) * row_h,
            row_h > 0,
            -0x800_0000_0000_0000 <= down <= 0x800_0000_0000_0000,
    ;
}

} // verus!
