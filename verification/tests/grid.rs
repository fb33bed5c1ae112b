//! Places on the grid: rows, areas of notes, dragging, seeking and zooming.

use egui_clap_host::canvas::{
    edge_scroll_delta, hit_note, horizontal_offset_for_anchor, is_inside_lanes, note_area, Area,
    Canvas, Hit, Visible, RULER_HEIGHT, SUBPIXELS, UNITS_ACROSS, UNITS_DOWN,
};
use egui_clap_host::geometry::{move_delta, resize_delta, seek_target};
use egui_clap_host::levels::{velocity_fill_rect, velocity_ramp_points};
use egui_clap_host::metrics::{MIN_PPQ, MIN_ROW_H, PPQ, ROW_H};
use egui_clap_host::sequencer::{MidiEditor, Note};
use egui_clap_host::time::TICKS_PER_QUARTER;

fn t(quarters: f32) -> i64 {
    (quarters * TICKS_PER_QUARTER as f32).round() as i64
}

fn px(pixels: f32) -> i64 {
    (pixels * SUBPIXELS as f32).round() as i64
}

fn across(pixels: i128) -> i128 {
    pixels * SUBPIXELS as i128 * UNITS_ACROSS
}

fn down(pixels: i128) -> i128 {
    pixels * SUBPIXELS as i128 * UNITS_DOWN
}

const RULER: i128 = 22;
const ROW: i128 = 24;

fn canvas(ppq: i32, row_h: i32) -> Canvas {
    Canvas { origin_x: 0, origin_y: 0, ppq, row_h }
}

fn viewport() -> Visible {
    Visible { left: 0, right: px(1000.0), top: 0, bottom: px(400.0) }
}

fn placed(start: f32, lane: usize) -> Note {
    Note {
        start_tick: t(start),
        duration: t(0.5),
        semitone: 0,
        octave: 4,
        velocity: 100,
        velocity_to: 100,
        track: 0,
        lane,
    }
}

fn single_track_rows() -> Vec<usize> {
    vec![0]
}

fn single_track_editor() -> MidiEditor {
    let mut editor = MidiEditor::default();
    editor.tracks[0].lanes = 16;
    editor
}

fn editor_with_cc_lanes() -> MidiEditor {
    let mut editor = single_track_editor();
    editor.tracks[0].set_lane_cc(14, Some(64));
    editor.tracks[0].set_lane_cc(15, Some(1));
    editor
}

fn moved(
    targets: &Vec<(usize, Note)>,
    editor: &MidiEditor,
    dx: f32,
    rows: i32,
) -> (i64, i32) {
    move_delta(targets, &single_track_rows(), editor, t(dx), rows, t(0.25), 16)
}

fn bulk_move_keeps_relative_positions() {
    let targets = vec![(0, placed(1.0, 2)), (1, placed(1.1, 3))];
    let (dx, d_lane) = moved(&targets, &single_track_editor(), 0.6, 1);
    assert_eq!(dx, t(0.5));
    assert_eq!(d_lane, 1);
}

#[test]
fn geometry_bulk_move_keeps_relative_positions() {
    bulk_move_keeps_relative_positions();
}

#[test]
fn editor_ui_bulk_move_keeps_relative_positions() {
    bulk_move_keeps_relative_positions();
}

fn notes_stop_above_the_cc_lanes() {
    let editor = editor_with_cc_lanes();
    let targets = vec![(0, placed(1.0, 10))];

    let (_, d_lane) = moved(&targets, &editor, 0.0, 5);
    assert_eq!(d_lane, 3);

    let (_, d_lane) = moved(&targets, &editor, 0.0, -4);
    assert_eq!(d_lane, -4);
}

#[test]
fn geometry_notes_stop_above_the_cc_lanes() {
    notes_stop_above_the_cc_lanes();
}

#[test]
fn editor_ui_notes_stop_above_the_cc_lanes() {
    notes_stop_above_the_cc_lanes();
}

fn cc_notes_cannot_leave_their_lane() {
    let editor = editor_with_cc_lanes();
    let targets = vec![(0, placed(1.0, 14))];

    for requested in [-1, 1, -5, 5] {
        let (dx, d_lane) = moved(&targets, &editor, 0.5, requested);
        assert_eq!(d_lane, 0, "{requested}");
        assert_eq!(dx, t(0.5));
    }
}

#[test]
fn geometry_cc_notes_cannot_leave_their_lane() {
    cc_notes_cannot_leave_their_lane();
}

#[test]
fn editor_ui_cc_notes_cannot_leave_their_lane() {
    cc_notes_cannot_leave_their_lane();
}

fn bulk_move_clamps_to_bounds() {
    let targets = vec![(0, placed(1.0, 1)), (1, placed(0.5, 15))];
    let (dx, _) = moved(&targets, &single_track_editor(), -5.0, 0);
    assert_eq!(dx, t(-0.5));

    let (_, d_lane) = moved(&targets, &single_track_editor(), 0.0, 5);
    assert_eq!(d_lane, 0);

    let (_, d_lane) = moved(&targets, &single_track_editor(), 0.0, -5);
    assert_eq!(d_lane, -1);
}

#[test]
fn geometry_bulk_move_clamps_to_bounds() {
    bulk_move_clamps_to_bounds();
}

#[test]
fn editor_ui_bulk_move_clamps_to_bounds() {
    bulk_move_clamps_to_bounds();
}

fn notes_are_created_only_inside_the_lanes() {
    let content_h = RULER_HEIGHT + 2 * ROW_H as i64;
    let pixel = SUBPIXELS;

    assert!(!is_inside_lanes(0, RULER_HEIGHT - pixel, content_h));
    assert!(is_inside_lanes(0, RULER_HEIGHT + pixel, content_h));
    assert!(is_inside_lanes(0, content_h - pixel, content_h));
    assert!(!is_inside_lanes(0, content_h + pixel, content_h));

    let moved = px(100.0);
    assert!(is_inside_lanes(moved, moved + RULER_HEIGHT + pixel, content_h));
    assert!(!is_inside_lanes(moved, moved + content_h + pixel, content_h));
}

#[test]
fn geometry_notes_are_created_only_inside_the_lanes() {
    notes_are_created_only_inside_the_lanes();
}

#[test]
fn editor_ui_notes_are_created_only_inside_the_lanes() {
    notes_are_created_only_inside_the_lanes();
}

fn horizontal_zoom_keeps_the_anchor_on_screen() {
    let viewport_left = px(200.0);
    let anchor = t(12.0);
    let ppq = 40 * 1024;

    let anchor_x = viewport_left + px(150.0);

    for new_ppq in [ppq * 2, ppq / 2, ppq * 8, ppq] {
        let offset = horizontal_offset_for_anchor(viewport_left, anchor_x, anchor, new_ppq);
        let origin_x = viewport_left - offset;
        let shown_x = origin_x + 12 * new_ppq as i64;
        assert_eq!(shown_x, anchor_x, "{new_ppq}");
    }
}

#[test]
fn geometry_horizontal_zoom_keeps_the_anchor_on_screen() {
    horizontal_zoom_keeps_the_anchor_on_screen();
}

#[test]
fn editor_ui_horizontal_zoom_keeps_the_anchor_on_screen() {
    horizontal_zoom_keeps_the_anchor_on_screen();
}

fn horizontal_zoom_offset_never_goes_negative() {
    let offset = horizontal_offset_for_anchor(0, px(500.0), t(1.0), 10 * 1024);
    assert_eq!(offset, 0);
}

#[test]
fn geometry_horizontal_zoom_offset_never_goes_negative() {
    horizontal_zoom_offset_never_goes_negative();
}

#[test]
fn editor_ui_horizontal_zoom_offset_never_goes_negative() {
    horizontal_zoom_offset_never_goes_negative();
}

fn height(area: &Area) -> i128 {
    area.bottom - area.top
}

fn width(area: &Area) -> i128 {
    area.right - area.left
}

fn note_rect_follows_the_row_height() {
    let note = placed(0.0, 1);

    let normal = note_area(&canvas(PPQ, ROW_H), 1, &note);
    assert_eq!(normal.top, down(RULER + ROW + 2));
    assert_eq!(height(&normal), down(ROW - 4));

    let zoomed = note_area(&canvas(PPQ, ROW_H * 2), 1, &note);
    assert_eq!(zoomed.top, down(RULER + ROW * 2 + 4));
    assert_eq!(height(&zoomed), down((ROW - 4) * 2));
    assert_eq!(width(&zoomed), width(&normal));

    assert!(height(&note_area(&canvas(PPQ, MIN_ROW_H), 0, &note)) > 0);
}

#[test]
fn geometry_note_rect_follows_the_row_height() {
    note_rect_follows_the_row_height();
}

#[test]
fn editor_ui_note_rect_follows_the_row_height() {
    note_rect_follows_the_row_height();
}

fn note_rect_follows_the_horizontal_zoom() {
    let note = placed(2.0, 0);

    let normal = note_area(&canvas(PPQ, ROW_H), 0, &note);
    let zoomed = note_area(&canvas(PPQ * 2, ROW_H), 0, &note);

    assert_eq!(zoomed.left, normal.left * 2);
    assert_eq!(width(&zoomed), width(&normal) * 2 + across(1));
    assert_eq!(zoomed.top, normal.top);
    assert_eq!(height(&zoomed), height(&normal));

    assert!(width(&note_area(&canvas(MIN_PPQ, ROW_H), 0, &note)) > 0);
}

#[test]
fn geometry_note_rect_follows_the_horizontal_zoom() {
    note_rect_follows_the_horizontal_zoom();
}

#[test]
fn editor_ui_note_rect_follows_the_horizontal_zoom() {
    note_rect_follows_the_horizontal_zoom();
}

fn hit_note_follows_the_row_height() {
    let notes = vec![placed(0.0, 1)];
    let rows = single_track_rows();
    let tall = ROW_H * 3;

    let inside = (px(4.0), RULER_HEIGHT + tall as i64 * 3 / 2);
    assert_eq!(
        hit_note(&notes, &rows, &canvas(PPQ, tall), inside, false),
        Some((0, Hit::Body))
    );
    assert_eq!(hit_note(&notes, &rows, &canvas(PPQ, ROW_H), inside, false), None);
}

#[test]
fn geometry_hit_note_follows_the_row_height() {
    hit_note_follows_the_row_height();
}

#[test]
fn editor_ui_hit_note_follows_the_row_height() {
    hit_note_follows_the_row_height();
}

fn hit_note_edges_split_at_center() {
    let notes = vec![Note { duration: t(0.25), ..placed(0.0, 0) }];
    let rows = single_track_rows();
    let canvas = canvas(PPQ, ROW_H);
    let y = RULER_HEIGHT + ROW_H as i64 / 2;
    let left = (px(2.0), y);
    let right = (px(17.0), y);

    assert_eq!(hit_note(&notes, &rows, &canvas, left, false), Some((0, Hit::Body)));
    assert_eq!(
        hit_note(&notes, &rows, &canvas, right, false),
        Some((0, Hit::ResizeRight))
    );
    assert_eq!(
        hit_note(&notes, &rows, &canvas, left, true),
        Some((0, Hit::ResizeLeft))
    );
    assert_eq!(
        hit_note(&notes, &rows, &canvas, right, true),
        Some((0, Hit::ResizeRight))
    );
}

#[test]
fn geometry_hit_note_edges_split_at_center() {
    hit_note_edges_split_at_center();
}

#[test]
fn editor_ui_hit_note_edges_split_at_center() {
    hit_note_edges_split_at_center();
}

fn velocity_fill_grows_from_the_bottom() {
    let rect = Area { left: across(10), right: across(30), top: down(100), bottom: down(120) };

    let full = velocity_fill_rect(&rect, 127);
    assert_eq!(full, rect);

    let half = velocity_fill_rect(&rect, 64);
    assert_eq!(half.bottom, rect.bottom);
    let pixels = height(&half) as f64 / (SUBPIXELS as f64 * UNITS_DOWN as f64);
    assert!((pixels - 20.0 * 64.0 / 127.0).abs() < 1e-4, "{pixels}");

    let min = velocity_fill_rect(&rect, 1);
    assert_eq!(width(&min), width(&rect));
    assert!(height(&min) > 0);
}

#[test]
fn geometry_velocity_fill_grows_from_the_bottom() {
    velocity_fill_grows_from_the_bottom();
}

#[test]
fn editor_ui_velocity_fill_grows_from_the_bottom() {
    velocity_fill_grows_from_the_bottom();
}

#[test]
fn a_ramp_has_the_heights_of_both_velocities() {
    let rect = Area { left: 0, right: 10, top: 0, bottom: 127 };
    let points = velocity_ramp_points(&rect, 27, 200);
    assert_eq!(points, vec![(0, 100), (10, 0), (10, 127), (0, 127)]);
}

fn seek_snaps_to_beats_so_bar_lines_are_reachable() {
    assert_eq!(seek_target(t(2.2), t(1.0), None, false), t(2.0));
    assert_eq!(seek_target(t(2.6), t(1.0), None, false), t(3.0));

    assert_eq!(seek_target(t(1.4), t(0.5), None, false), t(1.5));
    assert_eq!(seek_target(t(2.9), t(0.5), None, false), t(3.0));

    assert_eq!(seek_target(t(1.4), t(0.5), None, true), t(1.4));

    assert_eq!(seek_target(t(1.42), t(0.5), Some(t(1.4)), false), t(1.4));
    assert_eq!(seek_target(t(1.49), t(0.5), Some(t(1.2)), false), t(1.5));

    assert_eq!(seek_target(t(-3.0), t(1.0), None, false), 0);
}

#[test]
fn geometry_seek_snaps_to_beats_so_bar_lines_are_reachable() {
    seek_snaps_to_beats_so_bar_lines_are_reachable();
}

#[test]
fn editor_ui_seek_snaps_to_beats_so_bar_lines_are_reachable() {
    seek_snaps_to_beats_so_bar_lines_are_reachable();
}

fn resize_moves_every_edge_by_the_same_amount() {
    let targets = vec![
        (0, Note { duration: t(1.5), ..placed(2.0, 0) }),
        (1, Note { duration: t(3.0), ..placed(0.5, 1) }),
    ];

    let dx = resize_delta(&targets, t(0.5), t(0.25), false);
    assert_eq!(dx, t(0.5));
    let ends: Vec<i64> = targets.iter().map(|(_, n)| n.end_tick() + dx).collect();
    assert_eq!(ends, vec![t(4.0), t(4.0)]);

    let dx = resize_delta(&targets, t(-10.0), t(0.25), false);
    assert_eq!(dx, t(0.25) - t(1.5));
}

#[test]
fn geometry_resize_moves_every_edge_by_the_same_amount() {
    resize_moves_every_edge_by_the_same_amount();
}

#[test]
fn editor_ui_resize_moves_every_edge_by_the_same_amount() {
    resize_moves_every_edge_by_the_same_amount();
}

fn left_resize_moves_heads_and_keeps_ends() {
    let targets = vec![
        (0, Note { duration: t(1.0), ..placed(1.0, 0) }),
        (1, Note { duration: t(2.0), ..placed(0.5, 1) }),
    ];

    let dx = resize_delta(&targets, t(-0.5), t(0.25), true);
    assert_eq!(dx, t(-0.5));
    let ends: Vec<i64> = targets
        .iter()
        .map(|(_, n)| (n.start_tick + dx) + (n.duration - dx))
        .collect();
    assert_eq!(ends, vec![t(2.0), t(2.5)]);

    let dx = resize_delta(&targets, t(-5.0), t(0.25), true);
    assert_eq!(dx, t(-0.5));

    let dx = resize_delta(&targets, t(10.0), t(0.25), true);
    assert_eq!(dx, t(1.0) - t(0.25));
}

#[test]
fn geometry_left_resize_moves_heads_and_keeps_ends() {
    left_resize_moves_heads_and_keeps_ends();
}

#[test]
fn editor_ui_left_resize_moves_heads_and_keeps_ends() {
    left_resize_moves_heads_and_keeps_ends();
}

fn no_edge_scroll_in_the_middle() {
    let delta = edge_scroll_delta(&viewport(), (px(500.0), px(200.0)), true);
    assert_eq!(delta, (0, 0));
}

#[test]
fn geometry_no_edge_scroll_in_the_middle() {
    no_edge_scroll_in_the_middle();
}

#[test]
fn editor_ui_no_edge_scroll_in_the_middle() {
    no_edge_scroll_in_the_middle();
}

fn edge_scroll_direction() {
    let right = edge_scroll_delta(&viewport(), (px(995.0), px(200.0)), true);
    assert!(right.0 < 0, "{right:?}");
    assert_eq!(right.1, 0);

    let left = edge_scroll_delta(&viewport(), (px(5.0), px(200.0)), true);
    assert!(left.0 > 0, "{left:?}");

    let bottom = edge_scroll_delta(&viewport(), (px(500.0), px(398.0)), true);
    assert!(bottom.1 < 0, "{bottom:?}");
}

#[test]
fn geometry_edge_scroll_direction() {
    edge_scroll_direction();
}

#[test]
fn editor_ui_edge_scroll_direction() {
    edge_scroll_direction();
}

fn edge_scroll_accelerates_toward_edge() {
    let shallow = edge_scroll_delta(&viewport(), (px(960.0), px(200.0)), true);
    let deep = edge_scroll_delta(&viewport(), (px(999.0), px(200.0)), true);
    assert!(deep.0 < shallow.0, "{shallow:?} {deep:?}");
}

#[test]
fn geometry_edge_scroll_accelerates_toward_edge() {
    edge_scroll_accelerates_toward_edge();
}

#[test]
fn editor_ui_edge_scroll_accelerates_toward_edge() {
    edge_scroll_accelerates_toward_edge();
}

fn edge_scroll_horizontal_only_when_requested() {
    let delta = edge_scroll_delta(&viewport(), (px(500.0), px(398.0)), false);
    assert_eq!(delta.1, 0);
}

#[test]
fn geometry_edge_scroll_horizontal_only_when_requested() {
    edge_scroll_horizontal_only_when_requested();
}

#[test]
fn editor_ui_edge_scroll_horizontal_only_when_requested() {
    edge_scroll_horizontal_only_when_requested();
}
