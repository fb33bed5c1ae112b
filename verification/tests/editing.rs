//! Selection, editing and undo.

use egui_clap_host::history::EditGroup;
use egui_clap_host::metrics::{
    MAX_PPQ, MAX_ROW_H, MIN_PPQ, MIN_ROW_H, PPQ, PPQ_ZOOM_PER_MILLE, ROW_H,
};
use egui_clap_host::sequencer::{Note, ScaleMode};
use egui_clap_host::state::EditorState;
use egui_clap_host::time::TICKS_PER_QUARTER;

fn t(quarters: f32) -> i64 {
    (quarters * TICKS_PER_QUARTER as f32).round() as i64
}

fn placed(start: f32, lane: usize) -> Note {
    Note {
        start_tick: t(start),
        duration: t(0.5),
        semitone: 0,
        octave: 4,
        velocity: 100,
        velocity_to: 100,
        track: 0,
        lane,
    }
}

fn pitched_at(semitone: i32, octave: i32) -> Note {
    Note { semitone, octave, ..placed(0.0, 0) }
}

fn pitch(note: &Note) -> (i32, i32) {
    (note.semitone, note.octave)
}

fn changing_the_selection_disarms_the_lane_swap() {
    let mut state = EditorState::default();
    state.editor.notes = vec![placed(0.0, 0)];

    for change in ["clear_selection", "select_single", "select_many", "select_lane"] {
        state.lane_swap_source = Some((0, 0));
        match change {
            "clear_selection" => state.clear_selection(),
            "select_single" => state.select_single(0),
            "select_many" => state.select_many(vec![0]),
            _ => state.select_lane(0, 0),
        }
        assert_eq!(state.lane_swap_source, None, "{change}");
    }
}

#[test]
fn state_changing_the_selection_disarms_the_lane_swap() {
    changing_the_selection_disarms_the_lane_swap();
}

#[test]
fn editor_ui_changing_the_selection_disarms_the_lane_swap() {
    changing_the_selection_disarms_the_lane_swap();
}

fn cc_blocks_can_be_copied_and_pasted() {
    let mut state = EditorState::default();
    state.editor.tracks[0].lanes = 1;
    state.editor.add_cc_lane(0, 64);
    state.editor.notes = vec![Note { lane: 1, velocity: 100, ..placed(1.0, 1) }];
    state.select_many(vec![0]);

    let copied = state.copy_selection().expect("something is selected");
    assert_eq!(copied.len(), 1);
    assert_eq!(copied[0].lane, 1);

    assert!(state.paste_notes(&copied, t(4.0)));
    assert_eq!(state.editor.notes.len(), 2);
    let pasted = state.editor.notes[1];
    assert_eq!(pasted.start_tick, t(4.0));
    assert_eq!(pasted.lane, 1);
    assert_eq!(pasted.velocity, 100);
    assert_eq!(state.editor.lane_cc(pasted.track, pasted.lane), Some(64));
}

#[test]
fn state_cc_blocks_can_be_copied_and_pasted() {
    cc_blocks_can_be_copied_and_pasted();
}

#[test]
fn editor_ui_cc_blocks_can_be_copied_and_pasted() {
    cc_blocks_can_be_copied_and_pasted();
}

fn copy_paste_anchors_at_playhead() {
    let mut state = EditorState::default();
    state.editor.notes = vec![placed(2.0, 1), placed(2.5, 3), placed(9.0, 0)];
    state.select_many(vec![0, 1]);

    let notes = state.copy_selection().expect("something is selected");
    state.paste_notes(&notes, t(4.0));

    assert_eq!(state.editor.notes.len(), 5);
    assert_eq!(state.editor.notes[3].start_tick, t(4.0));
    assert_eq!(state.editor.notes[3].lane, 1);
    assert_eq!(state.editor.notes[4].start_tick, t(4.5));
    assert_eq!(state.editor.notes[4].lane, 3);
    assert_eq!(state.selection, vec![3, 4]);
    assert!(!state.track_last_note);
}

#[test]
fn state_copy_paste_anchors_at_playhead() {
    copy_paste_anchors_at_playhead();
}

#[test]
fn editor_ui_copy_paste_anchors_at_playhead() {
    copy_paste_anchors_at_playhead();
}

fn align_selection_starts_to_earliest() {
    let mut state = EditorState::default();
    state.editor.notes = vec![placed(2.0, 0), placed(0.5, 1), placed(3.0, 2)];
    state.select_many(vec![0, 2]);

    assert!(state.align_selection_starts());
    assert_eq!(state.editor.notes[0].start_tick, t(2.0));
    assert_eq!(state.editor.notes[2].start_tick, t(2.0));
    assert_eq!(state.editor.notes[1].start_tick, t(0.5));

    assert!(!state.align_selection_starts());
    state.select_many(vec![1]);
    assert!(!state.align_selection_starts());
}

#[test]
fn state_align_selection_starts_to_earliest() {
    align_selection_starts_to_earliest();
}

#[test]
fn editor_ui_align_selection_starts_to_earliest() {
    align_selection_starts_to_earliest();
}

fn align_selection_ends_to_latest() {
    let mut state = EditorState::default();
    state.editor.notes = vec![placed(2.0, 0), placed(0.5, 1), placed(3.0, 2)];
    state.select_many(vec![0, 2]);

    assert!(state.align_selection_ends());
    assert_eq!(state.editor.notes[0].start_tick, t(2.0));
    assert_eq!(state.editor.notes[0].duration, t(1.5));
    assert_eq!(state.editor.notes[0].end_tick(), t(3.5));
    assert_eq!(state.editor.notes[2].duration, t(0.5));
    assert_eq!(state.editor.notes[1].duration, t(0.5));

    assert!(!state.align_selection_ends());
    state.select_many(vec![1]);
    assert!(!state.align_selection_ends());
}

#[test]
fn state_align_selection_ends_to_latest() {
    align_selection_ends_to_latest();
}

#[test]
fn editor_ui_align_selection_ends_to_latest() {
    align_selection_ends_to_latest();
}

fn row_zoom_is_clamped() {
    let mut state = EditorState::default();
    assert_eq!(state.row_h, ROW_H);

    assert_eq!(state.set_row_h(ROW_H * 2), ROW_H as i64);
    assert_eq!(state.row_h, ROW_H * 2);

    state.set_row_h(MAX_ROW_H * 10);
    assert_eq!(state.row_h, MAX_ROW_H);
    state.set_row_h(0);
    assert_eq!(state.row_h, MIN_ROW_H);
    assert_eq!(state.set_row_h(-100 * 1024), 0);
}

#[test]
fn state_row_zoom_is_clamped() {
    row_zoom_is_clamped();
}

#[test]
fn editor_ui_row_zoom_is_clamped() {
    row_zoom_is_clamped();
}

fn horizontal_zoom_is_clamped() {
    let mut state = EditorState::default();
    assert_eq!(state.ppq, PPQ);

    assert_eq!(state.set_ppq(PPQ * 2), PPQ as i64);
    assert_eq!(state.ppq, PPQ * 2);

    state.set_ppq(MAX_PPQ * 10);
    assert_eq!(state.ppq, MAX_PPQ);
    state.set_ppq(0);
    assert_eq!(state.ppq, MIN_PPQ);
    assert_eq!(state.set_ppq(-100 * 1024), 0);
}

#[test]
fn state_horizontal_zoom_is_clamped() {
    horizontal_zoom_is_clamped();
}

#[test]
fn editor_ui_horizontal_zoom_is_clamped() {
    horizontal_zoom_is_clamped();
}

fn horizontal_zoom_speed_covers_the_range_in_one_sweep() {
    let per_pixel = PPQ_ZOOM_PER_MILLE as f32 / 1000.0;

    let sweep = per_pixel.powf(900.0);
    let full_range = MAX_PPQ as f32 / MIN_PPQ as f32;
    assert!(sweep > full_range, "{sweep:.0} / {full_range:.0}");

    let nudge = per_pixel.powf(10.0);
    assert!(nudge < 1.5, "{nudge:.2}");
}

#[test]
fn state_horizontal_zoom_speed_covers_the_range_in_one_sweep() {
    horizontal_zoom_speed_covers_the_range_in_one_sweep();
}

#[test]
fn editor_ui_horizontal_zoom_speed_covers_the_range_in_one_sweep() {
    horizontal_zoom_speed_covers_the_range_in_one_sweep();
}

fn transpose_carries_into_the_octave() {
    let mut state = EditorState::default();
    state.editor.notes = vec![pitched_at(11, 4), pitched_at(0, 4)];
    state.select_many(vec![0, 1]);

    assert!(state.transpose_selection(1));
    assert_eq!(pitch(&state.editor.notes[0]), (0, 5));
    assert_eq!(pitch(&state.editor.notes[1]), (1, 4));

    assert!(state.transpose_selection(-1));
    assert_eq!(pitch(&state.editor.notes[0]), (11, 4));

    state.transpose_selection(-1);
    assert_eq!(pitch(&state.editor.notes[1]), (11, 3));
}

#[test]
fn state_transpose_carries_into_the_octave() {
    transpose_carries_into_the_octave();
}

#[test]
fn editor_ui_transpose_carries_into_the_octave() {
    transpose_carries_into_the_octave();
}

fn transpose_carries_in_bohlen_pierce() {
    let mut state = EditorState::default();
    state.editor.scale = ScaleMode::BohlenPierce13;
    state.editor.notes = vec![pitched_at(12, 4)];
    state.select_many(vec![0]);

    assert!(state.transpose_selection(1));
    assert_eq!(pitch(&state.editor.notes[0]), (0, 5));

    assert!(state.transpose_selection(13));
    assert_eq!(pitch(&state.editor.notes[0]), (0, 6));
}

#[test]
fn state_transpose_carries_in_bohlen_pierce() {
    transpose_carries_in_bohlen_pierce();
}

#[test]
fn editor_ui_transpose_carries_in_bohlen_pierce() {
    transpose_carries_in_bohlen_pierce();
}

fn transpose_clamps_to_the_octave_range() {
    let mut state = EditorState::default();
    state.editor.notes = vec![pitched_at(0, 7), pitched_at(3, 4)];
    state.select_many(vec![0, 1]);

    assert!(state.transpose_selection(12));
    assert_eq!(state.editor.notes[0].octave, 8);
    assert_eq!(state.editor.notes[1].octave, 5);

    state.transpose_selection(12);
    assert_eq!(pitch(&state.editor.notes[0]), (11, 8));
    assert_eq!(pitch(&state.editor.notes[1]), (2, 6));

    assert!(!state.transpose_selection(1));
}

#[test]
fn state_transpose_clamps_to_the_octave_range() {
    transpose_clamps_to_the_octave_range();
}

#[test]
fn editor_ui_transpose_clamps_to_the_octave_range() {
    transpose_clamps_to_the_octave_range();
}

fn velocity_wheel_changes_selection_within_range() {
    let mut state = EditorState::default();
    state.editor.notes = vec![
        Note { velocity: 100, ..placed(0.0, 0) },
        Note { velocity: 20, ..placed(1.0, 1) },
        Note { velocity: 64, ..placed(2.0, 2) },
    ];
    state.select_many(vec![0, 1]);

    assert!(state.change_selection_velocity(8));
    assert_eq!(state.editor.notes[0].velocity, 108);
    assert_eq!(state.editor.notes[1].velocity, 28);
    assert_eq!(state.editor.notes[2].velocity, 64);

    state.change_selection_velocity(100);
    assert_eq!(state.editor.notes[0].velocity, 127);
    state.change_selection_velocity(-1000);
    assert_eq!(state.editor.notes[0].velocity, 1);
    assert_eq!(state.editor.notes[1].velocity, 1);

    assert!(!state.change_selection_velocity(-5));
}

#[test]
fn state_velocity_wheel_changes_selection_within_range() {
    velocity_wheel_changes_selection_within_range();
}

#[test]
fn editor_ui_velocity_wheel_changes_selection_within_range() {
    velocity_wheel_changes_selection_within_range();
}

fn tuplet_fits_n_notes_in_two_snaps() {
    let mut state = EditorState::default();
    state.snap = t(0.5);

    state.tuplet = 1;
    assert_eq!(state.snap_unit(), t(0.5));

    for n in [3u32, 4, 5, 6, 7] {
        state.tuplet = n;
        assert_eq!(state.snap_unit() * n as i64, t(1.0), "{n}");
    }

    state.tuplet = 3;
    assert_eq!(state.snap_unit() * 3, TICKS_PER_QUARTER);
    state.tuplet = 5;
    assert_eq!(state.snap_unit(), t(0.2));
}

#[test]
fn state_tuplet_fits_n_notes_in_two_snaps() {
    tuplet_fits_n_notes_in_two_snaps();
}

#[test]
fn editor_ui_tuplet_fits_n_notes_in_two_snaps() {
    tuplet_fits_n_notes_in_two_snaps();
}

fn copied_notes_can_be_pasted_more_than_once() {
    let mut state = EditorState::default();
    state.editor.notes = vec![placed(2.0, 1), placed(2.5, 3)];
    state.select_many(vec![0, 1]);

    let copied = state.copy_selection().expect("something is selected");
    assert_eq!(copied.len(), 2);
    assert_eq!(copied[0].start_tick, t(0.0));
    assert_eq!(copied[1].start_tick, t(0.5));

    state.paste_notes(&copied, t(4.0));
    state.paste_notes(&copied, t(8.0));

    assert_eq!(state.editor.notes.len(), 6);
    assert_eq!(state.editor.notes[2].start_tick, t(4.0));
    assert_eq!(state.editor.notes[4].start_tick, t(8.0));
    assert_eq!(copied[0].start_tick, t(0.0));
}

#[test]
fn state_copied_notes_can_be_pasted_more_than_once() {
    copied_notes_can_be_pasted_more_than_once();
}

#[test]
fn editor_ui_copied_notes_can_be_pasted_more_than_once() {
    copied_notes_can_be_pasted_more_than_once();
}

fn paste_clamps_semitone_to_scale() {
    let mut state = EditorState::default();
    let notes = vec![Note { semitone: 12, ..placed(0.0, 0) }];
    state.paste_notes(&notes, t(0.0));
    assert_eq!(state.editor.notes[0].semitone, 11);
}

#[test]
fn state_paste_clamps_semitone_to_scale() {
    paste_clamps_semitone_to_scale();
}

#[test]
fn editor_ui_paste_clamps_semitone_to_scale() {
    paste_clamps_semitone_to_scale();
}

fn delete_selection_removes_only_selected() {
    let mut state = EditorState::default();
    state.editor.notes = vec![placed(0.0, 0), placed(1.0, 1), placed(2.0, 2)];
    state.select_many(vec![0, 2]);

    assert!(state.delete_selection());
    assert_eq!(state.editor.notes.len(), 1);
    assert_eq!(state.editor.notes[0].start_tick, t(1.0));
    assert!(state.selection.is_empty());
}

#[test]
fn state_delete_selection_removes_only_selected() {
    delete_selection_removes_only_selected();
}

#[test]
fn editor_ui_delete_selection_removes_only_selected() {
    delete_selection_removes_only_selected();
}

fn only_direct_selection_tracks_last_note() {
    let mut state = EditorState::default();
    state.editor.notes = vec![placed(0.0, 0), placed(1.0, 1)];

    state.select_single(1);
    assert!(state.track_last_note);
    assert_eq!(state.selected, Some(1));

    state.select_many(vec![0]);
    assert_eq!(state.selected, Some(0));
    assert!(!state.track_last_note);
}

#[test]
fn state_only_direct_selection_tracks_last_note() {
    only_direct_selection_tracks_last_note();
}

#[test]
fn editor_ui_only_direct_selection_tracks_last_note() {
    only_direct_selection_tracks_last_note();
}

fn undo_groups_a_drag_into_one_step() {
    let mut state = EditorState::default();
    state.editor.notes = vec![placed(1.0, 0)];
    state.history.end_frame(&state.editor);

    for start in [1.5, 2.0] {
        state.editor.notes[0].start_tick = t(start);
        state.history.record(EditGroup::Move);
        state.history.end_frame(&state.editor);
    }
    state.history.end_group();

    assert!(state.history.can_undo());
    assert!(state.history.undo(&mut state.editor));
    assert_eq!(state.editor.notes[0].start_tick, t(1.0));
    assert!(!state.history.can_undo());

    assert!(state.history.redo(&mut state.editor));
    assert_eq!(state.editor.notes[0].start_tick, t(2.0));
}

#[test]
fn state_undo_groups_a_drag_into_one_step() {
    undo_groups_a_drag_into_one_step();
}

#[test]
fn editor_ui_undo_groups_a_drag_into_one_step() {
    undo_groups_a_drag_into_one_step();
}

fn undo_handles_discrete_edits() {
    let mut state = EditorState::default();
    state.history.end_frame(&state.editor);

    for start in [0.0, 1.0] {
        state.history.record(EditGroup::Once);
        state.editor.notes.push(placed(start, 0));
        state.history.end_frame(&state.editor);
    }
    assert_eq!(state.editor.notes.len(), 2);

    state.history.undo(&mut state.editor);
    assert_eq!(state.editor.notes.len(), 1);
    assert!(state.history.can_redo());

    state.history.record(EditGroup::Once);
    state.editor.notes.push(placed(5.0, 0));
    state.history.end_frame(&state.editor);
    assert!(!state.history.can_redo());

    state.history.undo(&mut state.editor);
    assert_eq!(state.editor.notes.len(), 1);
    state.history.undo(&mut state.editor);
    assert!(state.editor.notes.is_empty());
}

#[test]
fn state_undo_handles_discrete_edits() {
    undo_handles_discrete_edits();
}

#[test]
fn editor_ui_undo_handles_discrete_edits() {
    undo_handles_discrete_edits();
}

fn undo_restores_scale_mode() {
    let mut state = EditorState::default();
    state.editor.notes = vec![Note { semitone: 11, ..placed(0.0, 0) }];
    state.history.end_frame(&state.editor);

    state.history.record(EditGroup::Once);
    state.editor.scale = ScaleMode::BohlenPierce13;
    state.history.end_frame(&state.editor);

    state.history.undo(&mut state.editor);
    assert_eq!(state.editor.scale, ScaleMode::Equal12);
    assert_eq!(state.editor.notes[0].semitone, 11);
}

#[test]
fn state_undo_restores_scale_mode() {
    undo_restores_scale_mode();
}

#[test]
fn editor_ui_undo_restores_scale_mode() {
    undo_restores_scale_mode();
}
