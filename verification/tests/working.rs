//! Working with the editor: the mouse, the keys, the toolbar and the gutter.

use egui_clap_host::canvas::{
    framed_notes, row_at, tick_at, to_content_pos, to_screen_pos, Area, Canvas, RULER_HEIGHT,
};
use egui_clap_host::geometry::{note_row, row_to_track_lane, track_row_offsets};
use egui_clap_host::gutter::{cc_name, common_ccs, zero_is_not_neutral, Strip, Switch};
use egui_clap_host::labels::{is_in_view, note_label};
use egui_clap_host::metrics::{MAX_PPQ, MIN_ROW_H, PPQ, ROW_H};
use egui_clap_host::playback::EditorCommand;
use egui_clap_host::sequencer::{LaneKind, MidiEditor, Note, ScaleMode, TrackInfo};
use egui_clap_host::shortcuts::{arrow_steps, Shortcuts};
use egui_clap_host::state::{EditorState, MiddleDrag};
use egui_clap_host::time::TICKS_PER_QUARTER;
use egui_clap_host::toolbar::{
    snap_label, swing_applies, tuplet_label, waltz_applies, Detail, Shown,
};

fn t(quarters: f32) -> i64 {
    (quarters * TICKS_PER_QUARTER as f32).round() as i64
}

fn placed(start: f32, lane: usize) -> Note {
    Note {
        start_tick: t(start),
        duration: t(0.5),
        semitone: 0,
        octave: 4,
        velocity: 100,
        velocity_to: 100,
        track: 0,
        lane,
    }
}

/// A state with four lanes and the notes, and nothing to take back.
fn working(notes: Vec<Note>) -> EditorState {
    let mut state = EditorState::default();
    state.editor.tracks[0].lanes = 4;
    state.editor.notes = notes;
    state.history.end_frame(&state.editor);
    state
}

const CANVAS: Canvas = Canvas { origin_x: 0, origin_y: 0, ppq: PPQ, row_h: ROW_H };

/// The place on the screen of a tick in the middle of a lane.
fn at(quarters: f32, lane: usize) -> (i64, i64) {
    (
        (quarters * PPQ as f32) as i64,
        RULER_HEIGHT + lane as i64 * ROW_H as i64 + ROW_H as i64 / 2,
    )
}

fn no_keys() -> Shortcuts {
    Shortcuts {
        copy: false,
        cut: false,
        paste: false,
        undo: false,
        redo: false,
        delete: false,
        align_head: false,
        align_tail: false,
        transpose: 0,
        save: false,
    }
}

fn starts(state: &EditorState) -> Vec<i64> {
    state.editor.notes.iter().map(|note| note.start_tick).collect()
}

#[test]
fn a_drag_moves_all_selected_notes() {
    let mut state = working(vec![placed(1.0, 0), placed(1.75, 1), placed(3.0, 2)]);
    state.select_many(vec![0, 1]);
    state.begin_drag(&CANVAS, at(1.1, 0), false);
    assert_eq!(state.drag_to(&CANVAS, at(2.1, 1), false), None);
    assert_eq!(starts(&state), vec![t(2.0), t(2.75), t(3.0)]);
    let lanes: Vec<usize> = state.editor.notes.iter().map(|note| note.lane).collect();
    assert_eq!(lanes, vec![1, 2, 2]);
    state.end_drag();
    assert!(state.drag.is_none() && state.dirty);
}

#[test]
fn a_drag_of_the_right_end_changes_the_length() {
    let mut state = working(vec![placed(1.0, 0)]);
    state.begin_drag(&CANVAS, at(1.47, 0), false);
    state.drag_to(&CANVAS, at(1.97, 0), false);
    assert_eq!(state.editor.notes[0].start_tick, t(1.0));
    assert_eq!(state.editor.notes[0].duration, t(1.0));
}

#[test]
fn a_drag_of_the_left_end_keeps_the_end() {
    let mut state = working(vec![placed(1.0, 0)]);
    state.left_resize = true;
    state.begin_drag(&CANVAS, at(1.02, 0), false);
    state.drag_to(&CANVAS, at(0.52, 0), false);
    assert_eq!(state.editor.notes[0].start_tick, t(0.5));
    assert_eq!(state.editor.notes[0].end_tick(), t(1.5));
}

#[test]
fn a_frame_selects_what_it_meets() {
    let mut state = working(vec![placed(1.0, 0), placed(2.0, 1), placed(3.0, 3)]);
    state.begin_drag(&CANVAS, at(0.5, 0), false);
    state.drag_to(&CANVAS, at(2.2, 2), false);
    assert_eq!(state.selection, vec![0, 1]);
    assert_eq!(starts(&state), vec![t(1.0), t(2.0), t(3.0)]);
}

#[test]
fn a_frame_keeps_the_base() {
    let notes = vec![placed(1.0, 0), placed(2.0, 1)];
    let nothing = Area { left: 0, right: 0, top: 0, bottom: 0 };
    assert_eq!(framed_notes(&notes, &vec![0], &CANVAS, &nothing, &vec![1]), vec![1]);
}

#[test]
fn a_drag_on_the_ruler_seeks() {
    let mut state = working(vec![]);
    state.begin_drag(&CANVAS, (0, 0), false);
    assert_eq!(state.drag_to(&CANVAS, ((2.2 * PPQ as f32) as i64, 0), false), Some(t(2.0)));
}

#[test]
fn clicks_select() {
    let mut state = working(vec![placed(1.0, 0), placed(2.0, 1)]);
    assert_eq!(state.click(&CANVAS, at(1.2, 0), false, false), None);
    assert_eq!(state.selection, vec![0]);
    state.click(&CANVAS, at(2.2, 1), true, false);
    assert_eq!(state.selection_sorted(), vec![0, 1]);
    state.click(&CANVAS, at(2.2, 1), true, false);
    assert_eq!(state.selection, vec![0]);
    state.click(&CANVAS, at(5.0, 3), false, false);
    assert!(state.selection.is_empty());
    assert_eq!(
        state.click(&CANVAS, ((0.9 * PPQ as f32) as i64, 10), false, false),
        Some(t(1.0))
    );
}

#[test]
fn a_double_click_makes_a_note_on_the_grid() {
    let mut state = working(vec![]);
    state.double_click(&CANVAS, at(1.3, 2));
    assert_eq!(state.editor.notes.len(), 1);
    assert_eq!(state.editor.notes[0].start_tick, t(1.25));
    assert_eq!(state.editor.notes[0].lane, 2);
    assert_eq!(state.selected, Some(0));

    state.double_click(&CANVAS, at(1.3, 2));
    assert_eq!(state.editor.notes.len(), 1);

    state.tuplet = 3;
    state.double_click(&CANVAS, at(3.0, 0));
    assert_eq!(state.editor.notes[1].duration, state.snap_unit());
}

#[test]
fn a_new_note_takes_over_what_was_pointed_at() {
    let mut state = working(vec![Note { semitone: 7, velocity: 30, ..placed(1.0, 0) }]);
    state.select_single(0);
    state.remember_note();
    state.double_click(&CANVAS, at(3.0, 1));
    let made = state.editor.notes[1];
    assert_eq!((made.semitone, made.velocity, made.duration), (7, 30, t(0.5)));
}

#[test]
fn the_other_button_deletes() {
    let mut state = working(vec![placed(1.0, 0), placed(2.0, 1), placed(3.0, 2)]);
    state.select_many(vec![0, 1]);
    state.secondary_click(&CANVAS, at(3.2, 2));
    assert_eq!(starts(&state), vec![t(1.0), t(2.0)]);
    state.select_many(vec![0, 1]);
    state.secondary_click(&CANVAS, at(2.2, 1));
    assert!(state.editor.notes.is_empty());
}

#[test]
fn places_lead_back_and_forth() {
    let content = to_content_pos(&CANVAS, at(2.5, 3));
    assert_eq!(to_screen_pos(&CANVAS, content), at(2.5, 3));
    assert_eq!(row_at(&CANVAS, 4, at(0.0, 2).1), 2);
    assert_eq!(row_at(&CANVAS, 4, at(0.0, 9).1), 3);
    assert_eq!(tick_at(&CANVAS, PPQ as i64 * 3), t(3.0));
}

#[test]
fn rows_lead_back_to_lanes() {
    let mut editor = MidiEditor::default();
    editor.tracks = vec![TrackInfo::new(0), TrackInfo::new(1), TrackInfo::new(2)];
    editor.tracks[0].lanes = 2;
    editor.tracks[2].lanes = 3;
    let offsets = track_row_offsets(&editor);
    assert_eq!(offsets, vec![0, 2, 3]);
    for row in 0..6 {
        let (track, lane) = row_to_track_lane(&offsets, &editor, row);
        assert_eq!(note_row(&offsets, &Note { track, lane, ..placed(0.0, 0) }), row);
    }
}

#[test]
fn the_wheel_changes_velocities() {
    let mut state = working(vec![placed(1.0, 0)]);
    state.select_single(0);
    state.turn_velocity(1000);
    assert_eq!(state.editor.notes[0].velocity, 104);
    state.turn_velocity(-2000);
    assert_eq!(state.editor.notes[0].velocity, 96);
}

#[test]
fn a_middle_drag_does_not_change() {
    let mut state = working(vec![]);
    state.hold_middle(true, false, false, 0);
    assert_eq!(state.middle_drag, None);
    state.hold_middle(true, true, true, t(3.0));
    let zoom = Some(MiddleDrag::ZoomHorizontally { anchor_tick: t(3.0) });
    assert_eq!(state.middle_drag, zoom);
    state.hold_middle(true, true, false, t(9.0));
    assert_eq!(state.middle_drag, zoom);
    state.hold_middle(false, true, false, 0);
    assert_eq!(state.middle_drag, None);
}

#[test]
fn zooming_stays_within_limits() {
    let mut state = working(vec![]);
    state.hold_middle(true, true, true, t(2.0));
    state.zoom_across(MAX_PPQ * 3, 0, 0);
    assert_eq!(state.ppq, MAX_PPQ);
    assert!(state.pending_scroll_x.is_some());
    state.zoom_rows(1, 0);
    assert_eq!(state.row_h, MIN_ROW_H);
}

#[test]
fn stopping_goes_back_to_the_start() {
    let mut state = working(vec![]);
    let mut commands = Vec::new();
    state.start_playback(t(3.0), false, None, &mut commands);
    assert!(matches!(commands.last(), Some(EditorCommand::Play)));
    state.start_playback(t(5.0), true, None, &mut commands);
    commands.clear();
    state.stop_playback(&mut commands);
    assert!(commands
        .iter()
        .any(|command| matches!(command, EditorCommand::Seek { tick } if *tick == t(3.0))));
    assert!(commands.iter().any(|command| matches!(command, EditorCommand::Stop)));
}

#[test]
fn playback_that_ends_goes_back_too() {
    let mut state = working(vec![]);
    let mut commands = Vec::new();
    state.press_space(false, true, false, t(1.0), &mut commands);
    state.begin_frame(true, &mut commands);
    commands.clear();
    state.begin_frame(false, &mut commands);
    assert!(matches!(commands[0], EditorCommand::Seek { tick } if tick == t(1.0)));
}

#[test]
fn a_frame_leaves_nothing_unsent() {
    let mut state = working(vec![]);
    let mut commands = vec![EditorCommand::Play];
    state.dirty = true;
    state.end_frame(&mut commands);
    assert!(matches!(commands[0], EditorCommand::Commit));
    assert!(matches!(commands[1], EditorCommand::Play));
    assert!(!state.dirty);
}

#[test]
fn the_arrows_transpose() {
    assert_eq!(arrow_steps(true, false, false, false, ScaleMode::Equal12), 12);
    assert_eq!(arrow_steps(false, true, false, false, ScaleMode::BohlenPierce13), -13);
    assert_eq!(arrow_steps(false, false, true, false, ScaleMode::Equal12), 1);
    assert_eq!(arrow_steps(false, false, false, true, ScaleMode::Equal12), -1);
}

#[test]
fn keys_edit_and_undo_takes_it_back() {
    let mut state = working(vec![placed(1.0, 0), placed(2.0, 1)]);
    let mut commands = Vec::new();
    state.select_many(vec![0, 1]);

    let keys = Shortcuts { transpose: 12, ..no_keys() };
    assert!(!state.apply_shortcuts(&keys, 0, &mut commands));
    assert_eq!(state.editor.notes[0].octave, 5);
    state.end_frame(&mut commands);

    state.apply_shortcuts(&Shortcuts { undo: true, ..no_keys() }, 0, &mut commands);
    assert_eq!(state.editor.notes[0].octave, 4);
    state.end_frame(&mut commands);
    state.apply_shortcuts(&Shortcuts { redo: true, ..no_keys() }, 0, &mut commands);
    assert_eq!(state.editor.notes[0].octave, 5);
}

#[test]
fn notes_are_copied_cut_and_pasted() {
    let mut state = working(vec![placed(1.0, 0), placed(2.0, 1)]);
    let mut commands = Vec::new();
    state.select_many(vec![1]);
    assert!(state.apply_shortcuts(&Shortcuts { copy: true, ..no_keys() }, 0, &mut commands));
    state.apply_shortcuts(&Shortcuts { paste: true, ..no_keys() }, t(6.0), &mut commands);
    assert_eq!(starts(&state), vec![t(1.0), t(2.0), t(6.0)]);

    state.select_many(vec![0]);
    assert!(state.apply_shortcuts(&Shortcuts { cut: true, ..no_keys() }, 0, &mut commands));
    assert_eq!(starts(&state), vec![t(2.0), t(6.0)]);

    state.select_many(vec![0]);
    state.apply_shortcuts(&Shortcuts { delete: true, ..no_keys() }, 0, &mut commands);
    assert_eq!(starts(&state), vec![t(6.0)]);

    commands.clear();
    state.apply_shortcuts(&Shortcuts { save: true, ..no_keys() }, 0, &mut commands);
    assert!(matches!(commands[0], EditorCommand::SaveProject));
}

#[test]
fn settings_are_held_in_their_ranges() {
    let mut state = working(vec![Note { semitone: 12, ..placed(0.0, 0) }]);
    state.set_tempo(1000);
    assert_eq!(state.editor.tempo, 300);
    state.set_tempo(1);
    assert_eq!(state.editor.tempo, 20);
    state.set_beats(0);
    assert_eq!(state.editor.beats, 1);
    state.set_beats(99);
    assert_eq!(state.editor.beats, 16);
    state.set_beat_type(8);
    assert_eq!(state.editor.beat_type, 8);
    state.set_beat_type(7);
    assert_eq!(state.editor.beat_type, 8);

    state.set_scale(ScaleMode::BohlenPierce13);
    assert_eq!(state.editor.notes[0].semitone, 12);
    state.set_scale(ScaleMode::Equal12);
    assert_eq!(state.editor.notes[0].semitone, 11);
    let mut commands = Vec::new();
    state.set_looping(true, &mut commands);
    assert!(state.looping);
    assert!(matches!(commands[0], EditorCommand::SetLoop(true)));
}

#[test]
fn details_of_one_note_are_shown() {
    let mut state = working(vec![placed(0.0, 0), placed(1.0, 0)]);
    assert_eq!(state.show_detail(), Shown::Nothing);
    state.select_single(1);
    assert_eq!(state.show_detail(), Shown::Note(1));
    state.set_detail(Detail::Semitone(5));
    state.set_detail(Detail::Octave(6));
    state.set_detail(Detail::Velocity(77));
    let note = state.editor.notes[1];
    assert_eq!((note.semitone, note.octave, note.velocity), (5, 6, 77));
    state.leave_detail();
    state.select_many(vec![0, 1]);
    assert_eq!(state.show_detail(), Shown::Many(2));
    state.select_single(1);
    state.editor.notes.pop();
    assert_eq!(state.show_detail(), Shown::Nothing);
}

#[test]
fn labels_of_the_toolbar() {
    assert_eq!(tuplet_label(1), "オフ");
    assert_eq!(tuplet_label(5), "5連符");
    assert_eq!(snap_label(t(0.25)), "1/16");
    assert_eq!(snap_label(t(4.0)), "1/1");
    assert!(swing_applies(4) && !swing_applies(8));
    assert!(waltz_applies(3, 4) && waltz_applies(5, 4));
    assert!(!waltz_applies(4, 4) && !waltz_applies(3, 8) && !waltz_applies(1, 4));
}

#[test]
fn two_clicks_swap_two_lanes() {
    let mut state = working(vec![placed(0.0, 0), placed(0.0, 2)]);
    state.click_strip(0, 0);
    assert_eq!(state.lane_swap_source, Some((0, 0)));
    assert_eq!(state.strip(0, 0), Strip::Armed);
    assert_eq!(state.strip(0, 2), Strip::Ready);
    state.click_strip(0, 2);
    assert_eq!(state.editor.notes[0].lane, 2);
    assert_eq!(state.editor.notes[1].lane, 0);
    assert_eq!(state.lane_swap_source, None);
}

#[test]
fn a_second_click_calls_the_swap_off() {
    let mut state = working(vec![placed(0.0, 0)]);
    state.click_strip(0, 1);
    state.click_strip(0, 1);
    assert_eq!(state.lane_swap_source, None);
    assert_eq!(state.editor.notes[0].lane, 0);
}

#[test]
fn lanes_of_different_kinds_do_not_swap() {
    let mut editor = MidiEditor::default();
    editor.tracks[0].lanes = 2;
    editor.add_cc_lane(0, 64);
    editor.add_cc_lane(0, 1);
    editor.notes = vec![placed(0.0, 0), placed(0.0, 2)];
    assert!(!editor.swap_lanes((0, 0), (0, 2)));
    assert!(editor.swap_lanes((0, 0), (0, 1)));
    assert_eq!(editor.notes[0].lane, 1);
    assert!(editor.swap_lanes((0, 0), (0, 1)));
    assert_eq!(editor.notes[0].lane, 0);
}

#[test]
fn switches_turn_over() {
    let mut state = working(vec![]);
    for switch in [Switch::Mute, Switch::Solo, Switch::Swing, Switch::Waltz] {
        state.press_switch(0, switch);
    }
    let track = &state.editor.tracks[0];
    assert!(track.muted && track.soloed && track.swing && track.waltz);
    state.press_switch(0, Switch::Mute);
    assert!(!state.editor.tracks[0].muted);
}

#[test]
fn tracks_and_lanes_come_and_go() {
    let mut state = EditorState::default();
    state.press_add_track();
    assert_eq!(state.editor.track_count(), 2);
    state.press_remove_track();
    assert_eq!(state.editor.track_count(), 1);
    state.press_remove_track();
    assert_eq!(state.editor.track_count(), 1);

    state.press_add_lane(0);
    assert_eq!(state.editor.lanes(0), 2);
    state.press_add_cc_lane(0);
    assert_eq!(state.editor.lane_cc(0, 2), Some(64));
    assert_eq!(state.lane_config(), Some(0));
    state.press_add_velocity_lane(0);
    assert_eq!(state.editor.lane_kind(0, 3), LaneKind::Velocity);
    state.press_add_velocity_lane(0);
    assert_eq!(state.editor.lanes(0), 4);

    state.press_add_lane(0);
    assert_eq!(state.editor.lane_kind(0, 2), LaneKind::Note);
    assert_eq!(state.editor.lane_cc(0, 3), Some(64));
    state.press_remove_lane(0);
    assert_eq!(state.editor.lane_cc(0, 2), Some(64));

    state.set_lane_number(0, 2, 200);
    assert_eq!(state.editor.lane_cc(0, 2), Some(127));
    state.press_remove_control_lane(0);
    state.press_remove_control_lane(0);
    assert_eq!(state.editor.lanes(0), 2);
    state.toggle_lane_config(0);
    assert_eq!(state.lane_config(), None);
}

#[test]
fn a_lane_with_notes_stays() {
    let mut editor = MidiEditor::default();
    editor.add_lane(0);
    editor.notes = vec![placed(0.0, 1)];
    assert!(!editor.can_remove_last_normal_lane(0));
    editor.remove_last_normal_lane(0);
    assert_eq!(editor.lanes(0), 2);
}

#[test]
fn controllers_have_names() {
    assert!(common_ccs().contains(&64));
    for number in common_ccs() {
        assert!(!cc_name(number).is_empty(), "{number}");
    }
    assert!(zero_is_not_neutral(7) && !zero_is_not_neutral(64));
}

#[test]
fn notes_are_labelled() {
    let note = Note { semitone: 3, octave: 4, velocity: 90, velocity_to: 20, ..placed(0.0, 0) };
    assert_eq!(note_label(&note, LaneKind::Note), "(3,4)");
    let block = note_label(&note, LaneKind::Cc(64));
    assert!(block.contains("64=90"), "{block}");
    let ramp = note_label(&note, LaneKind::Velocity);
    assert!(ramp.contains("90→20"), "{ramp}");
}

#[test]
fn bars_and_lines() {
    let mut editor = MidiEditor::default();
    editor.beats = 3;
    editor.beat_type = 8;
    assert_eq!(editor.ticks_per_beat(), t(0.5));
    assert_eq!(editor.ticks_per_bar(), t(1.5));
    assert_eq!(editor.shown_length(), t(12.0));
    editor.notes = vec![placed(13.0, 0)];
    assert_eq!(editor.last_end(), t(13.5));
    assert_eq!(editor.length_bar_aligned(), t(13.5));
    assert_eq!(editor.shown_length(), t(16.5));
    let lines = editor.beat_lines();
    assert_eq!(lines[0].tick, 0);
    assert_eq!(lines[1].tick, t(0.5));
    assert!(lines[0].bar.is_some() && lines[1].bar.is_none() && lines[3].bar.is_some());
    assert!(is_in_view(0, 1000 * 1024, 10 * 1024));
    assert!(!is_in_view(0, 1000 * 1024, -1));
}

#[test]
fn hidden_notes_are_marked() {
    let mut editor = MidiEditor::default();
    editor.notes = vec![placed(0.0, 0), placed(0.25, 0), placed(0.25, 1), placed(0.75, 0)];
    assert_eq!(editor.overlapping_notes(), vec![true, true, false, false]);
}

#[test]
fn tuplet_lines_divide_two_steps() {
    let mut state = working(vec![]);
    state.snap = t(0.5);
    state.tuplet = 3;
    let lines = state.tuplet_lines();
    assert!(lines.windows(2).all(|pair| pair[1] - pair[0] == TICKS_PER_QUARTER / 3));
    state.tuplet = 1;
    assert!(state.tuplet_lines().is_empty());
}

#[test]
fn a_new_sequence_replaces_the_old_one() {
    let mut state = working(vec![placed(0.0, 0)]);
    state.select_single(0);
    state.replace_sequence(
        vec![Note { track: 1, lane: 2, ..placed(1.0, 0) }],
        Some(90),
        Some((3, 4)),
        &vec![(1, 0, 11)],
    );
    assert_eq!(state.editor.tempo, 90);
    assert_eq!((state.editor.beats, state.editor.beat_type), (3, 4));
    assert_eq!(state.editor.lane_cc(1, 0), Some(11));
    assert!(state.editor.lanes(1) >= 3);
    assert!(state.selection.is_empty());

    state.history.end_frame(&state.editor);

    state.replace_project(MidiEditor::default());
    assert!(state.editor.notes.is_empty());
    state.undo();
    assert_eq!(starts(&state), vec![t(1.0)]);
}

#[test]
fn only_selected_notes_need_a_pitch_that_can_be_counted() {
    let mut far = placed(0.0, 0);
    far.octave = i32::MAX;
    let mut state = working(vec![far, placed(1.0, 1)]);
    state.select_many(vec![1]);
    assert!(egui_clap_host::edit::check_pitches(&state));
    assert!(state.transpose_selection(2));
    assert_eq!(state.editor.notes[1].semitone, 2);
    assert_eq!(state.editor.notes[0].octave, i32::MAX);

    state.select_many(vec![0, 1]);
    assert!(!egui_clap_host::edit::check_pitches(&state));
    let mut commands = Vec::new();
    let keys = Shortcuts { save: true, delete: true, ..no_keys() };
    state.apply_shortcuts(&keys, 0, &mut commands);
    assert_eq!(commands.len(), 1);
    assert!(state.editor.notes.is_empty());
}

#[test]
fn undos_run_out() {
    let mut state = working(Vec::new());
    for lane in 0..250 {
        state.editor.notes.push(placed(lane as f32, 0));
        state.history.record(egui_clap_host::history::EditGroup::Once);
        assert!(!state.history.can_redo());
        state.history.end_frame(&state.editor);
    }
    let mut count = 0;
    while state.history.undo(&mut state.editor) {
        count += 1;
    }
    assert_eq!(count, 200);
}
