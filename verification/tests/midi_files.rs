//! Exchange with MIDI files.

use egui_clap_host::midi::export::{denominator_power, TICKS_PER_QUARTER};
use egui_clap_host::midi::names::{format_track_name, parse_track_name};
use egui_clap_host::midi::{from_bytes, to_bytes, Imported};
use egui_clap_host::sequencer::{MidiEditor, Note, ScaleMode, TrackInfo, CC_RELEASE};
use egui_clap_host::time;
use midly::num::{u15, u28, u4, u7};
use midly::{Format, Header, MetaMessage, MidiMessage, Smf, Timing, TrackEvent, TrackEventKind};

fn t(quarters: f32) -> i64 {
    (quarters * time::TICKS_PER_QUARTER as f32).round() as i64
}

fn note(start: f32, duration: f32, semitone: i32, octave: i32, velocity: u8) -> Note {
    Note {
        start_tick: t(start),
        duration: t(duration),
        semitone,
        octave,
        velocity,
        velocity_to: velocity,
        track: 0,
        lane: 0,
    }
}

fn on_lane(note: Note, lane: usize) -> Note {
    Note { lane, ..note }
}

fn on_track(note: Note, track: usize, lane: usize) -> Note {
    Note { track, lane, ..note }
}

/// Writes the notes where they stand.
fn written(editor: &MidiEditor) -> Vec<u8> {
    to_bytes(editor, &editor.notes).expect("it can be written")
}

fn read(bytes: &[u8]) -> Imported {
    from_bytes(bytes, ScaleMode::Equal12).expect("it can be read")
}

/// What is written is the performed notes, not the notes of the sequence. How swing
/// moves a note is not computed here: two late notes are handed in.
#[test]
fn export_applies_swing() {
    let mut editor = MidiEditor::default();
    editor.notes = vec![note(0.0, 0.5, 0, 4, 100), note(0.5, 0.5, 0, 4, 100)];

    let straight = read(&written(&editor));
    assert_eq!(straight.notes[0].start_tick, 0);
    assert_eq!(straight.notes[1].start_tick, t(0.5));

    let performed = vec![note(0.05, 0.5, 0, 4, 100), note(0.625, 0.5, 0, 4, 100)];
    let swung = read(&to_bytes(&editor, &performed).unwrap());
    assert!(swung.notes[0].start_tick > 0);
    assert!(swung.notes[1].start_tick > t(0.5));
}

#[test]
fn cc_lane_exports_value_and_release() {
    let mut editor = MidiEditor::default();
    editor.tracks[0].set_lane_cc(0, Some(64));
    editor.notes = vec![note(0.0, 1.0, 0, 4, 100)];

    let bytes = written(&editor);
    let smf = Smf::parse(&bytes).expect("it is a MIDI file");
    let mut seen: Vec<(u32, u8, u8)> = Vec::new();
    for track in &smf.tracks {
        let mut tick = 0u32;
        for event in track {
            tick += event.delta.as_int();
            if let TrackEventKind::Midi {
                message: MidiMessage::Controller { controller, value },
                ..
            } = event.kind
            {
                seen.push((tick, controller.as_int(), value.as_int()));
            }
        }
    }
    assert_eq!(
        seen,
        vec![(0, 64, 100), (TICKS_PER_QUARTER as u32, 64, CC_RELEASE)]
    );

    let back = read(&bytes);
    assert_eq!(back.lane_ccs, vec![(0, 0, 64)]);
    assert_eq!(back.notes.len(), 1);
    assert_eq!(back.notes[0].lane, 0);
    assert_eq!(back.notes[0].velocity, 100);
    assert_eq!(back.notes[0].duration, t(1.0));
}

#[test]
fn round_trip_keeps_notes_and_cc_lanes_together() {
    let mut editor = MidiEditor::default();
    editor.tracks[0].lanes = 2;
    editor.add_cc_lane(0, 64);
    editor.notes = vec![
        on_track(note(0.0, 1.0, 0, 4, 100), 0, 0),
        on_track(note(1.0, 1.0, 4, 4, 90), 0, 1),
        on_track(note(0.0, 2.0, 0, 4, 80), 0, 2),
    ];

    let back = read(&written(&editor));
    assert_eq!(back.lane_ccs, vec![(0, 2, 64)]);

    let mut lanes: Vec<usize> = back.notes.iter().map(|note| note.lane).collect();
    lanes.sort_unstable();
    assert_eq!(lanes, vec![0, 1, 2]);

    let cc = back.notes.iter().find(|note| note.lane == 2).unwrap();
    assert_eq!(cc.velocity, 80);
}

#[test]
fn adjacent_cc_blocks_round_trip() {
    let mut editor = MidiEditor::default();
    editor.tracks[0].set_lane_cc(0, Some(64));
    editor.notes = vec![note(0.0, 1.0, 0, 4, 100), note(1.0, 1.0, 0, 4, 40)];

    let back = read(&written(&editor));
    assert_eq!(back.lane_ccs, vec![(0, 0, 64)]);
    let mut blocks: Vec<(i64, u8)> = back
        .notes
        .iter()
        .map(|note| (note.start_tick, note.velocity))
        .collect();
    blocks.sort();
    assert_eq!(blocks, vec![(t(0.0), 100), (t(1.0), 40)]);
}

fn controller_event(delta: u32, controller: u8, value: u8) -> TrackEvent<'static> {
    TrackEvent {
        delta: u28::from(delta),
        kind: TrackEventKind::Midi {
            channel: u4::from(0),
            message: MidiMessage::Controller {
                controller: u7::from(controller),
                value: u7::from(value),
            },
        },
    }
}

fn file_of(tracks: Vec<Vec<TrackEvent<'static>>>, timing: Timing) -> Vec<u8> {
    let smf = Smf { header: Header::new(Format::Parallel, timing), tracks };
    let mut bytes = Vec::new();
    smf.write_std(&mut bytes).unwrap();
    bytes
}

fn end() -> TrackEvent<'static> {
    TrackEvent { delta: u28::from(0), kind: TrackEventKind::Meta(MetaMessage::EndOfTrack) }
}

#[test]
fn unchanging_controllers_do_not_become_lanes() {
    let bytes = file_of(
        vec![vec![
            controller_event(0, 7, 100),
            controller_event(480, 10, 64),
            controller_event(480, 10, 64),
            controller_event(960, 123, 0),
            end(),
        ]],
        Timing::Metrical(u15::from(TICKS_PER_QUARTER)),
    );

    let back = read(&bytes);
    assert!(back.lane_ccs.is_empty());
    assert!(back.notes.is_empty());
}

#[test]
fn round_trip_keeps_notes() {
    let mut editor = MidiEditor::default();
    editor.tempo = 96;
    editor.beats = 3;
    editor.beat_type = 8;
    editor.notes = vec![
        note(0.0, 1.0, 0, 4, 100),
        note(0.5, 0.25, 7, 5, 40),
        note(2.0, 1.5, 11, 3, 127),
    ];

    let imported = read(&written(&editor));
    assert_eq!(imported.tempo, Some(96));
    assert_eq!(imported.time_signature, Some((3, 8)));
    assert_eq!(imported.notes, editor.notes);
}

#[test]
fn round_trip_keeps_lanes() {
    let mut editor = MidiEditor::default();
    editor.notes = vec![
        on_lane(note(0.0, 1.0, 0, 4, 100), 0),
        on_lane(note(0.0, 1.0, 4, 4, 100), 5),
        on_lane(note(2.0, 1.0, 7, 4, 100), 5),
        on_lane(note(0.0, 2.0, 0, 5, 100), 7),
        on_lane(note(1.0, 2.0, 4, 5, 100), 7),
    ];

    let imported = read(&written(&editor));
    let mut lanes: Vec<usize> = imported.notes.iter().map(|n| n.lane).collect();
    lanes.sort_unstable();
    assert_eq!(lanes, vec![0, 5, 5, 7, 7]);
    assert_eq!(imported.notes.len(), 5);
}

#[test]
fn round_trip_keeps_tracks_and_lanes() {
    let mut editor = MidiEditor::default();
    editor.tracks = vec![TrackInfo::new(0), TrackInfo::new(1), TrackInfo::new(2)];
    editor.notes = vec![
        on_track(note(0.0, 1.0, 0, 4, 100), 0, 0),
        on_track(note(1.0, 1.0, 4, 4, 100), 0, 3),
        on_track(note(0.0, 2.0, 7, 3, 80), 2, 1),
    ];

    let imported = read(&written(&editor));
    let mut placed: Vec<(usize, usize)> = imported
        .notes
        .iter()
        .map(|note| (note.track, note.lane))
        .collect();
    placed.sort_unstable();
    assert_eq!(placed, vec![(0, 0), (0, 3), (2, 1)]);
}

/// The file without the names of its tracks.
fn without_names(bytes: &[u8], only_with_notes: bool) -> Vec<u8> {
    let mut smf = Smf::parse(bytes).expect("it is a MIDI file");
    for track in &mut smf.tracks {
        track.retain(|event| {
            !matches!(event.kind, TrackEventKind::Meta(MetaMessage::TrackName(_)))
        });
    }
    if only_with_notes {
        smf.tracks.retain(|track| {
            track.iter().any(|event| {
                matches!(
                    event.kind,
                    TrackEventKind::Midi { message: MidiMessage::NoteOn { .. }, .. }
                )
            })
        });
    }
    let mut foreign = Vec::new();
    smf.write_std(&mut foreign).expect("it can be written");
    foreign
}

#[test]
fn import_without_names_uses_one_track_per_smf_track() {
    let mut editor = MidiEditor::default();
    editor.tracks = vec![TrackInfo::new(0), TrackInfo::new(1)];
    editor.notes = vec![
        on_track(note(0.0, 1.0, 0, 4, 100), 0, 0),
        on_track(note(0.0, 1.0, 7, 4, 100), 1, 0),
    ];
    let imported = read(&without_names(&written(&editor), true));
    let tracks: Vec<usize> = imported.notes.iter().map(|note| note.track).collect();
    assert_eq!(tracks, vec![0, 1]);
}

#[test]
fn import_without_lane_names_spreads_chords() {
    let mut editor = MidiEditor::default();
    editor.notes = vec![
        note(0.0, 1.0, 0, 4, 100),
        note(0.0, 1.0, 4, 4, 100),
        note(1.0, 1.0, 7, 4, 100),
    ];
    let imported = read(&without_names(&written(&editor), false));
    let lanes: Vec<usize> = imported.notes.iter().map(|n| n.lane).collect();
    assert_eq!(lanes, vec![0, 1, 0]);
}

#[test]
fn import_uses_the_scale_mode() {
    let mut editor = MidiEditor::default();
    editor.scale = ScaleMode::BohlenPierce13;
    editor.notes = vec![note(0.0, 1.0, 0, 5, 100)];

    let bytes = written(&editor);
    let imported = from_bytes(&bytes, ScaleMode::BohlenPierce13).expect("it can be read");
    assert_eq!(imported.notes[0].semitone, 0);
    assert_eq!(imported.notes[0].octave, 5);

    let imported = read(&bytes);
    assert_eq!(imported.notes[0].semitone, 1);
    assert_eq!(imported.notes[0].octave, 5);
}

#[test]
fn out_of_range_notes_are_skipped() {
    let mut editor = MidiEditor::default();
    editor.notes = vec![note(0.0, 1.0, 0, -2, 100), note(0.0, 1.0, 0, 4, 100)];

    let imported = read(&written(&editor));
    assert_eq!(imported.notes.len(), 1);
    assert_eq!(imported.notes[0].octave, 4);
}

#[test]
fn what_is_no_midi_file_is_refused() {
    let error = from_bytes(b"not a file", ScaleMode::Equal12).unwrap_err();
    assert!(error.starts_with("MIDI を読めませんでした: "), "{error}");
}

#[test]
fn timecode_is_refused() {
    let bytes = file_of(vec![vec![end()]], Timing::Timecode(midly::Fps::Fps25, 40));
    assert_eq!(
        from_bytes(&bytes, ScaleMode::Equal12).unwrap_err(),
        "SMPTE タイムコードの MIDI には未対応です"
    );
}

#[test]
fn a_resolution_of_nothing_is_refused() {
    let bytes = file_of(vec![vec![end()]], Timing::Metrical(u15::from(0)));
    assert_eq!(
        from_bytes(&bytes, ScaleMode::Equal12).unwrap_err(),
        "分解能が不正な MIDI です"
    );
}

#[test]
fn track_names_come_back() {
    for cell in [(0, 0), (3, 17), (99, 1)] {
        let name = format_track_name(cell.0, cell.1);
        assert_eq!(parse_track_name(name.as_bytes()), Some(cell), "{name}");
    }
    assert_eq!(parse_track_name(b"Piano"), None);
    assert_eq!(parse_track_name(&[0xff, 0xfe]), None);
}

#[test]
fn denominators_are_powers_of_two() {
    let powers: Vec<u8> = [1, 2, 4, 8, 16, 32].iter().map(|n| denominator_power(*n)).collect();
    assert_eq!(powers, vec![0, 1, 2, 3, 4, 5]);
}

/// A file whose header has the given division, and what may stand behind it.
fn with_division(first: u8, second: u8, behind: &[u8]) -> Vec<u8> {
    let mut bytes = b"MThd".to_vec();
    bytes.extend_from_slice(&[0, 0, 0, 6, 0, 1, 0, 1, first, second]);
    bytes.extend_from_slice(behind);
    bytes
}

#[test]
fn frame_rates_that_do_not_exist_are_refused() {
    let unlike = from_bytes(&with_division(0x81, 40, &[]), ScaleMode::Equal12).unwrap_err();
    let error = from_bytes(&with_division(0x80, 40, &[]), ScaleMode::Equal12).unwrap_err();
    assert!(error.starts_with("MIDI を読めませんでした: "), "{error}");
    assert_eq!(error, unlike);

    // In a container, too, behind a chunk of odd length.
    let inner = with_division(0x80, 40, &[]);
    let mut body = b"RMIDDISP".to_vec();
    body.extend_from_slice(&[1, 0, 0, 0, 7, 0]);
    body.extend_from_slice(b"data");
    body.extend_from_slice(&(inner.len() as u32).to_le_bytes());
    body.extend_from_slice(&inner);
    let mut bytes = b"RIFF".to_vec();
    bytes.extend_from_slice(&(body.len() as u32).to_le_bytes());
    bytes.extend_from_slice(&body);
    assert_eq!(from_bytes(&bytes, ScaleMode::Equal12).unwrap_err(), unlike);
}

#[test]
fn a_second_header_does_not_matter() {
    let mut editor = MidiEditor::default();
    editor.notes = vec![note(0.0, 1.0, 0, 4, 100)];
    let mut bytes = written(&editor);
    bytes.extend_from_slice(&with_division(0x80, 40, &[]));
    assert_eq!(read(&bytes).notes.len(), 1);
}

#[test]
fn letters_and_numbers_inside_a_track_are_left_alone() {
    // A name that looks like a header with a frame rate.
    let name: &'static [u8] = b"MThd\x00\x00\x00\x06\x00\x01\x00\x01\x80\x28";
    let event = TrackEvent {
        delta: u28::from(0),
        kind: TrackEventKind::Meta(MetaMessage::TrackName(name)),
    };
    let bytes = file_of(vec![vec![event, end()]], Timing::Metrical(u15::from(TICKS_PER_QUARTER)));
    let file = egui_clap_host::smf::read_file(&bytes).unwrap();
    match &file.tracks[0][0].kind {
        egui_clap_host::smf::SmfKind::TrackName(read) => assert_eq!(read.as_slice(), name),
        other => panic!("{other:?}"),
    }
}

#[test]
fn notes_beside_the_grid_of_the_file_come_back_close_by() {
    let mut editor = MidiEditor::default();
    // Seven in the time of a quarter, a ramp, and a note shorter than a tick of
    // the file.
    let septuplet = |i: i64| Note {
        start_tick: 4800 * i,
        duration: 4800,
        velocity_to: 20,
        ..note(0.0, 0.0, 0, 4, 100)
    };
    editor.notes = (0..7).map(septuplet).collect();
    editor.notes.push(Note { start_tick: 70_018, duration: 3, ..note(0.0, 0.0, 7, 4, 90) });

    let back = read(&written(&editor));
    assert_eq!(back.notes.len(), 8);
    assert!(back.lane_ccs.is_empty());
    for (read, written) in back.notes.iter().zip(editor.notes.iter()) {
        assert!((read.start_tick - written.start_tick).abs() <= 17);
        assert_eq!(read.velocity, written.velocity);
        assert_eq!(read.velocity_to, written.velocity);
        assert_eq!((read.semitone, read.octave), (written.semitone, written.octave));
    }
    // To the nearest tick of the file, and at least one tick long.
    assert_eq!(back.notes[1].start_tick, 35 * 137);
    assert_eq!(back.notes[7].start_tick, 35 * 2001);
    assert_eq!(back.notes[7].duration, 35);
}
