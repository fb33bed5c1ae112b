//! Project files.

use egui_clap_host::bars::{DEFAULT_PEAK_RATIO, EVEN_RATIO};
use egui_clap_host::project::{
    from_str, load, to_project, Loaded, NoteEntry, PluginEntry, PluginKind, PluginSnapshot,
    Project, Span, TrackEntry,
};
use egui_clap_host::sequencer::{MidiEditor, Note, ScaleMode};
use egui_clap_host::time::TICKS_PER_QUARTER;

fn t(quarters: f32) -> i64 {
    (quarters * TICKS_PER_QUARTER as f32).round() as i64
}

fn field(map: &ron::Map, name: &str) -> Option<ron::Value> {
    map.iter()
        .find(|(key, _)| **key == ron::Value::String(name.to_string()))
        .map(|(_, value)| value.clone())
}

fn number(map: &ron::Map, name: &str) -> f64 {
    match field(map, name) {
        Some(ron::Value::Number(number)) => number.into_f64(),
        _ => 0.0,
    }
}

fn words(map: &ron::Map, name: &str) -> String {
    match field(map, name) {
        Some(ron::Value::String(text)) => text,
        _ => String::new(),
    }
}

fn list(map: &ron::Map, name: &str) -> Vec<ron::Value> {
    match field(map, name) {
        Some(ron::Value::Seq(values)) => values,
        _ => Vec::new(),
    }
}

fn record(value: ron::Value) -> ron::Map {
    match value {
        ron::Value::Map(map) => map,
        other => panic!("not a record: {other:?}"),
    }
}

fn span(value: f64) -> Span {
    let ticks = if value.is_finite() {
        let ticks = (value * TICKS_PER_QUARTER as f64).round() as i64;
        Some(if value > 0.0 { ticks.max(1) } else { ticks })
    } else {
        None
    };
    Span { ticks, text: format!("{value}") }
}

/// What a text says, with what it leaves out filled in.
fn parsed(text: &str) -> Result<Project, String> {
    let value: ron::Value = ron::from_str(text).map_err(|e| e.to_string())?;
    let fields = record(value);
    let tracks = list(&fields, "tracks")
        .into_iter()
        .map(|track| {
            let track = record(track);
            TrackEntry {
                name: words(&track, "name"),
                lanes: number(&track, "lanes") as usize,
                muted: false,
                soloed: false,
                swing: false,
                waltz: false,
                lane_ccs: Vec::new(),
            }
        })
        .collect();
    let notes = list(&fields, "notes")
        .into_iter()
        .map(|note| {
            let note = record(note);
            NoteEntry {
                start: span(number(&note, "start")),
                duration: span(number(&note, "duration")),
                semitone: number(&note, "semitone") as i32,
                octave: number(&note, "octave") as i32,
                velocity: number(&note, "velocity") as u8,
                track: number(&note, "track") as usize,
                lane: number(&note, "lane") as usize,
            }
        })
        .collect();
    let plugins = list(&fields, "plugins")
        .into_iter()
        .map(|plugin| match plugin {
            ron::Value::Option(Some(plugin)) => {
                let plugin = record(*plugin);
                Some(PluginEntry {
                    kind: PluginKind::Clap,
                    path: words(&plugin, "path"),
                    id: words(&plugin, "id"),
                    state: words(&plugin, "state"),
                })
            }
            _ => None,
        })
        .collect();
    Ok(Project {
        version: number(&fields, "version") as u32,
        tempo: number(&fields, "tempo") as u32,
        beats: number(&fields, "beats") as u32,
        beat_type: number(&fields, "beat_type") as u32,
        scale: ScaleMode::Equal12,
        swing_peak_ratio: DEFAULT_PEAK_RATIO,
        waltz_ratio: EVEN_RATIO,
        tracks,
        notes,
        plugins,
    })
}

fn opened(text: &str) -> Result<Loaded, String> {
    let version = parsed(text).map(|project| project.version);
    from_str(version, parsed(text))
}

fn opened_editor(text: &str) -> Result<MidiEditor, String> {
    opened(text).map(|loaded| loaded.editor)
}

fn saved_and_loaded(editor: &MidiEditor) -> MidiEditor {
    load(&to_project(editor, &Vec::new())).unwrap().editor
}

fn note(start: f32, duration: f32) -> Note {
    Note {
        start_tick: t(start),
        duration: t(duration),
        semitone: 0,
        octave: 4,
        velocity: 100,
        velocity_to: 100,
        track: 0,
        lane: 0,
    }
}

fn sample() -> MidiEditor {
    let mut editor = MidiEditor::default();
    editor.tempo = 96;
    editor.beats = 3;
    editor.beat_type = 4;
    editor.scale = ScaleMode::BohlenPierce13;
    editor.swing_peak_ratio = 1.75f32.to_bits();
    editor.add_track();
    editor.tracks[0].name = "リズム".into();
    editor.tracks[0].lanes = 2;
    editor.tracks[0].muted = true;
    editor.tracks[1].swing = true;
    editor.tracks[1].soloed = true;
    editor.notes = vec![
        Note { semitone: 3, lane: 1, ..note(0.0, 0.5) },
        Note {
            semitone: 12,
            octave: 5,
            velocity: 64,
            velocity_to: 64,
            track: 1,
            ..note(1.5, 2.0)
        },
    ];
    editor
}

#[test]
fn round_trip_keeps_everything() {
    let original = sample();
    let restored = saved_and_loaded(&original);

    assert_eq!(restored.tempo, original.tempo);
    assert_eq!(restored.beats, original.beats);
    assert_eq!(restored.beat_type, original.beat_type);
    assert_eq!(restored.scale, original.scale);
    assert_eq!(restored.swing_peak_ratio, original.swing_peak_ratio);
    assert_eq!(format!("{:?}", restored.tracks), format!("{:?}", original.tracks));
    assert_eq!(restored.notes, original.notes);
}

#[test]
fn round_trip_keeps_cc_lanes() {
    let mut editor = sample();
    editor.tracks[0].lanes = 3;
    editor.tracks[0].set_lane_cc(1, Some(64));

    let restored = saved_and_loaded(&editor);
    assert_eq!(restored.tracks[0].lane_cc(0), None);
    assert_eq!(restored.tracks[0].lane_cc(1), Some(64));
    assert_eq!(restored.tracks[0].lane_cc(2), None);
    assert_eq!(restored.tracks[1].lane_cc(0), None);
}

#[test]
fn round_trip_keeps_swing_settings() {
    let restored = saved_and_loaded(&sample());
    assert!(!restored.tracks[0].swing);
    assert!(restored.tracks[1].swing);
    assert_eq!(f32::from_bits(restored.swing_peak_ratio), 1.75);
}

#[test]
fn saving_does_not_bake_in_swing() {
    let mut editor = MidiEditor::default();
    editor.tracks[0].swing = true;
    editor.notes = vec![note(0.0, 0.5)];

    let restored = saved_and_loaded(&editor);
    assert_eq!(restored.notes[0].start_tick, t(0.0));
    assert_eq!(restored.notes[0].duration, t(0.5));
}

fn snapshot(path: &str, id: &str, state: &[u8]) -> PluginSnapshot {
    PluginSnapshot {
        kind: PluginKind::Clap,
        path: path.to_string(),
        id: id.to_string(),
        state: state.to_vec(),
    }
}

#[test]
fn round_trip_keeps_plugins() {
    let plugins = vec![
        Some(snapshot(
            "C:\\音源\\Surge XT.clap",
            "org.surge-synth-team.surge-xt",
            &[0, 1, 2, 255],
        )),
        None,
    ];
    let restored = load(&to_project(&sample(), &plugins)).unwrap();
    assert_eq!(format!("{:?}", restored.plugins), format!("{plugins:?}"));
}

#[test]
fn state_is_stored_as_base64() {
    let plugins = vec![Some(snapshot("a.clap", "x", b"Hello"))];
    let project = to_project(&MidiEditor::default(), &plugins);
    assert_eq!(project.plugins[0].as_ref().unwrap().state, "SGVsbG8=");
}

#[test]
fn version_one_files_still_load() {
    let text = "(version: 1, tempo: 120, beats: 4, beat_type: 4, \
                tracks: [ (name: \"A\", lanes: 1) ], \
                notes: [ (start: 0.0, duration: 1.0) ])";

    let loaded = opened(text).expect("it can be read");
    assert_eq!(loaded.editor.tempo, 120);
    assert_eq!(loaded.plugins.len(), 1);
    assert!(loaded.plugins[0].is_none());
}

#[test]
fn plugin_list_is_resized_to_the_tracks() {
    let plugins = vec![
        Some(snapshot("a.clap", "x", b"1")),
        Some(snapshot("b.clap", "y", b"2")),
        Some(snapshot("c.clap", "z", b"3")),
    ];
    let restored = load(&to_project(&sample(), &plugins)).unwrap();
    assert_eq!(restored.plugins.len(), 2);
}

#[test]
fn broken_state_only_drops_that_plugin() {
    let text = "(version: 2, tempo: 120, beats: 4, beat_type: 4, \
                tracks: [ (name: \"A\", lanes: 1) ], \
                notes: [ (start: 0.0, duration: 1.0) ], \
                plugins: [ Some((kind: Clap, path: \"a.clap\", id: \"x\", state: \"!!!壊れた!!!\")) ])";

    let loaded = opened(text).expect("the project can be read");
    assert_eq!(loaded.editor.notes.len(), 1);
    let plugin = loaded.plugins[0].as_ref().expect("the plugin stays");
    assert!(plugin.state.is_empty());
    assert_eq!(plugin.id, "x");
}

#[test]
fn unknown_fields_are_ignored_and_missing_ones_default() {
    let text = r#"(
        version: 1,
        tempo: 140,
        beats: 4,
        beat_type: 4,
        future_setting: "まだ無い項目",
        tracks: [ (name: "A", lanes: 1) ],
        notes: [ (start: 0.0, duration: 1.0, velocity: 90) ],
    )"#;

    let editor = opened_editor(text).expect("it can be read");
    assert_eq!(editor.tempo, 140);
    assert_eq!(editor.tracks[0].name, "A");
    assert_eq!(editor.scale, ScaleMode::Equal12);
    assert_eq!(editor.swing_peak_ratio, DEFAULT_PEAK_RATIO);
    assert!(!editor.tracks[0].muted);
    assert_eq!(editor.notes[0].octave, 0);
}

#[test]
fn newer_versions_are_refused_clearly() {
    let text = "(version: 99, tempo: 120, beats: 4, beat_type: 4, tracks: [], notes: [])";
    let error = opened(text).unwrap_err();
    assert!(error.contains("バージョン 99"), "{error}");

    let error = from_str(Ok(99), Err("unknown".to_string())).unwrap_err();
    assert!(error.contains("バージョン 99"), "{error}");
}

#[test]
fn broken_syntax_is_reported() {
    let error = opened("これは RON ではありません").unwrap_err();
    assert!(error.contains("読めません"), "{error}");

    let error = from_str(Ok(2), Err("3:1".to_string())).unwrap_err();
    assert!(error.contains("読めません") && error.ends_with("3:1"), "{error}");
}

#[test]
fn invalid_header_values_are_rejected() {
    let doc = |tempo: &str, beats: &str, beat_type: &str| {
        format!(
            "(version: 1, tempo: {tempo}, beats: {beats}, beat_type: {beat_type}, \
             tracks: [ (name: \"A\", lanes: 1) ], notes: [])"
        )
    };

    assert!(opened(&doc("120", "4", "4")).is_ok());
    assert!(opened(&doc("0", "4", "4")).unwrap_err().contains("テンポ"));
    assert!(opened(&doc("1000", "4", "4")).unwrap_err().contains("テンポ"));
    assert!(opened(&doc("120", "0", "4")).unwrap_err().contains("分子"));
    assert!(opened(&doc("120", "4", "3")).unwrap_err().contains("分母"));
}

#[test]
fn invalid_note_values_are_rejected() {
    let doc = |note: &str| {
        format!(
            "(version: 1, tempo: 120, beats: 4, beat_type: 4, \
             tracks: [ (name: \"A\", lanes: 2) ], notes: [ ({note}) ])"
        )
    };

    assert!(opened(&doc("start: 0.0, duration: 1.0")).is_ok());
    for (note, expected) in [
        ("start: 0.0, duration: 0.0", "音価"),
        ("start: -1.0, duration: 1.0", "位置"),
        ("start: 0.0, duration: 1.0, semitone: 99", "半音"),
        ("start: 0.0, duration: 1.0, track: 5", "トラック"),
        ("start: 0.0, duration: 1.0, lane: 7", "段"),
    ] {
        let error = opened(&doc(note)).unwrap_err();
        assert!(error.contains(expected), "{note}: {error}");
    }
}

#[test]
fn non_finite_positions_are_rejected() {
    for value in ["NaN", "inf", "-inf"] {
        let text = format!(
            "(version: 1, tempo: 120, beats: 4, beat_type: 4, \
             tracks: [ (name: \"A\", lanes: 1) ], \
             notes: [ (start: {value}, duration: 1.0) ])"
        );
        let error = opened(&text).unwrap_err();
        assert!(error.contains("数値ではありません"), "{value}: {error}");
    }
}

#[test]
fn every_problem_is_listed_at_once() {
    let text = "(version: 1, tempo: 0, beats: 0, beat_type: 3, tracks: [], notes: [])";
    let error = opened(text).unwrap_err();

    assert!(error.contains("テンポ"));
    assert!(error.contains("分子"));
    assert!(error.contains("分母"));
    assert!(error.contains("トラックが1つもありません"));
}

#[test]
fn a_new_sequence_swings_where_swing_is_switched_on() {
    let editor = MidiEditor::default();
    assert_eq!(f32::from_bits(editor.swing_peak_ratio), 1.5);
    assert_eq!(f32::from_bits(editor.waltz_ratio), 1.0);
}
