//! The list of plugins and its scan.

use egui_clap_host::library::{
    check_version, config_dir, config_path, crashed_file, from_stored, scanning_path, start_with,
    to_stored, Entry, Library, Role, Stamp, Stored, FIRST_SCANNER_VERSION, SCANNER_VERSION,
};
use egui_clap_host::paths::{join, PathPart, PluginPath};
use egui_clap_host::project::PluginKind;
use egui_clap_host::scan::{
    existing_standard_folders, reusable, standard_folders, FoundFile, FoundPlugin, Opened, Outcome,
    Scan,
};

fn path(text: &str) -> PluginPath {
    let mut parts = Vec::new();
    for (index, piece) in text.split('\\').enumerate() {
        if index == 0 && piece.ends_with(':') {
            parts.push(PathPart::Prefix(piece.to_string()));
            parts.push(PathPart::Root);
        } else if !piece.is_empty() {
            parts.push(PathPart::Normal(piece.to_string()));
        }
    }
    PluginPath { text: text.to_string(), parts }
}

fn entry(name: &str, id: &str, role: Role) -> Entry {
    Entry {
        kind: PluginKind::Clap,
        path: path(&format!("C:\\plugins\\{name}.clap")),
        id: id.to_string(),
        name: name.to_string(),
        vendor: "Example".to_string(),
        version: "1.0".to_string(),
        role,
        favorite: false,
        stamp: None,
    }
}

fn stamp(modified: u64) -> Stamp {
    Stamp { modified, size: 1024 }
}

fn sample() -> Library {
    Library {
        folders: vec![path("C:\\plugins")],
        plugins: vec![
            entry("Synth", "com.example.synth", Role::Instrument),
            entry("Reverb", "com.example.reverb", Role::Effect),
            entry("Mystery", "com.example.mystery", Role::Unknown),
        ],
        blocked: vec![path("C:\\plugins\\Bad.clap")],
        ..Default::default()
    }
}

/// A list that was read, with what a file leaves out filled in.
fn stored(text: &str) -> Stored {
    let ron::Value::Map(fields) = ron::from_str(text).expect("the text is well-formed") else {
        panic!("not a record");
    };
    let field = |map: &ron::Map, name: &str| -> Option<ron::Value> {
        map.iter()
            .find(|(key, _)| **key == ron::Value::String(name.to_string()))
            .map(|(_, value)| value.clone())
    };
    let text_of = |map: &ron::Map, name: &str| match field(map, name) {
        Some(ron::Value::String(text)) => text,
        _ => String::new(),
    };
    let version = match field(&fields, "version") {
        Some(ron::Value::Number(number)) => number.into_f64() as u32,
        _ => 0,
    };
    let mut plugins = Vec::new();
    if let Some(ron::Value::Seq(values)) = field(&fields, "plugins") {
        for value in values {
            let ron::Value::Map(plugin) = value else {
                panic!("not a record");
            };
            plugins.push(Entry {
                path: path(&text_of(&plugin, "path")),
                id: text_of(&plugin, "id"),
                ..Default::default()
            });
        }
    }
    Stored {
        version,
        folders: Vec::new(),
        plugins,
        blocked: Vec::new(),
        scanner: FIRST_SCANNER_VERSION,
        isolate: true,
    }
}

fn shown(value: &impl std::fmt::Debug) -> String {
    format!("{value:?}")
}

#[test]
fn it_survives_a_round_trip() {
    let before = sample();
    let after = from_stored(&to_stored(&before)).expect("it can be read");
    assert_eq!(shown(&before), shown(&after));
}

#[test]
fn a_newer_version_is_refused() {
    let mut stored = to_stored(&sample());
    assert_eq!(stored.version, 1);
    stored.version = 99;
    let error = from_stored(&stored).expect_err("it is refused");
    assert!(error.contains("99"), "{error}");
    assert_eq!(check_version(99), Err(error));
    assert_eq!(check_version(1), Ok(()));
}

#[test]
fn an_older_file_without_new_fields_still_loads() {
    let text = r#"(
        version: 1,
        plugins: [
            (kind: Clap, path: "C:\\a.clap", id: "com.a"),
        ],
    )"#;
    let library = from_stored(&stored(text)).expect("it can be read");
    assert_eq!(library.plugins.len(), 1);
    assert_eq!(library.plugins[0].role, Role::Unknown);
    assert!(!library.plugins[0].favorite);
    assert!(library.folders.is_empty());
    assert!(library.blocked.is_empty());
}

#[test]
fn entries_without_a_target_are_dropped() {
    let text = r#"(
        version: 1,
        plugins: [
            (kind: Clap, path: "", id: "com.a"),
            (kind: Clap, path: "C:\\b.clap", id: ""),
            (kind: Clap, path: "C:\\c.clap", id: "com.c"),
        ],
    )"#;
    let library = from_stored(&stored(text)).expect("it can be read");
    assert_eq!(library.plugins.len(), 1);
    assert_eq!(library.plugins[0].id, "com.c");
}

#[test]
fn each_role_stands_on_its_own() {
    let library = sample();
    assert_eq!(library.by_role(Role::Instrument).len(), 1);
    assert_eq!(library.by_role(Role::Effect).len(), 1);
    assert_eq!(library.by_role(Role::Unknown).len(), 1);
}

#[test]
fn favorites_can_be_toggled_and_listed() {
    let mut library = sample();
    assert_eq!(library.favorites().len(), 0);

    let path = path("C:\\plugins\\Synth.clap");
    library.toggle_favorite(&path, "com.example.synth");
    assert_eq!(library.favorites().len(), 1);
    assert_eq!(library.favorites()[0].name, "Synth");

    library.toggle_favorite(&path, "com.example.synth");
    assert_eq!(library.favorites().len(), 0);
}

#[test]
fn the_path_is_part_of_the_identity() {
    let mut library = Library::default();
    let mut here = entry("Synth", "com.example.synth", Role::Instrument);
    let mut there = here.duplicate();
    there.path = path("D:\\other\\Synth.clap");
    here.favorite = true;

    library.insert(here);
    library.insert(there);
    assert_eq!(library.plugins.len(), 2);
    assert_eq!(library.favorites().len(), 1);
    assert!(library.contains(&path("D:\\other\\Synth.clap"), "com.example.synth"));
    assert!(!library.contains(&path("D:\\other\\Synth.clap"), "com.example"));
}

#[test]
fn rescanning_keeps_the_star_but_refreshes_the_rest() {
    let mut library = Library::default();
    let mut old = entry("Synth", "com.example.synth", Role::Unknown);
    old.name = "古い名前".to_string();
    old.favorite = true;
    library.insert(old);

    let mut fresh = entry("Synth", "com.example.synth", Role::Instrument);
    fresh.name = "新しい名前".to_string();
    library.insert(fresh);

    assert_eq!(library.plugins.len(), 1);
    assert_eq!(library.plugins[0].name, "新しい名前");
    assert_eq!(library.plugins[0].role, Role::Instrument);
    assert!(library.plugins[0].favorite);
}

#[test]
fn a_folder_can_be_taken_out() {
    let mut library = sample();
    library.toggle_favorite(&path("C:\\plugins\\Synth.clap"), "com.example.synth");

    let taken = library.take_under(&path("C:\\plugins"));
    assert!(library.plugins.is_empty());
    assert_eq!(taken.len(), 3);
    assert_eq!(taken.iter().filter(|entry| entry.favorite).count(), 1);
}

#[test]
fn taking_one_folder_leaves_the_others() {
    let mut library = Library::default();
    library.insert(entry("A", "com.a", Role::Instrument));
    let mut other = entry("B", "com.b", Role::Instrument);
    other.path = path("D:\\other\\B.clap");
    library.insert(other);

    library.take_under(&path("C:\\plugins"));
    assert_eq!(library.plugins.len(), 1);
    assert_eq!(library.plugins[0].id, "com.b");
}

#[test]
fn a_folder_holds_whole_names_only() {
    let mut library = Library::default();
    let mut near = entry("A", "com.a", Role::Instrument);
    near.path = path("C:\\plugins2\\A.clap");
    library.insert(near);
    assert!(library.take_under(&path("C:\\plugins")).is_empty());
}

#[test]
fn an_unchanged_file_is_reused() {
    let mut kept = entry("Synth", "com.example.synth", Role::Instrument);
    kept.stamp = Some(stamp(100));
    let path = kept.path.duplicate();
    let expected = shown(&vec![kept.duplicate()]);

    let reused = reusable(&vec![kept], &path, Some(stamp(100)));
    assert_eq!(reused.map(|entries| shown(&entries)), Some(expected));
}

#[test]
fn a_changed_file_is_opened_again() {
    let mut kept = entry("Synth", "com.example.synth", Role::Instrument);
    kept.stamp = Some(stamp(100));
    let path = kept.path.duplicate();
    let previous = vec![kept];

    assert!(reusable(&previous, &path, Some(stamp(101))).is_none());

    let bigger = Stamp { modified: 100, size: 2048 };
    assert!(reusable(&previous, &path, Some(bigger)).is_none());
}

#[test]
fn a_record_without_a_stamp_is_opened_again() {
    let kept = entry("Synth", "com.example.synth", Role::Instrument);
    assert_eq!(kept.stamp, None);
    let path = kept.path.duplicate();

    assert!(reusable(&vec![kept], &path, Some(stamp(100))).is_none());
}

#[test]
fn a_file_we_cannot_stamp_is_opened_again() {
    let mut kept = entry("Synth", "com.example.synth", Role::Instrument);
    kept.stamp = Some(stamp(100));
    let path = kept.path.duplicate();

    assert!(reusable(&vec![kept], &path, None).is_none());
}

#[test]
fn a_file_we_have_never_seen_is_opened() {
    let previous = Vec::new();
    assert!(reusable(&previous, &path("C:\\plugins\\New.clap"), Some(stamp(100))).is_none());
}

#[test]
fn every_plugin_in_the_file_comes_back_together() {
    let make = |id: &str| {
        let mut entry = entry("Pack", id, Role::Instrument);
        entry.stamp = Some(stamp(100));
        entry
    };
    let previous = vec![make("com.pack.one"), make("com.pack.two")];

    let reused = reusable(&previous, &path("C:\\plugins\\Pack.clap"), Some(stamp(100)))
        .expect("it is reused");
    assert_eq!(reused.len(), 2);
}

#[test]
fn a_file_with_mismatched_stamps_is_opened_again() {
    let make = |id: &str, at: u64| {
        let mut entry = entry("Pack", id, Role::Instrument);
        entry.stamp = Some(stamp(at));
        entry
    };
    let previous = vec![make("com.pack.one", 100), make("com.pack.two", 101)];

    assert!(reusable(&previous, &path("C:\\plugins\\Pack.clap"), Some(stamp(100))).is_none());
}

#[test]
fn a_record_without_a_scanner_version_reads_as_one() {
    let text = r#"(
        version: 1,
        plugins: [
            (kind: Clap, path: "C:\\a.clap", id: "com.a"),
        ],
    )"#;
    let library = from_stored(&stored(text)).expect("it can be read");
    assert_eq!(library.scanner, 1);
    assert!(library.isolate);
}

#[test]
fn the_scanner_version_survives_a_round_trip() {
    let mut before = sample();
    before.scanner = 7;
    before.isolate = false;

    let after = from_stored(&to_stored(&before)).unwrap();
    assert_eq!(after.scanner, 7);
    assert!(!after.isolate);
}

/// A list with one plugin, and the file that it is in.
fn library_with_one_file() -> (Library, Vec<FoundFile>) {
    let file = path("C:\\plugins\\A.clap");
    let mut library = Library { folders: vec![path("C:\\plugins")], ..Default::default() };
    let mut kept = entry("A", "com.a", Role::Instrument);
    kept.stamp = Some(stamp(100));
    library.insert(kept);
    (library, vec![FoundFile { path: file, stamp: Some(stamp(100)) }])
}

#[test]
fn a_matching_stamp_leaves_nothing_to_open() {
    let (mut library, files) = library_with_one_file();
    let scan = Scan::start(&mut library, &files);
    assert_eq!(scan.progress().1, 0);
    assert_eq!(scan.reused(), 1);
    assert!(scan.is_done());
}

#[test]
fn an_old_scanner_version_ignores_the_stamps() {
    let (mut library, files) = library_with_one_file();
    library.scanner = SCANNER_VERSION - 1;

    let scan = Scan::start(&mut library, &files);
    assert_eq!(scan.progress().1, 1);
    assert_eq!(scan.reused(), 0);
    assert_eq!(library.scanner, SCANNER_VERSION);
}

#[test]
fn a_full_scan_ignores_the_stamps_too() {
    let (mut library, files) = library_with_one_file();
    let scan = Scan::start_full(&mut library, &files);
    assert_eq!(scan.progress().1, 1);
    assert_eq!(scan.reused(), 0);
}

#[test]
fn reuse_only_looks_at_the_same_path() {
    let mut other = entry("Other", "com.other", Role::Instrument);
    other.stamp = Some(stamp(100));

    assert!(reusable(&vec![other], &path("C:\\plugins\\Synth.clap"), Some(stamp(100))).is_none());
}

#[test]
fn sorting_ignores_case() {
    let mut library = Library::default();
    for name in ["zeta", "Alpha", "beta"] {
        library.insert(entry(name, &format!("com.{name}"), Role::Instrument));
    }
    library.sort();
    let names: Vec<&str> = library.plugins.iter().map(|e| e.label()).collect();
    assert_eq!(names, vec!["Alpha", "beta", "zeta"]);
}

#[test]
fn a_nameless_plugin_shows_its_id() {
    let mut nameless = entry("", "com.example.nameless", Role::Instrument);
    nameless.name = String::new();
    assert_eq!(nameless.label(), "com.example.nameless");
}

#[test]
fn the_config_sits_next_to_the_executable() {
    let dir = config_dir(Some("C:\\host"), true);
    let file = config_path(Some("C:\\host"), true);
    let note = scanning_path(Some("C:\\host"), true);
    assert!(dir.starts_with("C:\\host\\"), "{dir}");
    assert!(!dir["C:\\host\\".len()..].contains('\\'), "{dir}");
    assert!(file.starts_with(&format!("{dir}\\")), "{file}");
    assert!(note.starts_with(&format!("{dir}\\")), "{note}");
    assert_ne!(file, note);
}

#[test]
fn the_standard_folders_cover_both_formats() {
    for windows in [true, false] {
        let folders = standard_folders(
            windows,
            "C:\\Program Files\\Common Files",
            "C:\\Users\\me\\AppData\\Local",
            "/home/me",
        );
        let has = |needle: &str| folders.iter().any(|f| f.to_lowercase().contains(needle));
        assert!(has("clap"), "{folders:?}");
        assert!(has("vst3"), "{folders:?}");
        let root = if windows { "C:\\" } else { "/" };
        assert!(folders.iter().all(|f| f.starts_with(root)), "{folders:?}");
    }
}

#[test]
fn only_folders_that_are_there_are_offered() {
    let folders = vec![path("C:\\a"), path("C:\\b"), path("C:\\c")];
    let existing = existing_standard_folders(&folders, &vec![true, false, true]);
    let texts: Vec<&str> = existing.iter().map(|folder| folder.text.as_str()).collect();
    assert_eq!(texts, vec!["C:\\a", "C:\\c"]);
}

fn found(id: &str, name: &str) -> FoundPlugin {
    FoundPlugin {
        id: id.to_string(),
        name: name.to_string(),
        vendor: String::new(),
        version: String::new(),
        role: Role::Effect,
    }
}

fn opened(outcome: Outcome) -> Opened {
    Opened { kind: Some(PluginKind::Clap), stamp: Some(stamp(5)), outcome }
}

fn file(text: &str) -> FoundFile {
    FoundFile { path: path(text), stamp: None }
}

#[test]
fn a_scan_opens_each_file_once() {
    let mut library = Library { folders: vec![path("C:\\plugins")], ..Default::default() };
    let files = vec![
        file("C:\\plugins\\B.clap"),
        file("C:\\plugins\\A.clap"),
        file("C:\\plugins\\B.clap"),
    ];
    let mut scan = Scan::start(&mut library, &files);
    assert_eq!(scan.progress(), (0, 2));
    assert!(scan.is_isolated());

    let mut seen = Vec::new();
    while let Some(next) = scan.next() {
        let text = next.text.clone();
        let outcome = Outcome::Found(vec![found(&text, &text)]);
        let done = scan.step(&mut library, opened(outcome)).expect("a file was taken");
        assert_eq!(done.text, text);
        seen.push(text);
    }
    seen.sort();
    assert_eq!(seen, vec!["C:\\plugins\\A.clap", "C:\\plugins\\B.clap"]);
    assert!(scan.is_done());
    assert_eq!(scan.progress(), (2, 2));
    assert_eq!(library.plugins.len(), 2);
    assert_eq!(library.plugins[0].stamp, Some(stamp(5)));
}

#[test]
fn a_crashed_file_is_blocked() {
    let mut library = Library { folders: vec![path("C:\\plugins")], ..Default::default() };
    let files = vec![file("C:\\plugins\\Bad.clap")];
    let mut scan = Scan::start(&mut library, &files);
    let outcome = Outcome::Crashed { problem: "it fell over".to_string(), block: true };
    scan.step(&mut library, opened(outcome));
    assert_eq!(scan.crashed(), 1);
    assert_eq!(scan.problems().len(), 1);
    assert_eq!(library.blocked.len(), 1);

    let again = Scan::start(&mut library, &files);
    assert_eq!(again.progress().1, 0);
}

#[test]
fn a_file_that_cannot_be_opened_is_a_problem() {
    let mut library = Library { folders: vec![path("C:\\plugins")], ..Default::default() };
    let files = vec![file("C:\\plugins\\Odd.clap")];
    let mut scan = Scan::start(&mut library, &files);
    scan.step(&mut library, opened(Outcome::Failed("no entry point".to_string())));
    assert_eq!(scan.problems().len(), 1);
    assert!(scan.problems()[0].contains("no entry point"));
    assert!(library.plugins.is_empty());
    assert!(library.blocked.is_empty());
}

#[test]
fn a_star_survives_a_scan() {
    let (mut library, files) = library_with_one_file();
    library.toggle_favorite(&path("C:\\plugins\\A.clap"), "com.a");
    let mut scan = Scan::start_full(&mut library, &files);
    assert!(library.plugins.is_empty());
    scan.step(&mut library, opened(Outcome::Found(vec![found("com.a", "A")])));
    assert_eq!(library.favorites().len(), 1);
}

#[test]
fn an_unreadable_list_is_reported_and_replaced() {
    let (library, told) = start_with(Some(Err("broken".to_string())), "C:\\x.ron");
    assert!(library.plugins.is_empty());
    assert_eq!(told.as_deref(), Some("C:\\x.ron\n\nbroken"));

    let (library, told) = start_with(None, "C:\\x.ron");
    assert!(library.plugins.is_empty());
    assert_eq!(told, None);

    let (library, told) = start_with(Some(Ok(sample())), "C:\\x.ron");
    assert_eq!(library.plugins.len(), 3);
    assert_eq!(told, None);
}

#[test]
fn a_noted_file_is_read_without_the_space_around_it() {
    assert_eq!(crashed_file("  C:\\a.clap\r\n"), Some("C:\\a.clap"));
    assert_eq!(crashed_file(" \n\t"), None);
}

#[test]
fn names_are_joined_with_the_right_separator() {
    assert_eq!(join("C:\\a", "b", true), "C:\\a\\b");
    assert_eq!(join("/a", "b", false), "/a/b");
}

#[test]
fn a_scan_misses_no_file() {
    let (mut library, mut files) = library_with_one_file();
    library.blocked.push(path("C:\\plugins\\Bad.clap"));
    for name in ["C.clap", "Bad.clap", "B.clap", "C.clap"] {
        files.push(file(&format!("C:\\plugins\\{name}")));
    }
    let mut scan = Scan::start(&mut library, &files);
    assert_eq!(scan.reused(), 1);

    let mut seen = Vec::new();
    while let Some(done) = scan.step(&mut library, opened(Outcome::Found(Vec::new()))) {
        seen.push(done.text);
    }
    assert_eq!(seen, vec!["C:\\plugins\\B.clap", "C:\\plugins\\C.clap"]);
}
