//! Windows of plugins, their parameters, and the start of the program.

use egui_clap_host::launch::read_arguments;
use egui_clap_host::params::{entry, read_params, ParamInfo};
use egui_clap_host::window::{
    after_answer, begin_negotiation, describe, editor_size, extent, initial_size, size_to_adjust,
    size_to_restore, style_with, told_size, Mode, Negotiation, Opening, Part, PluginGuiManager,
    Resized, Vst3GuiManager,
};

fn negotiated(embedded: bool, floating: bool) -> Option<Mode> {
    let mut next = begin_negotiation();
    loop {
        match next {
            Negotiation::Done(mode) => return mode,
            Negotiation::Ask(Mode::Embedded) => next = after_answer(Mode::Embedded, embedded),
            Negotiation::Ask(Mode::Floating) => next = after_answer(Mode::Floating, floating),
        }
    }
}

#[test]
fn embedding_is_preferred() {
    assert_eq!(negotiated(true, true), Some(Mode::Embedded));
    assert_eq!(negotiated(true, false), Some(Mode::Embedded));
    assert_eq!(negotiated(false, true), Some(Mode::Floating));
    assert_eq!(negotiated(false, false), None);
}

#[test]
fn a_window_is_opened_once() {
    let mut gui = PluginGuiManager::new(Some(Mode::Embedded));
    assert!(gui.supports_gui() && !gui.is_floating());
    assert_eq!(gui.open(), Opening::Open(Mode::Embedded));
    gui.opened(Mode::Embedded, true);
    assert_eq!(gui.open(), Opening::AlreadyOpen);
    assert!(gui.close());
    assert!(!gui.close());
    assert_eq!(gui.open(), Opening::Open(Mode::Embedded));

    assert_eq!(PluginGuiManager::new(None).open(), Opening::Unsupported);
    assert!(PluginGuiManager::new(Some(Mode::Floating)).is_floating());
}

#[test]
fn a_floating_window_is_not_resized() {
    let mut gui = PluginGuiManager::new(Some(Mode::Floating));
    gui.opened(Mode::Floating, false);
    assert_eq!(gui.on_user_resized(), Resized::Ignore);
    assert_eq!(gui.on_plugin_request_resize(10, 20), None);
}

#[test]
fn an_embedded_window_follows_the_plugin() {
    let mut gui = PluginGuiManager::new(Some(Mode::Embedded));
    assert_eq!(gui.on_user_resized(), Resized::Ignore);
    gui.opened(Mode::Embedded, false);
    assert_eq!(gui.on_user_resized(), Resized::Restore);
    assert_eq!(gui.on_plugin_request_resize(10, 20), Some((10, 20)));
    gui.opened(Mode::Embedded, true);
    assert_eq!(gui.on_user_resized(), Resized::Adjust);

    assert_eq!(initial_size(None), (640, 480));
    assert_eq!(initial_size(Some((3, 4))), (3, 4));
    assert_eq!(size_to_restore(Some((3, 4)), 5, 4), Some((3, 4)));
    assert_eq!(size_to_restore(Some((3, 4)), 3, 4), None);
    assert_eq!(size_to_restore(None, 3, 4), None);
    assert_eq!(size_to_adjust(Some((8, 9)), 7, 9), ((8, 9), Some((8, 9))));
    assert_eq!(size_to_adjust(None, 7, 9), ((7, 9), None));
}

#[test]
fn an_editor_is_opened_and_resized() {
    assert_eq!(Vst3GuiManager::new(false).open(), Opening::Unsupported);
    let mut gui = Vst3GuiManager::new(true);
    assert!(gui.supports_gui());
    assert_eq!(gui.open(), Opening::Open(Mode::Embedded));
    assert_eq!(gui.on_user_resized(5, 6), None);
    assert_eq!(gui.poll_resize_request(Some((5, 6))), None);
    assert!(!gui.polls());

    gui.opened();
    assert!(gui.polls());
    assert_eq!(gui.open(), Opening::AlreadyOpen);
    assert_eq!(gui.poll_resize_request(Some((5, 6))), Some((5, 6)));
    assert_eq!(gui.poll_resize_request(Some((0, 6))), None);
    assert_eq!(gui.poll_resize_request(None), None);
    assert_eq!(gui.on_user_resized(0, 6), Some((1, 6)));
    assert_eq!(Vst3GuiManager::accepted(Some((7, 6)), 5, 6), Some((7, 6)));
    assert_eq!(Vst3GuiManager::accepted(Some((-7, 6)), 5, 6), Some((1, 6)));
    assert_eq!(Vst3GuiManager::accepted(Some((5, 6)), 5, 6), None);
    assert_eq!(Vst3GuiManager::accepted(None, 5, 6), None);
    assert_eq!(editor_size(Some((0, 0))), None);
    assert!(gui.close());
    assert!(!gui.is_open);
}

#[test]
fn only_the_frame_changes() {
    let frame = 0x0005_0000;
    assert_eq!(style_with(0x00cf_0000, frame, false), 0x00ca_0000);
    assert_eq!(style_with(0x00ca_0000, frame, true), 0x00cf_0000);
}

#[test]
fn a_size_is_taken_from_a_message() {
    assert_eq!(told_size(false, 0x0258_0320), Some((800, 600)));
    assert_eq!(told_size(true, 0x0258_0320), None);
    assert_eq!(extent(10, 25), 15);
    assert_eq!(extent(25, 10), 0);
}

#[test]
fn parts_are_described() {
    let part = Part { left: 110, top: 220, right: 410, bottom: 420, enabled: true, visible: false };
    assert_eq!(
        describe("Surge", Some(part), 100, 200),
        "Surge: 300x200 @(10,20) 有効=true 表示=false"
    );
    assert_eq!(describe("Surge", None, 0, 0), "Surge: 位置を取得できない");
}

fn info(id: u32, name: &[u8]) -> ParamInfo {
    ParamInfo {
        id,
        name: name.to_vec(),
        min: 0f64.to_bits(),
        max: 1f64.to_bits(),
        default: 0.5f64.to_bits(),
        is_hidden: false,
        is_stepped: true,
        value: None,
    }
}

#[test]
fn hidden_parameters_are_left_out() {
    let infos = vec![
        Some(info(1, b"Gain")),
        None,
        Some(ParamInfo { is_hidden: true, ..info(2, b"Secret") }),
        Some(ParamInfo { value: Some(0.25f64.to_bits()), ..info(3, b"Pan") }),
    ];
    let entries = read_params(&infos);
    assert_eq!(entries.len(), 2);
    assert_eq!((entries[0].id, entries[0].name.as_str()), (1, "Gain"));
    assert_eq!(f64::from_bits(entries[0].value), 0.5);
    assert_eq!((entries[1].id, entries[1].name.as_str()), (3, "Pan"));
    assert_eq!(f64::from_bits(entries[1].value), 0.25);
    assert!(entries[1].is_stepped);
}

#[test]
fn names_that_are_not_text_are_mended() {
    let entries = read_params(&vec![Some(info(1, &[b'A', 0xff, b'B']))]);
    assert_eq!(entries[0].name, "A\u{fffd}B");
    assert_eq!(entry(&info(4, b""), "x".to_string()).name, "x");
}

#[test]
fn the_first_path_is_loaded() {
    let read = |arguments: &[&str]| {
        let launch = read_arguments(&arguments.iter().map(|a| a.to_string()).collect());
        (launch.path, launch.open_gui)
    };
    assert_eq!(read(&["--open-gui", "a.clap", "b.clap"]), (Some("a.clap".to_string()), true));
    assert_eq!(read(&["--other", "-x"]), (Some("-x".to_string()), false));
    assert_eq!(read(&[]), (None, false));
}
