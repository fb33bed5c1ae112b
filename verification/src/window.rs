//! The windows of plugins: how one is opened, and what follows when it or its
//! contents are resized. The calls to the plugin and to the window system are
//! made elsewhere; here it is decided which ones.

use crate::text::{signed_decimal, signed_text};
use vstd::prelude::*;
use vstd::string::StringExecFns;

verus! {

/// The size of a window whose contents do not tell theirs.
pub const DEFAULT_SIZE: (u32, u32) = (640, 480);

/// The most parts of a window that are described.
pub const MAX_CHILDREN: usize = 16;

/// Who makes the window.
#[derive(Clone, Copy, PartialEq, Eq, Structural, Debug)]
pub enum Mode {
    /// The host does, and the plugin draws into it.
    Embedded,
    /// The plugin does.
    Floating,
}

/// Finding a mode that a plugin supports.
#[derive(Clone, Copy, PartialEq, Eq, Structural, Debug)]
pub enum Negotiation {
    /// The plugin is asked for a mode.
    Ask(Mode),
    /// A mode was found, or none.
    Done(Option<Mode>),
}

/// What opening a window takes.
#[derive(Clone, Copy, PartialEq, Eq, Structural, Debug)]
pub enum Opening {
    /// Nothing: it is open.
    AlreadyOpen,
    /// There is nothing to open.
    Unsupported,
    /// It is opened in a mode.
    Open(Mode),
}

/// What follows when a window was resized by hand.
#[derive(Clone, Copy, PartialEq, Eq, Structural, Debug)]
pub enum Resized {
    /// Nothing.
    Ignore,
    /// The plugin's size is fixed: the window goes back to it.
    Restore,
    /// The plugin is asked for the nearest size that it can have.
    Adjust,
}

/// The window of a CLAP plugin.
#[derive(Clone, Copy, PartialEq, Eq, Structural, Debug)]
pub struct PluginGuiManager {
    /// The mode that was found.
    pub mode: Option<Mode>,
    /// Whether there is a window of the host.
    pub has_window: bool,
    pub is_open: bool,
    pub can_resize: bool,
}

/// The window of a VST3 plugin. It is always one of the host.
#[derive(Clone, Copy, PartialEq, Eq, Structural, Debug)]
pub struct Vst3GuiManager {
    pub has_window: bool,
    pub is_open: bool,
    /// Whether the plugin has an editor.
    pub has_editor: bool,
}

/// The first question: whether the plugin can draw into a window of the host.
pub fn begin_negotiation() -> (next: Negotiation)
    ensures
        next == Negotiation::Ask(Mode::Embedded),
{
    Negotiation::Ask(Mode::Embedded)
}

/// What follows an answer. A plugin that cannot be embedded may make its own
/// window.
pub fn after_answer(asked: Mode, supported: bool) -> (next: Negotiation)
    ensures
        next == answered(asked, supported),
        supported ==> next == Negotiation::Done(Some(asked)),
        !supported && asked is Embedded ==> next == Negotiation::Ask(Mode::Floating),
        !supported && asked is Floating ==> next == Negotiation::Done(None),
{
    if supported {
        Negotiation::Done(Some(asked))
    } else {
        match asked {
            Mode::Embedded => Negotiation::Ask(Mode::Floating),
            Mode::Floating => Negotiation::Done(None),
        }
    }
}

/// What follows an answer.
pub open spec fn answered(asked: Mode, supported: bool) -> Negotiation {
    if supported {
        Negotiation::Done(Some(asked))
    } else if asked is Embedded {
        Negotiation::Ask(Mode::Floating)
    } else {
        Negotiation::Done(None)
    }
}

/// The mode that a negotiation ends in, given what the plugin supports.
pub open spec fn negotiated(embedded: bool, floating: bool) -> Option<Mode> {
    match answered(Mode::Embedded, embedded) {
        Negotiation::Done(mode) => mode,
        Negotiation::Ask(asked) => match answered(asked, floating) {
            Negotiation::Done(mode) => mode,
            Negotiation::Ask(_) => None,
        },
    }
}

/// Embedding is preferred, a floating window comes second, and where there is
/// neither, there is no window.
pub proof fn embedding_is_preferred(embedded: bool, floating: bool)
    ensures
        negotiated(embedded, floating) == Some(Mode::Embedded) <==> embedded,
        negotiated(embedded, floating) == Some(Mode::Floating) <==> !embedded && floating,
        negotiated(embedded, floating) is None <==> !embedded && !floating,
{
}

/// The size of a window for contents of which the size may be unknown.
pub fn initial_size(told: Option<(u32, u32)>) -> (size: (u32, u32))
    ensures
        size == (match told {
            Some(size) => size,
            None => DEFAULT_SIZE,
        }),
{
    match told {
        Some(size) => size,
        None => DEFAULT_SIZE,
    }
}

/// The size to go back to, if the window has another one.
pub fn size_to_restore(own: Option<(u32, u32)>, width: u32, height: u32) -> (size: Option<
    (u32, u32),
>)
    ensures
        size == (match own {
            Some(own) => if own == (width, height) {
                None
            } else {
                Some(own)
            },
            None => None,
        }),
{
    match own {
        Some(own) => {
            if own.0 != width || own.1 != height {
                Some(own)
            } else {
                None
            }
        },
        None => None,
    }
}

/// The size that the plugin gets, and the one that the window gets if it is
/// another one. A plugin that does not answer gets the size that was asked for.
pub fn size_to_adjust(adjusted: Option<(u32, u32)>, width: u32, height: u32) -> (sizes: (
    (u32, u32),
    Option<(u32, u32)>,
))
    ensures
        sizes.0 == (match adjusted {
            Some(size) => size,
            None => (width, height),
        }),
        sizes.1 == (if sizes.0 == (width, height) {
            None
        } else {
            Some(sizes.0)
        }),
{
    let size: (u32, u32) = match adjusted {
        Some(size) => size,
        None => (width, height),
    };
    if size.0 != width || size.1 != height {
        (size, Some(size))
    } else {
        (size, None)
    }
}

impl PluginGuiManager {
    /// The window of a plugin, closed.
    pub fn new(mode: Option<Mode>) -> (gui: PluginGuiManager)
        ensures
            gui == (PluginGuiManager {
                mode,
                has_window: false,
                is_open: false,
                can_resize: false,
            }),
    {
        PluginGuiManager { mode, has_window: false, is_open: false, can_resize: false }
    }

    /// Whether there is a window to open.
    pub fn supports_gui(&self) -> (yes: bool)
        ensures
            yes == (self.mode is Some),
    {
        self.mode.is_some()
    }

    /// Whether the plugin makes its own window.
    pub fn is_floating(&self) -> (yes: bool)
        ensures
            yes == (self.mode == Some(Mode::Floating)),
    {
        matches!(self.mode, Some(Mode::Floating))
    }

    /// What opening the window takes.
    pub fn open(&self) -> (opening: Opening)
        ensures
            opening == (if self.is_open {
                Opening::AlreadyOpen
            } else {
                match self.mode {
                    Some(mode) => Opening::Open(mode),
                    None => Opening::Unsupported,
                }
            }),
    {
        if self.is_open {
            return Opening::AlreadyOpen;
        }
        match self.mode {
            Some(mode) => Opening::Open(mode),
            None => Opening::Unsupported,
        }
    }

    /// The window was opened. Whether it can be resized is known of a window of
    /// the host.
    pub fn opened(&mut self, mode: Mode, can_resize: bool)
        ensures
            *final(self) == (match mode {
                Mode::Floating => PluginGuiManager { is_open: true, ..*old(self) },
                Mode::Embedded => PluginGuiManager {
                    is_open: true,
                    has_window: true,
                    can_resize,
                    ..*old(self)
                },
            }),
    {
        match mode {
            Mode::Floating => {},
            Mode::Embedded => {
                self.has_window = true;
                self.can_resize = can_resize;
            },
        }
        self.is_open = true;
    }

    /// The size that the window gets when the plugin asks for one.
    pub fn on_plugin_request_resize(&self, width: u32, height: u32) -> (size: Option<(u32, u32)>)
        ensures
            size == (if self.has_window {
                Some((width, height))
            } else {
                None
            }),
    {
        if self.has_window {
            Some((width, height))
        } else {
            None
        }
    }

    /// What follows when the window was resized by hand.
    pub fn on_user_resized(&self) -> (next: Resized)
        ensures
            next == (if !self.is_open || !self.has_window {
                Resized::Ignore
            } else if self.can_resize {
                Resized::Adjust
            } else {
                Resized::Restore
            }),
    {
        if !self.is_open || !self.has_window {
            Resized::Ignore
        } else if self.can_resize {
            Resized::Adjust
        } else {
            Resized::Restore
        }
    }

    /// Closes the window. Says whether the plugin is told.
    pub fn close(&mut self) -> (told: bool)
        ensures
            told == old(self).is_open,
            *final(self) == (PluginGuiManager {
                is_open: false,
                has_window: false,
                ..*old(self)
            }),
    {
        let told: bool = self.is_open;
        self.is_open = false;
        self.has_window = false;
        told
    }
}

/// A signed number of the same 32 bits.
pub open spec fn signed_bits(number: u32) -> int {
    if number <= i32::MAX {
        number as int
    } else {
        number - 0x1_0000_0000
    }
}

/// An unsigned number of the same 32 bits.
pub open spec fn unsigned_bits(number: i32) -> int {
    if number >= 0 {
        number as int
    } else {
        number + 0x1_0000_0000
    }
}

fn to_signed(number: u32) -> (same: i32)
    ensures
        same == signed_bits(number),
{
    if number <= i32::MAX as u32 {
        number as i32
    } else {
        (number as i64 - 0x1_0000_0000) as i32
    }
}

fn to_unsigned(number: i32) -> (same: u32)
    ensures
        same == unsigned_bits(number),
{
    if number >= 0 {
        number as u32
    } else {
        (number as i64 + 0x1_0000_0000) as u32
    }
}

/// A length, at least one.
pub open spec fn at_least_one(length: int) -> int {
    if length < 1 {
        1
    } else {
        length
    }
}

/// The size that the window gets for an editor. Lengths that are not positive are
/// ignored.
pub fn editor_size(told: Option<(i32, i32)>) -> (size: Option<(u32, u32)>)
    ensures
        size == (match told {
            Some(told) => if told.0 > 0 && told.1 > 0 {
                Some((told.0 as u32, told.1 as u32))
            } else {
                None
            },
            None => None,
        }),
{
    match told {
        Some(told) => {
            if told.0 > 0 && told.1 > 0 {
                Some((told.0 as u32, told.1 as u32))
            } else {
                None
            }
        },
        None => None,
    }
}

impl Vst3GuiManager {
    /// The window of a plugin, closed.
    pub fn new(has_editor: bool) -> (gui: Vst3GuiManager)
        ensures
            gui == (Vst3GuiManager { has_window: false, is_open: false, has_editor }),
    {
        Vst3GuiManager { has_window: false, is_open: false, has_editor }
    }

    /// Whether there is an editor to open.
    pub fn supports_gui(&self) -> (yes: bool)
        ensures
            yes == self.has_editor,
    {
        self.has_editor
    }

    /// What opening the window takes.
    pub fn open(&self) -> (opening: Opening)
        ensures
            opening == (if self.is_open {
                Opening::AlreadyOpen
            } else if self.has_editor {
                Opening::Open(Mode::Embedded)
            } else {
                Opening::Unsupported
            }),
    {
        if self.is_open {
            Opening::AlreadyOpen
        } else if self.has_editor {
            Opening::Open(Mode::Embedded)
        } else {
            Opening::Unsupported
        }
    }

    /// The window was opened.
    pub fn opened(&mut self)
        ensures
            *final(self) == (Vst3GuiManager { is_open: true, has_window: true, ..*old(self) }),
    {
        self.is_open = true;
        self.has_window = true;
    }

    /// Whether the plugin is asked for a size that it wants.
    pub fn polls(&self) -> (yes: bool)
        ensures
            yes == self.is_open,
    {
        self.is_open
    }

    /// The size that the window gets when the plugin wants one.
    pub fn poll_resize_request(&self, wanted: Option<(i32, i32)>) -> (size: Option<(u32, u32)>)
        ensures
            size == (match wanted {
                Some(wanted) => if self.is_open && self.has_window && wanted.0 > 0 && wanted.1
                    > 0 {
                    Some((wanted.0 as u32, wanted.1 as u32))
                } else {
                    None
                },
                None => None,
            }),
    {
        if self.is_open && self.has_window {
            editor_size(wanted)
        } else {
            None
        }
    }

    /// The size that the plugin is asked to take when the window was resized by
    /// hand.
    pub fn on_user_resized(&self, width: u32, height: u32) -> (request: Option<(i32, i32)>)
        ensures
            match request {
                Some(request) => {
                    &&& self.is_open && self.has_window
                    &&& request.0 == signed_bits(at_least_one(width as int) as u32)
                    &&& request.1 == signed_bits(at_least_one(height as int) as u32)
                },
                None => !self.is_open || !self.has_window,
            },
    {
        if !self.is_open || !self.has_window {
            return None;
        }
        let width: u32 = if width < 1 {
            1
        } else {
            width
        };
        let height: u32 = if height < 1 {
            1
        } else {
            height
        };
        Some((to_signed(width), to_signed(height)))
    }

    /// The size that the window gets when the plugin took another one than it was
    /// given.
    pub fn accepted(taken: Option<(i32, i32)>, width: u32, height: u32) -> (size: Option<
        (u32, u32),
    >)
        ensures
            size == (match taken {
                Some(taken) => if unsigned_bits(taken.0) != width || unsigned_bits(taken.1)
                    != height {
                    Some(
                        (
                            at_least_one(taken.0 as int) as u32,
                            at_least_one(taken.1 as int) as u32,
                        ),
                    )
                } else {
                    None
                },
                None => None,
            }),
    {
        match taken {
            Some(taken) => {
                if to_unsigned(taken.0) != width || to_unsigned(taken.1) != height {
                    let across: u32 = if taken.0 < 1 {
                        1
                    } else {
                        taken.0 as u32
                    };
                    let down: u32 = if taken.1 < 1 {
                        1
                    } else {
                        taken.1 as u32
                    };
                    Some((across, down))
                } else {
                    None
                }
            },
            None => None,
        }
    }

    /// Closes the window. Says whether the plugin is told.
    pub fn close(&mut self) -> (told: bool)
        ensures
            told == old(self).is_open,
            *final(self) == (Vst3GuiManager { is_open: false, has_window: false, ..*old(self) }),
    {
        let told: bool = self.is_open;
        self.is_open = false;
        self.has_window = false;
        told
    }
}

/// A window's style with the bits of a frame that can be dragged set or cleared.
pub open spec fn framed(style: u32, frame: u32, resizable: bool) -> u32 {
    if resizable {
        style | frame
    } else {
        style & !frame
    }
}

/// A window's style with the bits of a frame that can be dragged set or cleared.
pub fn style_with(style: u32, frame: u32, resizable: bool) -> (updated: u32)
    ensures
        updated == framed(style, frame, resizable),
{
    if resizable {
        style | frame
    } else {
        style & !frame
    }
}

/// Only the bits of the frame change, and what was set last holds.
pub proof fn only_the_frame_changes(style: u32, frame: u32, first: bool, last: bool)
    ensures
        framed(style, frame, last) & !frame == style & !frame,
        framed(style, frame, last) & frame == (if last {
            frame
        } else {
            0
        }),
        framed(framed(style, frame, first), frame, last) == framed(style, frame, last),
{
    assert((style | frame) & !frame == style & !frame) by (bit_vector);
    assert((style & !frame) & !frame == style & !frame) by (bit_vector);
    assert((style | frame) & frame == frame) by (bit_vector);
    assert((style & !frame) & frame == 0) by (bit_vector);
    assert((style | frame) | frame == style | frame) by (bit_vector);
    assert((style & !frame) | frame == style | frame) by (bit_vector);
}

/// The size in a message of the window system: the width in the lower 16 bits,
/// the height in the 16 above them. A window that was minimised has none.
pub fn told_size(minimised: bool, packed: u64) -> (size: Option<(u32, u32)>)
    ensures
        size == (if minimised {
            None
        } else {
            Some(((packed % 65536) as u32, (packed / 65536 % 65536) as u32))
        }),
{
    if minimised {
        None
    } else {
        Some(((packed % 65536) as u32, (packed / 65536 % 65536) as u32))
    }
}

/// The length between two edges, not below zero.
pub fn extent(from: i32, to: i32) -> (length: u32)
    requires
        to - from <= i32::MAX,
    ensures
        length == (if to < from {
            0
        } else {
            to - from
        }),
{
    if to < from {
        0
    } else {
        (to as i64 - from as i64) as u32
    }
}

/// A part of a window, in the coordinates of the screen.
#[derive(Clone, Copy, PartialEq, Eq, Structural, Debug)]
pub struct Part {
    pub left: i32,
    pub top: i32,
    pub right: i32,
    pub bottom: i32,
    pub enabled: bool,
    pub visible: bool,
}

/// A truth value in words.
pub open spec fn truth(value: bool) -> Seq<char> {
    if value {
        "true"@
    } else {
        "false"@
    }
}

fn truth_text(value: bool) -> (text: &'static str)
    ensures
        text@ == truth(value),
{
    if value {
        "true"
    } else {
        "false"
    }
}

/// The description of a part: its class, its size, its place in the window, and
/// whether it takes input and is shown.
pub open spec fn described(class: Seq<char>, part: Option<Part>, left: i32, top: i32) -> Seq<
    char,
> {
    match part {
        None => class + ": 位置を取得できない"@,
        Some(part) => class + ": "@ + signed_decimal(part.right - part.left) + "x"@
            + signed_decimal(part.bottom - part.top) + " @("@ + signed_decimal(part.left - left)
            + ","@ + signed_decimal(part.top - top) + ") 有効="@ + truth(part.enabled)
            + " 表示="@ + truth(part.visible),
    }
}

/// Describes a part of a window that begins at `left` and `top`.
pub fn describe(class: &str, part: Option<Part>, left: i32, top: i32) -> (text: String)
    ensures
        text@ == described(class@, part, left, top),
{
    let mut text = String::from_str(class);
    match part {
        None => {
            text.append(": 位置を取得できない");
        },
        Some(part) => {
            text.append(": ");
            text.append(signed_text(part.right as i64 - part.left as i64).as_str());
            text.append("x");
            text.append(signed_text(part.bottom as i64 - part.top as i64).as_str());
            text.append(" @(");
            text.append(signed_text(part.left as i64 - left as i64).as_str());
            text.append(",");
            text.append(signed_text(part.top as i64 - top as i64).as_str());
            text.append(") 有効=");
            text.append(truth_text(part.enabled));
            text.append(" 表示=");
            text.append(truth_text(part.visible));
        },
    }
    text
}

/// Numbers of the same bits are the same, or differ by as many numbers as there
/// are of 32 bits; and each leads back to the other.
pub proof fn the_same_bits_lead_back(number: u32, signed: i32)
    ensures
        i32::MIN <= signed_bits(number) <= i32::MAX,
        signed_bits(number) == number || signed_bits(number) + 0x1_0000_0000 == number,
        number < 0x8000_0000 ==> signed_bits(number) == number,
        0 <= unsigned_bits(signed) <= u32::MAX,
        signed >= 0 ==> unsigned_bits(signed) == signed,
        unsigned_bits(signed_bits(number) as i32) == number,
        signed_bits(unsigned_bits(signed) as u32) == signed,
{
}

} // verus!
