//! Project files: what is written, what is accepted, and what becomes of it.
//!
//! The file's structures stand by themselves, beside those of the sequence, such
//! that the one can change without the other. Turning them into text and back is
//! done elsewhere.

use crate::edit::is_beat_type;
use crate::sequencer::{EditorView, MidiEditor, Note, ScaleMode, TrackInfo, TrackView};
use crate::text::{decimal, decimal_text, ordinal_text, signed_decimal, signed_text};
use base64::Engine;
use vstd::prelude::*;
use vstd::string::StringExecFns;

verus! {

/// The version of the file format.
pub const VERSION: u32 = 2;

/// The format of a plugin.
#[derive(Clone, Copy, PartialEq, Eq, Structural, Debug)]
pub enum PluginKind {
    Clap,
    Vst3,
}

impl Default for PluginKind {
    fn default() -> (kind: PluginKind)
        ensures
            kind == PluginKind::Clap,
    {
        PluginKind::Clap
    }
}

/// A plugin and its state.
#[derive(Debug)]
pub struct PluginSnapshot {
    pub kind: PluginKind,
    pub path: String,
    /// Which of the plugins in the file it is.
    pub id: String,
    /// What the plugin gave as its state.
    pub state: Vec<u8>,
}

/// What a [`PluginSnapshot`] holds.
#[verifier::ext_equal]
pub struct PluginView {
    pub kind: PluginKind,
    pub path: Seq<char>,
    pub id: Seq<char>,
    pub state: Seq<u8>,
}

impl View for PluginSnapshot {
    type V = PluginView;

    open spec fn view(&self) -> PluginView {
        PluginView { kind: self.kind, path: self.path@, id: self.id@, state: self.state@ }
    }
}

/// The view of a plugin, if there is one.
pub open spec fn slot_view(slot: Option<PluginSnapshot>) -> Option<PluginView> {
    match slot {
        Some(plugin) => Some(plugin@),
        None => None,
    }
}

/// The views of plugins in their slots.
pub open spec fn slot_views(slots: Seq<Option<PluginSnapshot>>) -> Seq<Option<PluginView>> {
    Seq::new(slots.len(), |i: int| slot_view(slots[i]))
}

/// A project that was read.
#[derive(Debug)]
pub struct Loaded {
    pub editor: MidiEditor,
    /// The plugin of each track.
    pub plugins: Vec<Option<PluginSnapshot>>,
}

/// What a [`Loaded`] holds.
#[verifier::ext_equal]
pub struct LoadedView {
    pub editor: EditorView,
    pub plugins: Seq<Option<PluginView>>,
}

impl View for Loaded {
    type V = LoadedView;

    open spec fn view(&self) -> LoadedView {
        LoadedView { editor: self.editor@, plugins: slot_views(self.plugins@) }
    }
}

/// A plugin in a file. Its state is text.
#[derive(Debug)]
pub struct PluginEntry {
    pub kind: PluginKind,
    pub path: String,
    pub id: String,
    pub state: String,
}

/// What a [`PluginEntry`] holds.
#[verifier::ext_equal]
pub struct PluginEntryView {
    pub kind: PluginKind,
    pub path: Seq<char>,
    pub id: Seq<char>,
    pub state: Seq<char>,
}

impl View for PluginEntry {
    type V = PluginEntryView;

    open spec fn view(&self) -> PluginEntryView {
        PluginEntryView { kind: self.kind, path: self.path@, id: self.id@, state: self.state@ }
    }
}

/// The view of a plugin in a file, if there is one.
pub open spec fn entry_slot(slot: Option<PluginEntry>) -> Option<PluginEntryView> {
    match slot {
        Some(entry) => Some(entry@),
        None => None,
    }
}

/// The views of plugins in a file.
pub open spec fn entry_slots(slots: Seq<Option<PluginEntry>>) -> Seq<Option<PluginEntryView>> {
    Seq::new(slots.len(), |i: int| entry_slot(slots[i]))
}

/// A track in a file.
#[derive(Debug)]
pub struct TrackEntry {
    pub name: String,
    pub lanes: usize,
    pub muted: bool,
    pub soloed: bool,
    pub swing: bool,
    pub waltz: bool,
    pub lane_ccs: Vec<Option<u8>>,
}

/// What a [`TrackEntry`] holds.
#[verifier::ext_equal]
pub struct TrackEntryView {
    pub name: Seq<char>,
    pub lanes: usize,
    pub muted: bool,
    pub soloed: bool,
    pub swing: bool,
    pub waltz: bool,
    pub lane_ccs: Seq<Option<u8>>,
}

impl View for TrackEntry {
    type V = TrackEntryView;

    open spec fn view(&self) -> TrackEntryView {
        TrackEntryView {
            name: self.name@,
            lanes: self.lanes,
            muted: self.muted,
            soloed: self.soloed,
            swing: self.swing,
            waltz: self.waltz,
            lane_ccs: self.lane_ccs@,
        }
    }
}

/// The views of tracks in a file.
pub open spec fn track_entries(tracks: Seq<TrackEntry>) -> Seq<TrackEntryView> {
    Seq::new(tracks.len(), |i: int| tracks[i]@)
}

/// A length of time in a file. It may be no number at all.
#[derive(Debug)]
pub struct Span {
    /// The ticks; `None` where it is no finite number.
    pub ticks: Option<i64>,
    /// The number as it is shown to the user.
    pub text: String,
}

/// A note in a file.
#[derive(Debug)]
pub struct NoteEntry {
    pub start: Span,
    pub duration: Span,
    pub semitone: i32,
    pub octave: i32,
    pub velocity: u8,
    pub track: usize,
    pub lane: usize,
}

/// What a [`NoteEntry`] holds.
#[verifier::ext_equal]
pub struct NoteEntryView {
    pub start: Option<i64>,
    pub start_text: Seq<char>,
    pub duration: Option<i64>,
    pub duration_text: Seq<char>,
    pub semitone: i32,
    pub octave: i32,
    pub velocity: u8,
    pub track: usize,
    pub lane: usize,
}

impl View for NoteEntry {
    type V = NoteEntryView;

    open spec fn view(&self) -> NoteEntryView {
        NoteEntryView {
            start: self.start.ticks,
            start_text: self.start.text@,
            duration: self.duration.ticks,
            duration_text: self.duration.text@,
            semitone: self.semitone,
            octave: self.octave,
            velocity: self.velocity,
            track: self.track,
            lane: self.lane,
        }
    }
}

/// The views of notes in a file.
pub open spec fn note_entries(notes: Seq<NoteEntry>) -> Seq<NoteEntryView> {
    Seq::new(notes.len(), |i: int| notes[i]@)
}

/// A project in a file. The plugins come last: they may be large, and the rest
/// should be found at the front.
#[derive(Debug)]
pub struct Project {
    pub version: u32,
    pub tempo: u32,
    pub beats: u32,
    pub beat_type: u32,
    pub scale: ScaleMode,
    /// The bits of a single-precision number, within its limits.
    pub swing_peak_ratio: u32,
    /// The bits of a single-precision number, within its limits.
    pub waltz_ratio: u32,
    pub tracks: Vec<TrackEntry>,
    pub notes: Vec<NoteEntry>,
    pub plugins: Vec<Option<PluginEntry>>,
}

/// What a [`Project`] holds.
#[verifier::ext_equal]
pub struct ProjectView {
    pub version: u32,
    pub tempo: u32,
    pub beats: u32,
    pub beat_type: u32,
    pub scale: ScaleMode,
    pub swing_peak_ratio: u32,
    pub waltz_ratio: u32,
    pub tracks: Seq<TrackEntryView>,
    pub notes: Seq<NoteEntryView>,
    pub plugins: Seq<Option<PluginEntryView>>,
}

impl View for Project {
    type V = ProjectView;

    open spec fn view(&self) -> ProjectView {
        ProjectView {
            version: self.version,
            tempo: self.tempo,
            beats: self.beats,
            beat_type: self.beat_type,
            scale: self.scale,
            swing_peak_ratio: self.swing_peak_ratio,
            waltz_ratio: self.waltz_ratio,
            tracks: track_entries(self.tracks@),
            notes: note_entries(self.notes@),
            plugins: entry_slots(self.plugins@),
        }
    }
}

/// Bytes as Base64 text.
pub uninterp spec fn base64_text(bytes: Seq<u8>) -> Seq<char>;

/// The bytes that a Base64 text stands for, if it is one.
pub uninterp spec fn base64_bytes(text: Seq<char>) -> Option<Seq<u8>>;

/// Bytes as Base64 text: calls [`base64::Engine::encode`] of the engine
/// `STANDARD`.
///
/// Claimed of it: the text depends on the bytes alone, and decoding it with the
/// same engine gives the bytes back. The limit keeps the text's length within
/// what memory can hold.
#[verifier::external_body]
fn encode_base64(bytes: &Vec<u8>) -> (text: String)
    requires
        bytes@.len() <= usize::MAX / 4,
    ensures
        text@ == base64_text(bytes@),
        base64_bytes(text@) == Some(bytes@),
{
    base64::engine::general_purpose::STANDARD.encode(bytes)
}

/// The bytes that a Base64 text stands for: calls [`base64::Engine::decode`] of
/// the engine `STANDARD`.
///
/// Claimed of it: whether it succeeds, and the bytes, depend on the text alone.
#[verifier::external_body]
fn decode_base64(text: &str) -> (bytes: Option<Vec<u8>>)
    ensures
        match bytes {
            Some(bytes) => base64_bytes(text@) == Some(bytes@),
            None => base64_bytes(text@) is None,
        },
{
    base64::engine::general_purpose::STANDARD.decode(text).ok()
}

/// What is said of a file of a version that cannot be read.
pub open spec fn newer_message(version: u32) -> Seq<char> {
    "このファイルはバージョン "@ + decimal(version as nat)
        + " で保存されています。\nこのビルドが読めるのはバージョン "@ + decimal(VERSION as nat)
        + " までです。"@
}

/// Checks the version of a file before anything else of it is read.
pub fn check_version(version: u32) -> (result: Result<(), String>)
    ensures
        version <= VERSION ==> result is Ok,
        version > VERSION ==> (result matches Err(message) && message@ == newer_message(version)),
{
    if version > VERSION {
        let mut message = String::from_str("このファイルはバージョン ");
        message.append(decimal_text(version as u64).as_str());
        message.append(" で保存されています。\nこのビルドが読めるのはバージョン ");
        message.append(decimal_text(VERSION as u64).as_str());
        message.append(" までです。");
        Err(message)
    } else {
        Ok(())
    }
}

/// What is wrong with the tempo.
pub open spec fn tempo_problem(tempo: u32) -> Seq<char> {
    "・テンポ "@ + decimal(tempo as nat) + " は範囲外です (1〜999)"@
}

/// What is wrong with the beats of a bar.
pub open spec fn beats_problem() -> Seq<char> {
    "・拍子の分子は 1 以上である必要があります"@
}

/// What is wrong with the kind of beat.
pub open spec fn beat_type_problem(beat_type: u32) -> Seq<char> {
    "・拍子の分母 "@ + decimal(beat_type as nat)
        + " は使えません (1 / 2 / 4 / 8 / 16 / 32 のいずれか)"@
}

/// What is wrong where there are no tracks.
pub open spec fn no_tracks_problem() -> Seq<char> {
    "・トラックが1つもありません"@
}

/// What is wrong with a track without lanes.
pub open spec fn no_lanes_problem(index: int) -> Seq<char> {
    "・トラック "@ + decimal((index + 1) as nat) + " の段数が 0 です"@
}

/// How a note is named in what is wrong with it.
pub open spec fn note_name(index: int) -> Seq<char> {
    "・ノート "@ + decimal((index + 1) as nat)
}

/// `message` where it applies.
pub open spec fn if_so(applies: bool, message: Seq<char>) -> Seq<Seq<char>> {
    if applies {
        seq![message]
    } else {
        Seq::empty()
    }
}

impl ProjectView {
    /// Whether a note's step is in the scale.
    pub open spec fn has_step(self, note: NoteEntryView) -> bool {
        0 <= note.semitone < self.scale.steps()
    }

    /// What is wrong with the head of the file.
    pub open spec fn head_problems(self) -> Seq<Seq<char>> {
        if_so(!(1 <= self.tempo <= 999), tempo_problem(self.tempo)) + if_so(
            self.beats < 1,
            beats_problem(),
        ) + if_so(!is_beat_type(self.beat_type), beat_type_problem(self.beat_type)) + if_so(
            self.tracks.len() == 0,
            no_tracks_problem(),
        )
    }

    /// What is wrong with the first `count` tracks.
    pub open spec fn track_problems(self, count: int) -> Seq<Seq<char>>
        decreases count,
    {
        if count <= 0 {
            Seq::empty()
        } else {
            self.track_problems(count - 1) + if_so(
                self.tracks[count - 1].lanes < 1,
                no_lanes_problem(count - 1),
            )
        }
    }

    /// What is wrong with a note's place.
    pub open spec fn place_problems(self, index: int, note: NoteEntryView) -> Seq<Seq<char>> {
        if note.track >= self.tracks.len() {
            seq![
                note_name(index) + ": トラック "@ + decimal((note.track + 1) as nat)
                    + " は存在しません"@,
            ]
        } else {
            let lanes = self.tracks[note.track as int].lanes;
            if_so(
                note.lane >= (if lanes < 1 {
                    1
                } else {
                    lanes as int
                }),
                note_name(index) + ": トラック "@ + decimal((note.track + 1) as nat) + " に段 "@
                    + decimal((note.lane + 1) as nat) + " はありません"@,
            )
        }
    }

    /// What is wrong with a note.
    pub open spec fn note_problems(self, index: int) -> Seq<Seq<char>> {
        let note = self.notes[index];
        match (note.start, note.duration) {
            (Some(start), Some(duration)) => if_so(
                start < 0,
                note_name(index) + ": 位置 "@ + note.start_text + " が負です"@,
            ) + if_so(
                duration <= 0,
                note_name(index) + ": 音価 "@ + note.duration_text + " が 0 以下です"@,
            ) + if_so(
                !self.has_step(note),
                note_name(index) + ": 半音 "@ + signed_decimal(note.semitone as int) + " は "@
                    + self.scale.label_text() + " では 0〜"@ + decimal(
                    (self.scale.steps() - 1) as nat,
                ) + " の範囲です"@,
            ) + self.place_problems(index, note),
            _ => seq![note_name(index) + ": 位置か音価が数値ではありません"@],
        }
    }

    /// What is wrong with the first `count` notes.
    pub open spec fn all_note_problems(self, count: int) -> Seq<Seq<char>>
        decreases count,
    {
        if count <= 0 {
            Seq::empty()
        } else {
            self.all_note_problems(count - 1) + self.note_problems(count - 1)
        }
    }

    /// All that is wrong with the file.
    pub open spec fn problems(self) -> Seq<Seq<char>> {
        self.head_problems() + self.track_problems(self.tracks.len() as int)
            + self.all_note_problems(self.notes.len() as int)
    }
}

/// The texts of messages.
pub open spec fn messages(problems: Seq<String>) -> Seq<Seq<char>> {
    Seq::new(problems.len(), |i: int| problems[i]@)
}

fn add_if(problems: &mut Vec<String>, applies: bool, message: String)
    ensures
        messages(final(problems)@) == messages(old(problems)@) + if_so(applies, message@),
{
    let ghost before = problems@;
    if applies {
        problems.push(message);
        assert(messages(problems@) =~= messages(before).push(message@));
    }
    assert(messages(problems@) =~= messages(before) + if_so(applies, message@));
}

/// `before`, a number and `after`.
fn around(before: &str, number: &str, after: &str) -> (text: String)
    ensures
        text@ == before@ + number@ + after@,
{
    let mut text = String::from_str(before);
    text.append(number);
    text.append(after);
    text
}

fn name_note(index: usize) -> (name: String)
    ensures
        name@ == note_name(index as int),
{
    let mut name = String::from_str("・ノート ");
    name.append(ordinal_text(index).as_str());
    name
}

/// A note's name with what is wrong behind it.
fn blame(index: usize, before: &str, what: &str, after: &str) -> (text: String)
    ensures
        text@ == note_name(index as int) + before@ + what@ + after@,
{
    let mut text = name_note(index);
    text.append(before);
    text.append(what);
    text.append(after);
    text
}

fn check_place(project: &Project, index: usize, problems: &mut Vec<String>)
    requires
        index < project@.notes.len(),
    ensures
        messages(final(problems)@) == messages(old(problems)@) + project@.place_problems(
            index as int,
            project@.notes[index as int],
        ),
{
    let note = &project.notes[index];
    if note.track >= project.tracks.len() {
        add_if(
            problems,
            true,
            blame(index, ": トラック ", ordinal_text(note.track).as_str(), " は存在しません"),
        );
    } else {
        let lanes: usize = project.tracks[note.track].lanes;
        let count: usize = if lanes < 1 {
            1
        } else {
            lanes
        };
        let mut text = blame(index, ": トラック ", ordinal_text(note.track).as_str(), " に段 ");
        text.append(ordinal_text(note.lane).as_str());
        text.append(" はありません");
        add_if(problems, note.lane >= count, text);
    }
}

fn check_note(project: &Project, index: usize, problems: &mut Vec<String>)
    requires
        index < project@.notes.len(),
    ensures
        messages(final(problems)@) == messages(old(problems)@) + project@.note_problems(
            index as int,
        ),
{
    let ghost before = messages(problems@);
    let note = &project.notes[index];
    match (note.start.ticks, note.duration.ticks) {
        (Some(start), Some(duration)) => {
            add_if(
                problems,
                start < 0,
                blame(index, ": 位置 ", note.start.text.as_str(), " が負です"),
            );
            add_if(
                problems,
                duration <= 0,
                blame(index, ": 音価 ", note.duration.text.as_str(), " が 0 以下です"),
            );
            let max: i32 = project.scale.max_semitone();
            let mut text = blame(index, ": 半音 ", signed_text(note.semitone as i64).as_str(), " は ");
            text.append(project.scale.label());
            text.append(" では 0〜");
            text.append(decimal_text(max as u64).as_str());
            text.append(" の範囲です");
            add_if(problems, note.semitone < 0 || note.semitone > max, text);
            check_place(project, index, problems);
            assert(messages(problems@) =~= before + project@.note_problems(index as int));
        },
        _ => {
            let mut text = name_note(index);
            text.append(": 位置か音価が数値ではありません");
            add_if(problems, true, text);
        },
    }
}

/// All that is wrong with a file, in the words that the user is told.
pub fn validate(project: &Project) -> (problems: Vec<String>)
    ensures
        messages(problems@) == project@.problems(),
{
    let mut problems: Vec<String> = Vec::new();
    assert(messages(problems@) =~= Seq::empty());
    add_if(
        &mut problems,
        project.tempo < 1 || project.tempo > 999,
        around("・テンポ ", decimal_text(project.tempo as u64).as_str(), " は範囲外です (1〜999)"),
    );
    add_if(
        &mut problems,
        project.beats < 1,
        String::from_str("・拍子の分子は 1 以上である必要があります"),
    );
    let kind: u32 = project.beat_type;
    let known: bool = kind == 1 || kind == 2 || kind == 4 || kind == 8 || kind == 16 || kind == 32;
    add_if(
        &mut problems,
        !known,
        around(
            "・拍子の分母 ",
            decimal_text(kind as u64).as_str(),
            " は使えません (1 / 2 / 4 / 8 / 16 / 32 のいずれか)",
        ),
    );
    add_if(
        &mut problems,
        project.tracks.len() == 0,
        String::from_str("・トラックが1つもありません"),
    );
    let ghost head = messages(problems@);
    assert(head =~= project@.head_problems());
    let mut at: usize = 0;
    assert(head + project@.track_problems(0) =~= head);
    while at < project.tracks.len()
        invariant
            at <= project.tracks@.len(),
            messages(problems@) == head + project@.track_problems(at as int),
        decreases project.tracks@.len() - at,
    {
        add_if(
            &mut problems,
            project.tracks[at].lanes < 1,
            around("・トラック ", ordinal_text(at).as_str(), " の段数が 0 です"),
        );
        assert(messages(problems@) =~= head + project@.track_problems(at + 1));
        at += 1;
    }
    let ghost upper = messages(problems@);
    let mut index: usize = 0;
    assert(upper + project@.all_note_problems(0) =~= upper);
    while index < project.notes.len()
        invariant
            index <= project.notes@.len(),
            messages(problems@) == upper + project@.all_note_problems(index as int),
        decreases project.notes@.len() - index,
    {
        check_note(project, index, &mut problems);
        assert(messages(problems@) =~= upper + project@.all_note_problems(index + 1));
        index += 1;
    }
    problems
}

/// A controller number that can be; another one is taken for none.
pub open spec fn real_number(number: Option<u8>) -> Option<u8> {
    match number {
        Some(number) if number > 127 => None,
        other => other,
    }
}

/// The track that a track in a file stands for. One without a name is named by
/// its position.
pub open spec fn built_track(index: int, entry: TrackEntryView) -> TrackView {
    TrackView {
        name: if entry.name.len() == 0 {
            TrackView::fresh(index).name
        } else {
            entry.name
        },
        lanes: if entry.lanes < 1 {
            1
        } else {
            entry.lanes
        },
        muted: entry.muted,
        soloed: entry.soloed,
        swing: entry.swing,
        waltz: entry.waltz,
        lane_ccs: Seq::new(entry.lane_ccs.len(), |i: int| real_number(entry.lane_ccs[i])),
        velocity_lane: None,
    }
}

/// The note that a note in a file stands for. It is as strong at its end as at
/// its start.
pub open spec fn built_note(entry: NoteEntryView) -> Note {
    Note {
        start_tick: match entry.start {
            Some(ticks) => ticks,
            None => 0,
        },
        duration: match entry.duration {
            Some(ticks) => ticks,
            None => 0,
        },
        semitone: entry.semitone,
        octave: entry.octave,
        velocity: entry.velocity,
        velocity_to: entry.velocity,
        track: entry.track,
        lane: entry.lane,
    }
}

/// The plugin that a plugin in a file stands for. One without a path is none.
/// Where the state cannot be read, the plugin is kept without it.
pub open spec fn built_plugin(slot: Option<PluginEntryView>) -> Option<PluginView> {
    match slot {
        None => None,
        Some(entry) => {
            if entry.path.len() == 0 {
                None
            } else {
                Some(
                    PluginView {
                        kind: entry.kind,
                        path: entry.path,
                        id: entry.id,
                        state: match base64_bytes(entry.state) {
                            Some(bytes) => bytes,
                            None => Seq::empty(),
                        },
                    },
                )
            }
        },
    }
}

/// One plugin for each of `count` tracks.
pub open spec fn built_plugins(slots: Seq<Option<PluginEntryView>>, count: int) -> Seq<
    Option<PluginView>,
> {
    Seq::new(
        count as nat,
        |i: int|
            if i < slots.len() {
                built_plugin(slots[i])
            } else {
                None
            },
    )
}

impl ProjectView {
    /// What the file stands for.
    pub open spec fn built(self) -> LoadedView {
        LoadedView {
            editor: EditorView {
                notes: Seq::new(self.notes.len(), |i: int| built_note(self.notes[i])),
                tracks: Seq::new(self.tracks.len(), |i: int| built_track(i, self.tracks[i])),
                tempo: self.tempo,
                beats: self.beats,
                beat_type: self.beat_type,
                scale: self.scale,
                swing_peak_ratio: self.swing_peak_ratio,
                waltz_ratio: self.waltz_ratio,
            },
            plugins: built_plugins(
                self.plugins,
                if self.tracks.len() == 0 {
                    1
                } else {
                    self.tracks.len() as int
                },
            ),
        }
    }
}

/// Messages below each other.
pub open spec fn in_lines(problems: Seq<Seq<char>>) -> Seq<char>
    decreases problems.len(),
{
    if problems.len() == 0 {
        Seq::empty()
    } else if problems.len() == 1 {
        problems[0]
    } else {
        in_lines(problems.drop_last()) + "\n"@ + problems.last()
    }
}

/// What the user is told of a file that something is wrong with.
pub open spec fn refusal(problems: Seq<Seq<char>>) -> Seq<char> {
    "ファイルの内容に問題があります。\n\n"@ + in_lines(problems)
}

fn build_numbers(numbers: &Vec<Option<u8>>) -> (built: Vec<Option<u8>>)
    ensures
        built@ == Seq::new(numbers@.len(), |i: int| real_number(numbers@[i])),
{
    let mut built: Vec<Option<u8>> = Vec::new();
    let mut at: usize = 0;
    while at < numbers.len()
        invariant
            at <= numbers@.len(),
            built@.len() == at,
            forall|i: int| 0 <= i < at ==> #[trigger] built@[i] == real_number(numbers@[i]),
        decreases numbers@.len() - at,
    {
        let number: Option<u8> = match numbers[at] {
            Some(number) => {
                if number > 127 {
                    None
                } else {
                    Some(number)
                }
            },
            None => None,
        };
        built.push(number);
        at += 1;
    }
    assert(built@ =~= Seq::new(numbers@.len(), |i: int| real_number(numbers@[i])));
    built
}

fn build_track(index: usize, entry: &TrackEntry) -> (track: TrackInfo)
    ensures
        track@ == built_track(index as int, entry@),
{
    let mut track = TrackInfo::new(index);
    if entry.name.as_str().unicode_len() > 0 {
        track.name = entry.name.clone();
    }
    track.lanes = if entry.lanes < 1 {
        1
    } else {
        entry.lanes
    };
    track.muted = entry.muted;
    track.soloed = entry.soloed;
    track.swing = entry.swing;
    track.waltz = entry.waltz;
    track.lane_ccs = build_numbers(&entry.lane_ccs);
    assert(track@ =~= built_track(index as int, entry@));
    track
}

fn build_plugin(slot: &Option<PluginEntry>) -> (plugin: Option<PluginSnapshot>)
    ensures
        slot_view(plugin) == built_plugin(entry_slot(*slot)),
{
    match slot {
        None => None,
        Some(entry) => {
            if entry.path.as_str().unicode_len() == 0 {
                None
            } else {
                let state: Vec<u8> = match decode_base64(entry.state.as_str()) {
                    Some(bytes) => bytes,
                    None => Vec::new(),
                };
                let plugin = PluginSnapshot {
                    kind: entry.kind,
                    path: entry.path.clone(),
                    id: entry.id.clone(),
                    state,
                };
                assert(Some(plugin@) =~= built_plugin(Some(entry@)));
                Some(plugin)
            }
        },
    }
}

/// One plugin for each track. Where the file has too few or too many, the rest
/// has none, or is left out.
pub fn build_plugins(entries: &Vec<Option<PluginEntry>>, tracks: usize) -> (plugins: Vec<
    Option<PluginSnapshot>,
>)
    ensures
        slot_views(plugins@) == built_plugins(entry_slots(entries@), tracks as int),
{
    let mut plugins: Vec<Option<PluginSnapshot>> = Vec::new();
    let mut at: usize = 0;
    assert(slot_views(plugins@) =~= built_plugins(entry_slots(entries@), 0));
    while at < tracks
        invariant
            at <= tracks,
            slot_views(plugins@) == built_plugins(entry_slots(entries@), at as int),
        decreases tracks - at,
    {
        let ghost before = plugins@;
        let plugin = if at < entries.len() {
            build_plugin(&entries[at])
        } else {
            None
        };
        let ghost view = slot_view(plugin);
        plugins.push(plugin);
        proof {
            assert(slot_views(plugins@) =~= slot_views(before).push(view));
            assert(slot_views(plugins@) =~= built_plugins(entry_slots(entries@), at + 1));
        }
        at += 1;
    }
    plugins
}

/// What a file stands for that nothing is wrong with.
fn build(project: &Project) -> (loaded: Loaded)
    ensures
        loaded@ == project@.built(),
{
    let mut notes: Vec<Note> = Vec::new();
    let mut at: usize = 0;
    while at < project.notes.len()
        invariant
            at <= project.notes@.len(),
            notes@.len() == at,
            forall|i: int| 0 <= i < at ==> #[trigger] notes@[i] == built_note(project@.notes[i]),
        decreases project.notes@.len() - at,
    {
        let entry = &project.notes[at];
        notes.push(
            Note {
                start_tick: match entry.start.ticks {
                    Some(ticks) => ticks,
                    None => 0,
                },
                duration: match entry.duration.ticks {
                    Some(ticks) => ticks,
                    None => 0,
                },
                semitone: entry.semitone,
                octave: entry.octave,
                velocity: entry.velocity,
                velocity_to: entry.velocity,
                track: entry.track,
                lane: entry.lane,
            },
        );
        at += 1;
    }
    let mut tracks: Vec<TrackInfo> = Vec::new();
    let mut index: usize = 0;
    while index < project.tracks.len()
        invariant
            index <= project.tracks@.len(),
            tracks@.len() == index,
            forall|i: int|
                0 <= i < index ==> (#[trigger] tracks@[i])@ == built_track(i, project@.tracks[i]),
        decreases project.tracks@.len() - index,
    {
        tracks.push(build_track(index, &project.tracks[index]));
        index += 1;
    }
    let count: usize = if tracks.len() == 0 {
        1
    } else {
        tracks.len()
    };
    let plugins = build_plugins(&project.plugins, count);
    let loaded = Loaded {
        editor: MidiEditor {
            notes,
            tracks,
            tempo: project.tempo,
            beats: project.beats,
            beat_type: project.beat_type,
            scale: project.scale,
            swing_peak_ratio: project.swing_peak_ratio,
            waltz_ratio: project.waltz_ratio,
        },
        plugins,
    };
    proof {
        assert(loaded@.editor.notes =~= project@.built().editor.notes);
        assert(loaded@.editor.tracks =~= project@.built().editor.tracks);
        assert(loaded@ =~= project@.built());
    }
    loaded
}

/// Messages below each other.
fn write_lines(problems: &Vec<String>) -> (text: String)
    ensures
        text@ == in_lines(messages(problems@)),
{
    let ghost all = messages(problems@);
    proof {
        reveal_strlit("");
        assert(""@ =~= Seq::<char>::empty());
        assert(all.take(0) =~= Seq::empty());
    }
    let mut text = String::from_str("");
    let mut at: usize = 0;
    while at < problems.len()
        invariant
            all == messages(problems@),
            at <= all.len(),
            text@ == in_lines(all.take(at as int)),
        decreases all.len() - at,
    {
        let ghost before = text@;
        proof {
            assert(all.take(at + 1).drop_last() =~= all.take(at as int));
            assert(all.take(at + 1).last() == all[at as int]);
        }
        if at > 0 {
            text.append("\n");
        }
        text.append(problems[at].as_str());
        proof {
            if at == 0 {
                assert(text@ =~= problems@[0]@);
                assert(all.take(1)[0] == all[0]);
            }
        }
        at += 1;
    }
    assert(all.take(at as int) =~= all);
    text
}

/// The project that a file holds. A file of a newer version, or one that
/// anything is wrong with, is refused, and all that is wrong is said at once.
pub fn load(project: &Project) -> (result: Result<Loaded, String>)
    ensures
        project@.version > VERSION ==> (result matches Err(message) && message@ == newer_message(
            project@.version,
        )),
        project@.version <= VERSION && project@.problems().len() > 0 ==> (result matches Err(
            message,
        ) && message@ == refusal(project@.problems())),
        project@.version <= VERSION && project@.problems().len() == 0 ==> (result matches Ok(
            loaded,
        ) && loaded@ == project@.built()),
{
    match check_version(project.version) {
        Err(message) => {
            return Err(message);
        },
        Ok(()) => {},
    }
    let problems = validate(project);
    assert(messages(problems@).len() == problems@.len());
    if problems.len() > 0 {
        let mut message = String::from_str("ファイルの内容に問題があります。\n\n");
        message.append(write_lines(&problems).as_str());
        return Err(message);
    }
    Ok(build(project))
}

/// What is told of a file that is no project.
pub open spec fn unreadable_message(detail: Seq<char>) -> Seq<char> {
    "プロジェクトファイルとして読めません:\n"@ + detail
}

fn unreadable(detail: &str) -> (message: String)
    ensures
        message@ == unreadable_message(detail@),
{
    let mut message = String::from_str("プロジェクトファイルとして読めません:\n");
    message.append(detail);
    message
}

/// Loads a project from what was read of a file: its version, which is read by
/// itself first, and all of it. A file of a newer version is refused whatever
/// else is in it.
pub fn from_str(version: Result<u32, String>, project: Result<Project, String>) -> (result: Result<
    Loaded,
    String,
>)
    ensures
        match version {
            Err(detail) => result matches Err(message) && message@ == unreadable_message(detail@),
            Ok(version) => if version > VERSION {
                result matches Err(message) && message@ == newer_message(version)
            } else {
                match project {
                    Err(detail) => result matches Err(message) && message@ == unreadable_message(
                        detail@,
                    ),
                    Ok(project) => if project@.version > VERSION {
                        result matches Err(message) && message@ == newer_message(project@.version)
                    } else if project@.problems().len() > 0 {
                        result matches Err(message) && message@ == refusal(project@.problems())
                    } else {
                        result matches Ok(loaded) && loaded@ == project@.built()
                    },
                }
            },
        },
{
    match version {
        Err(detail) => {
            return Err(unreadable(detail.as_str()));
        },
        Ok(version) => match check_version(version) {
            Err(message) => {
                return Err(message);
            },
            Ok(()) => {},
        },
    }
    match project {
        Err(detail) => Err(unreadable(detail.as_str())),
        Ok(project) => load(&project),
    }
}

/// A plugin as it is saved.
pub open spec fn saved_plugin(slot: Option<PluginView>) -> Option<PluginEntryView> {
    match slot {
        None => None,
        Some(plugin) => Some(
            PluginEntryView {
                kind: plugin.kind,
                path: plugin.path,
                id: plugin.id,
                state: base64_text(plugin.state),
            },
        ),
    }
}

/// A track as it is saved.
pub open spec fn saved_track(track: TrackView) -> TrackEntryView {
    TrackEntryView {
        name: track.name,
        lanes: track.lanes,
        muted: track.muted,
        soloed: track.soloed,
        swing: track.swing,
        waltz: track.waltz,
        lane_ccs: track.lane_ccs,
    }
}

/// A note as it is saved: where it is written, not where it is played.
pub open spec fn saved_note(note: Note) -> NoteEntryView {
    NoteEntryView {
        start: Some(note.start_tick),
        start_text: signed_decimal(note.start_tick as int),
        duration: Some(note.duration),
        duration_text: signed_decimal(note.duration as int),
        semitone: note.semitone,
        octave: note.octave,
        velocity: note.velocity,
        track: note.track,
        lane: note.lane,
    }
}

/// A project as it is saved.
pub open spec fn saved(editor: EditorView, plugins: Seq<Option<PluginView>>) -> ProjectView {
    ProjectView {
        version: VERSION,
        tempo: editor.tempo,
        beats: editor.beats,
        beat_type: editor.beat_type,
        scale: editor.scale,
        swing_peak_ratio: editor.swing_peak_ratio,
        waltz_ratio: editor.waltz_ratio,
        tracks: Seq::new(editor.tracks.len(), |i: int| saved_track(editor.tracks[i])),
        notes: Seq::new(editor.notes.len(), |i: int| saved_note(editor.notes[i])),
        plugins: Seq::new(plugins.len(), |i: int| saved_plugin(plugins[i])),
    }
}

/// Whether a track is saved with all that it has: velocity lanes are not.
pub open spec fn is_savable_track(track: TrackView) -> bool {
    &&& track.name.len() > 0
    &&& track.lanes >= 1
    &&& track.velocity_lane is None
    &&& forall|i: int|
        0 <= i < track.lane_ccs.len() ==> real_number(#[trigger] track.lane_ccs[i])
            == track.lane_ccs[i]
}

/// Whether a note is saved with all that it has, and accepted again: what a ramp
/// goes to is not saved.
pub open spec fn is_savable_note(note: Note, editor: EditorView) -> bool {
    &&& note.start_tick >= 0
    &&& note.duration > 0
    &&& note.velocity_to == note.velocity
    &&& 0 <= note.semitone < editor.scale.steps()
    &&& note.track < editor.tracks.len()
    &&& note.lane < editor.tracks[note.track as int].lanes
}

/// Whether a sequence is saved with all that it has, and accepted again.
pub open spec fn is_savable(editor: EditorView) -> bool {
    &&& 1 <= editor.tempo <= 999
    &&& editor.beats >= 1
    &&& is_beat_type(editor.beat_type)
    &&& editor.tracks.len() > 0
    &&& forall|i: int| 0 <= i < editor.tracks.len() ==> is_savable_track(#[trigger] editor.tracks[i])
    &&& forall|i: int|
        0 <= i < editor.notes.len() ==> is_savable_note(#[trigger] editor.notes[i], editor)
}

/// Whether all plugins have a path.
pub open spec fn all_have_paths(plugins: Seq<Option<PluginView>>) -> bool {
    forall|i: int|
        0 <= i < plugins.len() && (#[trigger] plugins[i]) is Some ==> (plugins[i]->0).path.len() > 0
}

/// Whether all states can be written.
pub open spec fn states_fit(plugins: Seq<Option<PluginView>>) -> bool {
    forall|i: int|
        0 <= i < plugins.len() && (#[trigger] plugins[i]) is Some ==> (plugins[i]->0).state.len()
            <= usize::MAX / 4
}

/// Whether the states of plugins are found again in their texts.
pub open spec fn states_return(plugins: Seq<Option<PluginView>>) -> bool {
    forall|i: int|
        0 <= i < plugins.len() && (#[trigger] plugins[i]) is Some ==> base64_bytes(
            base64_text((plugins[i]->0).state),
        ) == Some((plugins[i]->0).state)
}

/// One plugin for each of `count` tracks: what there is of them, and none.
pub open spec fn one_per_track(plugins: Seq<Option<PluginView>>, count: int) -> Seq<
    Option<PluginView>,
> {
    Seq::new(
        count as nat,
        |i: int|
            if i < plugins.len() {
                plugins[i]
            } else {
                None
            },
    )
}

proof fn lemma_no_track_problems(project: ProjectView, count: int)
    requires
        0 <= count <= project.tracks.len(),
        forall|i: int|
            0 <= i < project.tracks.len() ==> (#[trigger] project.tracks[i]).lanes >= 1,
    ensures
        project.track_problems(count).len() == 0,
    decreases count,
{
    if count > 0 {
        lemma_no_track_problems(project, count - 1);
        assert(project.tracks[count - 1].lanes >= 1);
    }
}

proof fn lemma_no_note_problems(project: ProjectView, count: int)
    requires
        0 <= count <= project.notes.len(),
        forall|i: int|
            0 <= i < project.notes.len() ==> (#[trigger] project.note_problems(i)).len() == 0,
    ensures
        project.all_note_problems(count).len() == 0,
    decreases count,
{
    if count > 0 {
        lemma_no_note_problems(project, count - 1);
        assert(project.note_problems(count - 1).len() == 0);
    }
}

/// What is saved is accepted, and is what it was, if the states of the plugins
/// are found again in their texts.
proof fn lemma_saved_comes_back(editor: EditorView, plugins: Seq<Option<PluginView>>)
    requires
        is_savable(editor),
        all_have_paths(plugins),
        states_return(plugins),
    ensures
        saved(editor, plugins).problems().len() == 0,
        saved(editor, plugins).built() == (LoadedView {
            editor,
            plugins: one_per_track(plugins, editor.tracks.len() as int),
        }),
{
    let project = saved(editor, plugins);
    assert forall|i: int| 0 <= i < project.tracks.len() implies (
    #[trigger] project.tracks[i]).lanes >= 1 by {
        assert(is_savable_track(editor.tracks[i]));
    }
    lemma_no_track_problems(project, project.tracks.len() as int);
    assert forall|i: int| 0 <= i < project.notes.len() implies (#[trigger] project.note_problems(
        i,
    )).len() == 0 by {
        assert(is_savable_note(editor.notes[i], editor));
        assert(project.tracks[editor.notes[i].track as int].lanes
            == editor.tracks[editor.notes[i].track as int].lanes);
    }
    lemma_no_note_problems(project, project.notes.len() as int);
    let built = project.built();
    assert forall|i: int| 0 <= i < editor.notes.len() implies #[trigger] built.editor.notes[i]
        == editor.notes[i] by {
        assert(is_savable_note(editor.notes[i], editor));
    }
    assert(built.editor.notes =~= editor.notes);
    assert forall|i: int| 0 <= i < editor.tracks.len() implies #[trigger] built.editor.tracks[i]
        == editor.tracks[i] by {
        assert(is_savable_track(editor.tracks[i]));
        assert(built.editor.tracks[i] =~= editor.tracks[i]);
    }
    assert(built.editor.tracks =~= editor.tracks);
    let wanted = one_per_track(plugins, editor.tracks.len() as int);
    assert forall|i: int| 0 <= i < wanted.len() implies #[trigger] built.plugins[i]
        == wanted[i] by {
        if i < plugins.len() && plugins[i] is Some {
            assert((plugins[i]->0).path.len() > 0);
            assert(built.plugins[i]->0 =~= plugins[i]->0);
        }
    }
    assert(built.plugins =~= wanted);
}

fn save_track(track: &TrackInfo) -> (entry: TrackEntry)
    ensures
        entry@ == saved_track(track@),
{
    let copy = track.duplicate();
    TrackEntry {
        name: copy.name,
        lanes: copy.lanes,
        muted: copy.muted,
        soloed: copy.soloed,
        swing: copy.swing,
        waltz: copy.waltz,
        lane_ccs: copy.lane_ccs,
    }
}

fn save_plugin(slot: &Option<PluginSnapshot>) -> (entry: Option<PluginEntry>)
    requires
        slot is Some ==> (slot->0)@.state.len() <= usize::MAX / 4,
    ensures
        entry_slot(entry) == saved_plugin(slot_view(*slot)),
        slot is Some ==> base64_bytes(base64_text((slot->0)@.state)) == Some((slot->0)@.state),
{
    match slot {
        None => None,
        Some(plugin) => Some(
            PluginEntry {
                kind: plugin.kind,
                path: plugin.path.clone(),
                id: plugin.id.clone(),
                state: encode_base64(&plugin.state),
            },
        ),
    }
}

/// A project as it is saved. What is saved is accepted by [`load`], and gives
/// back the sequence and the plugins.
pub fn to_project(editor: &MidiEditor, plugins: &Vec<Option<PluginSnapshot>>) -> (project: Project)
    requires
        states_fit(slot_views(plugins@)),
    ensures
        project@ == saved(editor@, slot_views(plugins@)),
        is_savable(editor@) && all_have_paths(slot_views(plugins@)) ==> {
            &&& project@.problems().len() == 0
            &&& project@.built() == (LoadedView {
                editor: editor@,
                plugins: one_per_track(slot_views(plugins@), editor@.tracks.len() as int),
            })
        },
{
    let mut tracks: Vec<TrackEntry> = Vec::new();
    let mut at: usize = 0;
    while at < editor.tracks.len()
        invariant
            at <= editor.tracks@.len(),
            tracks@.len() == at,
            forall|i: int|
                0 <= i < at ==> (#[trigger] tracks@[i])@ == saved_track(editor@.tracks[i]),
        decreases editor.tracks@.len() - at,
    {
        tracks.push(save_track(&editor.tracks[at]));
        at += 1;
    }
    let mut notes: Vec<NoteEntry> = Vec::new();
    let mut index: usize = 0;
    while index < editor.notes.len()
        invariant
            index <= editor.notes@.len(),
            notes@.len() == index,
            forall|i: int|
                0 <= i < index ==> (#[trigger] notes@[i])@ == saved_note(editor@.notes[i]),
        decreases editor.notes@.len() - index,
    {
        let note = editor.notes[index];
        let entry = NoteEntry {
            start: Span { ticks: Some(note.start_tick), text: signed_text(note.start_tick) },
            duration: Span { ticks: Some(note.duration), text: signed_text(note.duration) },
            semitone: note.semitone,
            octave: note.octave,
            velocity: note.velocity,
            track: note.track,
            lane: note.lane,
        };
        assert(entry@ =~= saved_note(note));
        notes.push(entry);
        index += 1;
    }
    let mut entries: Vec<Option<PluginEntry>> = Vec::new();
    let mut slot: usize = 0;
    let ghost views = slot_views(plugins@);
    while slot < plugins.len()
        invariant
            views == slot_views(plugins@),
            states_fit(views),
            slot <= plugins@.len(),
            entries@.len() == slot,
            forall|i: int|
                0 <= i < slot ==> entry_slot(#[trigger] entries@[i]) == saved_plugin(views[i]),
            forall|i: int|
                0 <= i < slot && (#[trigger] views[i]) is Some ==> base64_bytes(
                    base64_text((views[i]->0).state),
                ) == Some((views[i]->0).state),
        decreases plugins@.len() - slot,
    {
        assert(views[slot as int] == slot_view(plugins@[slot as int]));
        entries.push(save_plugin(&plugins[slot]));
        slot += 1;
    }
    let project = Project {
        version: VERSION,
        tempo: editor.tempo,
        beats: editor.beats,
        beat_type: editor.beat_type,
        scale: editor.scale,
        swing_peak_ratio: editor.swing_peak_ratio,
        waltz_ratio: editor.waltz_ratio,
        tracks,
        notes,
        plugins: entries,
    };
    proof {
        assert(project@.tracks =~= saved(editor@, views).tracks);
        assert(project@.notes =~= saved(editor@, views).notes);
        assert(project@.plugins =~= saved(editor@, views).plugins);
        assert(project@ =~= saved(editor@, views));
        if is_savable(editor@) && all_have_paths(views) {
            lemma_saved_comes_back(editor@, views);
        }
    }
    project
}

/// A file is either refused or gives a sequence that keeps to all limits, with
/// one plugin for each of its tracks.
pub proof fn an_accepted_project_is_sound(project: ProjectView)
    requires
        project.problems().len() == 0,
    ensures
        ({
            let loaded = project.built();
            &&& 1 <= loaded.editor.tempo <= 999
            &&& loaded.editor.beats >= 1
            &&& is_beat_type(loaded.editor.beat_type)
            &&& loaded.editor.tracks.len() > 0
            &&& loaded.plugins.len() == loaded.editor.tracks.len()
            &&& forall|i: int|
                0 <= i < loaded.editor.notes.len() ==> is_savable_note(
                    #[trigger] loaded.editor.notes[i],
                    loaded.editor,
                )
        }),
{
    let loaded = project.built();
    let heads = project.head_problems();
    let tracks = project.track_problems(project.tracks.len() as int);
    assert(project.problems().len() == heads.len() + tracks.len() + project.all_note_problems(
        project.notes.len() as int,
    ).len());
    assert(if_so(!(1 <= project.tempo <= 999), tempo_problem(project.tempo)).len() == 0);
    assert(if_so(project.beats < 1, beats_problem()).len() == 0);
    assert(if_so(
        !is_beat_type(project.beat_type),
        beat_type_problem(project.beat_type),
    ).len() == 0);
    assert(if_so(project.tracks.len() == 0, no_tracks_problem()).len() == 0);
    assert forall|i: int| 0 <= i < loaded.editor.notes.len() implies is_savable_note(
        #[trigger] loaded.editor.notes[i],
        loaded.editor,
    ) by {
        lemma_no_problems_at(project, project.notes.len() as int, i);
        lemma_lanes_at(project, project.tracks.len() as int, project.notes[i].track as int);
        let note = project.notes[i];
        let name = note_name(i);
        assert(project.note_problems(i).len() == 0);
        match (note.start, note.duration) {
            (Some(start), Some(duration)) => {
                let first = if_so(start < 0, name + ": 位置 "@ + note.start_text + " が負です"@);
                let second = if_so(
                    duration <= 0,
                    name + ": 音価 "@ + note.duration_text + " が 0 以下です"@,
                );
                assert(first.len() == 0);
                assert(second.len() == 0);
                assert(project.has_step(note));
                assert(project.place_problems(i, note).len() == 0);
            },
            _ => {},
        }
    }
}

proof fn lemma_no_problems_at(project: ProjectView, count: int, i: int)
    requires
        project.all_note_problems(count).len() == 0,
        0 <= i < count,
    ensures
        project.note_problems(i).len() == 0,
    decreases count,
{
    if i < count - 1 {
        lemma_no_problems_at(project, count - 1, i);
    }
}

proof fn lemma_lanes_at(project: ProjectView, count: int, i: int)
    requires
        project.track_problems(count).len() == 0,
    ensures
        0 <= i < count ==> project.tracks[i].lanes >= 1,
    decreases count,
{
    if 0 <= i < count - 1 {
        lemma_lanes_at(project, count - 1, i);
    }
}

/// A file opens as the sequence that it describes: tempo, time signature, scale and
/// ratios are those of the file, and nothing is added to its tracks and notes or
/// left out.
pub proof fn a_file_opens_as_it_says(project: Project, loaded: Loaded)
    requires
        loaded@ == project@.built(),
    ensures
        loaded.editor.tempo == project.tempo,
        loaded.editor.beats == project.beats,
        loaded.editor.beat_type == project.beat_type,
        loaded.editor.scale == project.scale,
        loaded.editor.swing_peak_ratio == project.swing_peak_ratio,
        loaded.editor.waltz_ratio == project.waltz_ratio,
        loaded.editor.tracks@.len() == project.tracks@.len(),
        loaded.editor.notes@.len() == project.notes@.len(),
{
    assert(loaded@.editor.tracks.len() == loaded.editor.tracks@.len());
    assert(project@.tracks.len() == project.tracks@.len());
    assert(project@.notes.len() == project.notes@.len());
}

/// Every track of a file opens with its switches, its lanes and its controllers.
/// One without a name is called by its number.
pub proof fn a_track_opens_as_it_says(project: Project, loaded: Loaded, i: int)
    requires
        loaded@ == project@.built(),
        0 <= i < project.tracks@.len(),
    ensures
        ({
            let entry = project.tracks@[i];
            let track = loaded.editor.tracks@[i];
            &&& track.muted == entry.muted
            &&& track.soloed == entry.soloed
            &&& track.swing == entry.swing
            &&& track.waltz == entry.waltz
            &&& entry.lanes >= 1 ==> track.lanes == entry.lanes
            &&& track.lanes >= 1
            &&& entry.name@.len() > 0 ==> track.name@ == entry.name@
            &&& entry.name@.len() == 0 ==> track.name@ == "トラック "@ + decimal((i + 1) as nat)
            &&& track.velocity_lane is None
            &&& track.lane_ccs@.len() == entry.lane_ccs@.len()
            &&& forall|k: int|
                0 <= k < entry.lane_ccs@.len() ==> (#[trigger] track.lane_ccs@[k])
                    == match entry.lane_ccs@[k] {
                    Some(number) => if number <= 127 {
                        Some(number)
                    } else {
                        None
                    },
                    None => None,
                }
        }),
{
    a_file_opens_as_it_says(project, loaded);
    assert(loaded@.editor.tracks[i] == loaded.editor.tracks@[i]@);
    assert(project@.tracks[i] == project.tracks@[i]@);
    assert(loaded@.editor.tracks[i].lane_ccs == project@.built().editor.tracks[i].lane_ccs);
}

/// Every note of a file opens where it is written, with its pitch and velocity, and
/// without a ramp.
pub proof fn a_note_opens_as_it_says(project: Project, loaded: Loaded, i: int)
    requires
        loaded@ == project@.built(),
        0 <= i < project.notes@.len(),
    ensures
        ({
            let entry = project.notes@[i];
            let note = loaded.editor.notes@[i];
            &&& entry.start.ticks matches Some(ticks) ==> note.start_tick == ticks
            &&& entry.duration.ticks matches Some(ticks) ==> note.duration == ticks
            &&& note.semitone == entry.semitone
            &&& note.octave == entry.octave
            &&& note.velocity == entry.velocity
            &&& note.velocity_to == entry.velocity
            &&& note.track == entry.track
            &&& note.lane == entry.lane
        }),
{
    assert(loaded@.editor.notes[i] == loaded.editor.notes@[i]);
    assert(project@.notes[i] == project.notes@[i]@);
}

/// The plugin of a track opens as the file has it: its format, its path, its id and
/// the bytes that its state's text stands for. There is one place for each track,
/// and none where the file has none or no path.
pub proof fn a_plugin_opens_as_it_says(project: Project, loaded: Loaded, i: int)
    requires
        loaded@ == project@.built(),
        project.tracks@.len() > 0,
        0 <= i < project.tracks@.len(),
    ensures
        loaded.plugins@.len() == project.tracks@.len(),
        i < project.plugins@.len() ==> match project.plugins@[i] {
            None => loaded.plugins@[i] is None,
            Some(entry) => if entry.path@.len() == 0 {
                loaded.plugins@[i] is None
            } else {
                loaded.plugins@[i] matches Some(plugin) && plugin.kind == entry.kind
                    && plugin.path@ == entry.path@ && plugin.id@ == entry.id@ && (match base64_bytes(
                    entry.state@,
                ) {
                    Some(bytes) => plugin.state@ == bytes,
                    None => plugin.state@.len() == 0,
                })
            },
        },
        i >= project.plugins@.len() ==> loaded.plugins@[i] is None,
{
    assert(loaded@.plugins.len() == loaded.plugins@.len());
    assert(loaded@.plugins[i] == slot_view(loaded.plugins@[i]));
    if i < project.plugins@.len() {
        assert(project@.plugins[i] == entry_slot(project.plugins@[i]));
    }
}

/// A saved file describes the sequence: its version is the present one, and tempo,
/// time signature, scale and ratios are those of the sequence.
pub proof fn a_saved_file_says_what_there_is(
    editor: MidiEditor,
    plugins: Seq<Option<PluginSnapshot>>,
    project: Project,
)
    requires
        project@ == saved(editor@, slot_views(plugins)),
    ensures
        project.version == 2,
        project.tempo == editor.tempo,
        project.beats == editor.beats,
        project.beat_type == editor.beat_type,
        project.scale == editor.scale,
        project.swing_peak_ratio == editor.swing_peak_ratio,
        project.waltz_ratio == editor.waltz_ratio,
        project.tracks@.len() == editor.tracks@.len(),
        project.notes@.len() == editor.notes@.len(),
        project.plugins@.len() == plugins.len(),
{
    assert(project@.tracks.len() == project.tracks@.len());
    assert(project@.notes.len() == project.notes@.len());
    assert(project@.plugins.len() == project.plugins@.len());
    assert(editor@.tracks.len() == editor.tracks@.len());
}

/// Every track, note and plugin is saved with what it has.
pub proof fn everything_is_saved_as_it_is(
    editor: MidiEditor,
    plugins: Seq<Option<PluginSnapshot>>,
    project: Project,
    i: int,
)
    requires
        project@ == saved(editor@, slot_views(plugins)),
    ensures
        0 <= i < editor.tracks@.len() ==> ({
            let track = editor.tracks@[i];
            let entry = project.tracks@[i];
            &&& entry.name@ == track.name@
            &&& entry.lanes == track.lanes
            &&& entry.muted == track.muted
            &&& entry.soloed == track.soloed
            &&& entry.swing == track.swing
            &&& entry.waltz == track.waltz
            &&& entry.lane_ccs@ == track.lane_ccs@
        }),
        0 <= i < editor.notes@.len() ==> ({
            let note = editor.notes@[i];
            let entry = project.notes@[i];
            &&& entry.start.ticks == Some(note.start_tick)
            &&& entry.duration.ticks == Some(note.duration)
            &&& entry.semitone == note.semitone
            &&& entry.octave == note.octave
            &&& entry.velocity == note.velocity
            &&& entry.track == note.track
            &&& entry.lane == note.lane
        }),
        0 <= i < plugins.len() ==> match plugins[i] {
            None => project.plugins@[i] is None,
            Some(plugin) => project.plugins@[i] matches Some(entry) && entry.kind == plugin.kind
                && entry.path@ == plugin.path@ && entry.id@ == plugin.id@ && entry.state@
                == base64_text(plugin.state@),
        },
{
    assert(project@.tracks.len() == project.tracks@.len());
    assert(project@.notes.len() == project.notes@.len());
    assert(project@.plugins.len() == project.plugins@.len());
    assert(editor@.tracks.len() == editor.tracks@.len());
    if 0 <= i < editor.tracks@.len() {
        assert(project@.tracks[i] == project.tracks@[i]@);
        assert(editor@.tracks[i] == editor.tracks@[i]@);
    }
    if 0 <= i < editor.notes@.len() {
        assert(project@.notes[i] == project.notes@[i]@);
        assert(editor@.notes[i] == editor.notes@[i]);
    }
    if 0 <= i < plugins.len() {
        assert(project@.plugins[i] == entry_slot(project.plugins@[i]));
        assert(slot_views(plugins)[i] == slot_view(plugins[i]));
    }
}

/// Whether a note of a file can be opened: it starts at the beginning or later, has
/// a length, a step of the scale, and a lane that is there.
pub open spec fn can_be_opened(project: Project, note: NoteEntry) -> bool {
    &&& note.start.ticks matches Some(ticks) && ticks >= 0
    &&& note.duration.ticks matches Some(ticks) && ticks > 0
    &&& 0 <= note.semitone
    &&& match project.scale {
        ScaleMode::Equal12 => note.semitone <= 11,
        ScaleMode::BohlenPierce13 => note.semitone <= 12,
    }
    &&& note.track < project.tracks@.len()
    &&& note.lane < project.tracks@[note.track as int].lanes
}

/// A file is refused where its tempo, its time signature, its tracks or its notes
/// are out of range, and nowhere else.
pub proof fn a_file_is_refused_for_what_is_wrong(project: Project)
    ensures
        project@.problems().len() == 0 <==> {
            &&& 1 <= project.tempo <= 999
            &&& project.beats >= 1
            &&& project.beat_type == 1 || project.beat_type == 2 || project.beat_type == 4
                || project.beat_type == 8 || project.beat_type == 16 || project.beat_type == 32
            &&& project.tracks@.len() > 0
            &&& forall|i: int|
                0 <= i < project.tracks@.len() ==> (#[trigger] project.tracks@[i]).lanes >= 1
            &&& forall|i: int|
                0 <= i < project.notes@.len() ==> can_be_opened(
                    project,
                    #[trigger] project.notes@[i],
                )
        },
{
    let view = project@;
    assert(view.tracks.len() == project.tracks@.len());
    assert(view.notes.len() == project.notes@.len());
    assert forall|i: int| 0 <= i < view.tracks.len() implies (#[trigger] view.tracks[i]).lanes
        == project.tracks@[i].lanes by {
        assert(view.tracks[i] == project.tracks@[i]@);
    }
    lemma_head_problems(view);
    if view.problems().len() == 0 {
        assert forall|i: int| 0 <= i < project.tracks@.len() implies (
        #[trigger] project.tracks@[i]).lanes >= 1 by {
            lemma_lanes_at(view, view.tracks.len() as int, i);
            assert(view.tracks[i].lanes == project.tracks@[i].lanes);
        }
        assert forall|i: int| 0 <= i < project.notes@.len() implies can_be_opened(
            project,
            #[trigger] project.notes@[i],
        ) by {
            lemma_no_problems_at(view, view.notes.len() as int, i);
            assert(view.notes[i] == project.notes@[i]@);
            lemma_note_problems(view, i);
            let track = project.notes@[i].track as int;
            assert(view.tracks[track].lanes == project.tracks@[track].lanes);
            assert(project.tracks@[track].lanes >= 1);
        }
    } else {
        if forall|i: int|
            0 <= i < project.tracks@.len() ==> (#[trigger] project.tracks@[i]).lanes >= 1 {
            assert forall|i: int| 0 <= i < view.tracks.len() implies (
            #[trigger] view.tracks[i]).lanes >= 1 by {
                assert(project.tracks@[i].lanes >= 1);
            }
            lemma_no_track_problems(view, view.tracks.len() as int);
            if forall|i: int|
                0 <= i < project.notes@.len() ==> can_be_opened(
                    project,
                    #[trigger] project.notes@[i],
                ) {
                assert forall|i: int| 0 <= i < view.notes.len() implies (
                #[trigger] view.note_problems(i)).len() == 0 by {
                    assert(can_be_opened(project, project.notes@[i]));
                    assert(view.notes[i] == project.notes@[i]@);
                    lemma_note_problems(view, i);
                    let track = project.notes@[i].track as int;
                    assert(view.tracks[track].lanes == project.tracks@[track].lanes);
                }
                lemma_no_note_problems(view, view.notes.len() as int);
            }
        }
    }
}

proof fn lemma_head_problems(project: ProjectView)
    ensures
        project.head_problems().len() == 0 <==> 1 <= project.tempo <= 999 && project.beats >= 1
            && is_beat_type(project.beat_type) && project.tracks.len() > 0,
{
    assert(project.head_problems().len() == if_so(
        !(1 <= project.tempo <= 999),
        tempo_problem(project.tempo),
    ).len() + if_so(project.beats < 1, beats_problem()).len() + if_so(
        !is_beat_type(project.beat_type),
        beat_type_problem(project.beat_type),
    ).len() + if_so(project.tracks.len() == 0, no_tracks_problem()).len());
}

proof fn lemma_note_problems(project: ProjectView, i: int)
    ensures
        project.note_problems(i).len() == 0 <==> {
            let note = project.notes[i];
            &&& note.start matches Some(start) && start >= 0
            &&& note.duration matches Some(duration) && duration > 0
            &&& project.has_step(note)
            &&& note.track < project.tracks.len()
            &&& note.lane < (if project.tracks[note.track as int].lanes < 1 {
                1
            } else {
                project.tracks[note.track as int].lanes as int
            })
        },
{
    let note = project.notes[i];
    let name = note_name(i);
    match (note.start, note.duration) {
        (Some(start), Some(duration)) => {
            assert(project.note_problems(i).len() == if_so(
                start < 0,
                name + ": 位置 "@ + note.start_text + " が負です"@,
            ).len() + if_so(
                duration <= 0,
                name + ": 音価 "@ + note.duration_text + " が 0 以下です"@,
            ).len() + if_so(
                !project.has_step(note),
                name + ": 半音 "@ + signed_decimal(note.semitone as int) + " は "@
                    + project.scale.label_text() + " では 0〜"@ + decimal(
                    (project.scale.steps() - 1) as nat,
                ) + " の範囲です"@,
            ).len() + project.place_problems(i, note).len());
        },
        _ => {},
    }
}

proof fn lemma_in_either(a: Seq<Seq<char>>, b: Seq<Seq<char>>, message: Seq<char>)
    requires
        a.contains(message) || b.contains(message),
    ensures
        (a + b).contains(message),
{
    if a.contains(message) {
        let i = choose|i: int| 0 <= i < a.len() && a[i] == message;
        assert((a + b)[i] == message);
    } else {
        let i = choose|i: int| 0 <= i < b.len() && b[i] == message;
        assert((a + b)[a.len() + i] == message);
    }
}

proof fn lemma_if_so(applies: bool, message: Seq<char>)
    ensures
        applies ==> if_so(applies, message).contains(message),
{
    if applies {
        assert(if_so(applies, message)[0] == message);
    }
}

proof fn lemma_track_is_blamed(project: ProjectView, count: int, i: int)
    requires
        0 <= i < count <= project.tracks.len(),
        project.tracks[i].lanes < 1,
    ensures
        project.track_problems(count).contains(no_lanes_problem(i)),
    decreases count,
{
    let last = if_so(project.tracks[count - 1].lanes < 1, no_lanes_problem(count - 1));
    if i < count - 1 {
        lemma_track_is_blamed(project, count - 1, i);
    } else {
        lemma_if_so(true, no_lanes_problem(i));
    }
    lemma_in_either(project.track_problems(count - 1), last, no_lanes_problem(i));
}

proof fn lemma_note_is_blamed(project: ProjectView, count: int, i: int, message: Seq<char>)
    requires
        0 <= i < count <= project.notes.len(),
        project.note_problems(i).contains(message),
    ensures
        project.all_note_problems(count).contains(message),
    decreases count,
{
    if i < count - 1 {
        lemma_note_is_blamed(project, count - 1, i, message);
    }
    lemma_in_either(
        project.all_note_problems(count - 1),
        project.note_problems(count - 1),
        message,
    );
}

/// What is wrong with the head of a file or with a track is said, with the value
/// that is wrong or the track's number, counted from one.
pub proof fn what_is_wrong_is_said(project: ProjectView, i: int)
    ensures
        !(1 <= project.tempo <= 999) ==> project.problems().contains(
            "・テンポ "@ + decimal(project.tempo as nat) + " は範囲外です (1〜999)"@,
        ),
        project.beats == 0 ==> project.problems().contains(
            "・拍子の分子は 1 以上である必要があります"@,
        ),
        !(project.beat_type == 1 || project.beat_type == 2 || project.beat_type == 4
            || project.beat_type == 8 || project.beat_type == 16 || project.beat_type == 32)
            ==> project.problems().contains(
            "・拍子の分母 "@ + decimal(project.beat_type as nat)
                + " は使えません (1 / 2 / 4 / 8 / 16 / 32 のいずれか)"@,
        ),
        project.tracks.len() == 0 ==> project.problems().contains(
            "・トラックが1つもありません"@,
        ),
        0 <= i < project.tracks.len() && project.tracks[i].lanes == 0
            ==> project.problems().contains(
            "・トラック "@ + decimal((i + 1) as nat) + " の段数が 0 です"@,
        ),
{
    let tempo = if_so(!(1 <= project.tempo <= 999), tempo_problem(project.tempo));
    let beats = if_so(project.beats < 1, beats_problem());
    let kind = if_so(!is_beat_type(project.beat_type), beat_type_problem(project.beat_type));
    let empty = if_so(project.tracks.len() == 0, no_tracks_problem());
    let head = project.head_problems();
    let tracks = project.track_problems(project.tracks.len() as int);
    let notes = project.all_note_problems(project.notes.len() as int);
    if !(1 <= project.tempo <= 999) {
        let message = tempo_problem(project.tempo);
        lemma_if_so(true, message);
        lemma_in_either(tempo, beats, message);
        lemma_in_either(tempo + beats, kind, message);
        lemma_in_either(tempo + beats + kind, empty, message);
        lemma_in_either(head, tracks, message);
        lemma_in_either(head + tracks, notes, message);
    }
    if project.beats == 0 {
        let message = beats_problem();
        lemma_if_so(true, message);
        lemma_in_either(tempo, beats, message);
        lemma_in_either(tempo + beats, kind, message);
        lemma_in_either(tempo + beats + kind, empty, message);
        lemma_in_either(head, tracks, message);
        lemma_in_either(head + tracks, notes, message);
    }
    if !is_beat_type(project.beat_type) {
        let message = beat_type_problem(project.beat_type);
        lemma_if_so(true, message);
        lemma_in_either(tempo + beats, kind, message);
        lemma_in_either(tempo + beats + kind, empty, message);
        lemma_in_either(head, tracks, message);
        lemma_in_either(head + tracks, notes, message);
    }
    if project.tracks.len() == 0 {
        let message = no_tracks_problem();
        lemma_if_so(true, message);
        lemma_in_either(tempo + beats + kind, empty, message);
        lemma_in_either(head, tracks, message);
        lemma_in_either(head + tracks, notes, message);
    }
    if 0 <= i < project.tracks.len() && project.tracks[i].lanes == 0 {
        lemma_track_is_blamed(project, project.tracks.len() as int, i);
        lemma_in_either(head, tracks, no_lanes_problem(i));
        lemma_in_either(head + tracks, notes, no_lanes_problem(i));
    }
}

/// What is wrong with a note is said, with the note's number, counted from one:
/// where it starts, how long it is, its step, and the track and the lane that it
/// lies on.
pub proof fn what_is_wrong_with_a_note_is_said(project: ProjectView, i: int)
    requires
        0 <= i < project.notes.len(),
    ensures
        ({
            let note = project.notes[i];
            let name = "・ノート "@ + decimal((i + 1) as nat);
            let told = note.start is Some && note.duration is Some;
            &&& !told ==> project.problems().contains(
                name + ": 位置か音価が数値ではありません"@,
            )
            &&& told && note.start->0 < 0 ==> project.problems().contains(
                name + ": 位置 "@ + note.start_text + " が負です"@,
            )
            &&& told && note.duration->0 <= 0 ==> project.problems().contains(
                name + ": 音価 "@ + note.duration_text + " が 0 以下です"@,
            )
            &&& told && note.track >= project.tracks.len() ==> project.problems().contains(
                name + ": トラック "@ + decimal((note.track + 1) as nat)
                    + " は存在しません"@,
            )
            &&& told && note.track < project.tracks.len() && note.lane >= 1 && note.lane
                >= project.tracks[note.track as int].lanes ==> project.problems().contains(
                name + ": トラック "@ + decimal((note.track + 1) as nat) + " に段 "@ + decimal(
                    (note.lane + 1) as nat,
                ) + " はありません"@,
            )
        }),
{
    let note = project.notes[i];
    let name = note_name(i);
    let head = project.head_problems() + project.track_problems(project.tracks.len() as int);
    let all = project.note_problems(i);
    assert forall|message: Seq<char>| #[trigger] all.contains(
        message,
    ) implies project.problems().contains(message) by {
        lemma_note_is_blamed(project, project.notes.len() as int, i, message);
        lemma_in_either(head, project.all_note_problems(project.notes.len() as int), message);
    }
    if note.start is Some && note.duration is Some {
        let (from, length) = (note.start->0, note.duration->0);
        let early = name + ": 位置 "@ + note.start_text + " が負です"@;
        let short = name + ": 音価 "@ + note.duration_text + " が 0 以下です"@;
        let strange = name + ": 半音 "@ + signed_decimal(note.semitone as int) + " は "@
            + project.scale.label_text() + " では 0〜"@ + decimal(
            (project.scale.steps() - 1) as nat,
        ) + " の範囲です"@;
        let a = if_so(from < 0, early);
        let b = if_so(length <= 0, short);
        let c = if_so(!project.has_step(note), strange);
        let d = project.place_problems(i, note);
        assert(all == a + b + c + d);
        if from < 0 {
            lemma_if_so(true, early);
            lemma_in_either(a, b, early);
            lemma_in_either(a + b, c, early);
            lemma_in_either(a + b + c, d, early);
        }
        if length <= 0 {
            lemma_if_so(true, short);
            lemma_in_either(a, b, short);
            lemma_in_either(a + b, c, short);
            lemma_in_either(a + b + c, d, short);
        }
        if d.len() > 0 {
            assert(d.contains(d[0]));
            lemma_in_either(a + b + c, d, d[0]);
        }
    } else {
        assert(all.contains(all[0]));
    }
}

/// A step that the scale lacks is said, with the step, the scale and its last
/// step.
pub proof fn a_step_outside_the_scale_is_said(project: ProjectView, i: int)
    requires
        0 <= i < project.notes.len(),
        project.notes[i].start is Some,
        project.notes[i].duration is Some,
    ensures
        ({
            let note = project.notes[i];
            let name = "・ノート "@ + decimal((i + 1) as nat) + ": 半音 "@ + signed_decimal(
                note.semitone as int,
            );
            &&& project.scale is Equal12 && (note.semitone < 0 || note.semitone > 11)
                ==> project.problems().contains(
                name + " は "@ + "12平均律"@ + " では 0〜"@ + decimal(11) + " の範囲です"@,
            )
            &&& project.scale is BohlenPierce13 && (note.semitone < 0 || note.semitone > 12)
                ==> project.problems().contains(
                name + " は "@ + "ボーレン・ピアース"@ + " では 0〜"@ + decimal(12)
                    + " の範囲です"@,
            )
        }),
{
    let note = project.notes[i];
    let name = note_name(i);
    let head = project.head_problems() + project.track_problems(project.tracks.len() as int);
    let early = name + ": 位置 "@ + note.start_text + " が負です"@;
    let short = name + ": 音価 "@ + note.duration_text + " が 0 以下です"@;
    let strange = name + ": 半音 "@ + signed_decimal(note.semitone as int) + " は "@
        + project.scale.label_text() + " では 0〜"@ + decimal((project.scale.steps() - 1) as nat)
        + " の範囲です"@;
    let a = if_so(note.start->0 < 0, early);
    let b = if_so(note.duration->0 <= 0, short);
    let c = if_so(!project.has_step(note), strange);
    let d = project.place_problems(i, note);
    assert(project.note_problems(i) == a + b + c + d);
    if !project.has_step(note) {
        lemma_if_so(true, strange);
        lemma_in_either(a + b, c, strange);
        lemma_in_either(a + b + c, d, strange);
        lemma_note_is_blamed(project, project.notes.len() as int, i, strange);
        lemma_in_either(head, project.all_note_problems(project.notes.len() as int), strange);
    }
}

} // verus!
