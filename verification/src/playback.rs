//! Starting and stopping playback, and what frames the work of one frame.


use crate::state::{EditorState, StateView};
use vstd::prelude::*;

verus! {

/// What the editor asks of the program around it.
#[derive(Clone, Copy, PartialEq, Eq, Structural, Debug)]
pub enum EditorCommand {
    /// Send the sequence to the audio thread.
    Commit,
    Play,
    Stop,
    /// Move the playhead to a tick.
    Seek { tick: i64 },
    SetLoop(bool),
    /// Choose a MIDI file and read it.
    ImportMidi,
    /// Choose where to write a MIDI file.
    ExportMidi,
    OpenProject,
    /// Save the project; choose where, if that is not known.
    SaveProject,
    /// Choose where to save the project.
    SaveProjectAs,
    ExportWav,
    ExportOpus,
    ExportCcs,
}

impl StateView {
    /// After playback was started at a position. Where it is on already, the
    /// position from which it was first started is kept.
    pub open spec fn started(self, pos: i64, playing: bool) -> StateView {
        if playing {
            self
        } else {
            StateView {
                play_return: Some(
                    if pos < 0 {
                        0
                    } else {
                        pos
                    },
                ),
                ..self
            }
        }
    }

    /// After the playhead has gone back to where playback was started.
    pub open spec fn returned(self) -> StateView {
        match self.play_return {
            Some(tick) => StateView { play_return: None, scroll_to: Some(tick), ..self },
            None => self,
        }
    }

    /// At the start of a frame. Where playback has ended by itself, the playhead
    /// goes back.
    pub open spec fn frame_begun(self, playing: bool) -> StateView {
        let back = if self.was_playing && !playing {
            self.returned()
        } else {
            self
        };
        StateView { was_playing: playing, ..back }
    }

    /// At the end of a frame. Changes are sent on, but not during a drag.
    pub open spec fn frame_ended(self) -> StateView {
        StateView {
            dirty: self.dirty && self.drag is Some,
            history: self.history.at_frame_end(self.editor),
            ..self
        }
    }
}

/// The commands that start playback.
pub open spec fn start_commands(from: Option<i64>) -> Seq<EditorCommand> {
    match from {
        Some(tick) => seq![EditorCommand::Seek { tick }, EditorCommand::Play],
        None => seq![EditorCommand::Play],
    }
}

/// The commands that move the playhead back to where playback was started.
pub open spec fn return_commands(state: StateView) -> Seq<EditorCommand> {
    match state.play_return {
        Some(tick) => seq![EditorCommand::Seek { tick }],
        None => Seq::empty(),
    }
}

impl EditorState {
    /// Starts playback, from another position if one is given. Notes where the
    /// playhead was, to go back there.
    pub fn start_playback(
        &mut self,
        pos: i64,
        playing: bool,
        from: Option<i64>,
        commands: &mut Vec<EditorCommand>,
    )
        ensures
            final(self)@ == old(self)@.started(pos, playing),
            final(commands)@ == old(commands)@ + start_commands(from),
    {
        if !playing {
            self.play_return = Some(
                if pos < 0 {
                    0
                } else {
                    pos
                },
            );
        }
        match from {
            Some(tick) => {
                commands.push(EditorCommand::Seek { tick });
            },
            None => {},
        }
        commands.push(EditorCommand::Play);
        assert(commands@ =~= old(commands)@ + start_commands(from));
    }

    fn return_playhead(&mut self, commands: &mut Vec<EditorCommand>)
        ensures
            final(self)@ == old(self)@.returned(),
            final(commands)@ == old(commands)@ + return_commands(old(self)@),
    {
        match self.play_return {
            Some(tick) => {
                self.play_return = None;
                self.scroll_to = Some(tick);
                commands.push(EditorCommand::Seek { tick });
            },
            None => {},
        }
        assert(commands@ =~= old(commands)@ + return_commands(old(self)@));
    }

    /// Stops playback. The playhead goes back to where it was started, and is
    /// scrolled into view.
    pub fn stop_playback(&mut self, commands: &mut Vec<EditorCommand>)
        ensures
            final(self)@ == old(self)@.returned(),
            final(commands)@ == old(commands)@.push(EditorCommand::Stop) + return_commands(
                old(self)@,
            ),
    {
        commands.push(EditorCommand::Stop);
        self.return_playhead(commands);
    }

    /// Begins a frame: where playback has ended by itself, the playhead goes
    /// back to where it was started.
    pub fn begin_frame(&mut self, playing: bool, commands: &mut Vec<EditorCommand>)
        ensures
            final(self)@ == old(self)@.frame_begun(playing),
            final(commands)@ == (if old(self)@.was_playing && !playing {
                old(commands)@ + return_commands(old(self)@)
            } else {
                old(commands)@
            }),
    {
        if self.was_playing && !playing {
            self.return_playhead(commands);
        }
        self.was_playing = playing;
    }

    /// Ends a frame: changes are sent on before anything else is done, and what
    /// there is now is what the next change starts from.
    pub fn end_frame(&mut self, commands: &mut Vec<EditorCommand>)
        ensures
            final(self)@ == old(self)@.frame_ended(),
            final(commands)@ == (if old(self)@.dirty && old(self)@.drag is None {
                seq![EditorCommand::Commit] + old(commands)@
            } else {
                old(commands)@
            }),
    {
        let ghost before = self@;
        if self.dirty && self.drag.is_none() {
            commands.insert(0, EditorCommand::Commit);
            self.dirty = false;
            assert(commands@ =~= seq![EditorCommand::Commit] + old(commands)@);
        }
        self.history.end_frame(&self.editor);
        assert(self@ =~= before.frame_ended());
    }

    /// The keys that start and stop playback: from the start of the sequence,
    /// or from the playhead.
    pub fn press_space(
        &mut self,
        from_start: bool,
        toggle: bool,
        playing: bool,
        pos: i64,
        commands: &mut Vec<EditorCommand>,
    )
        ensures
            from_start ==> final(self)@ == old(self)@.started(pos, playing),
            from_start ==> final(commands)@ == (if playing {
                old(commands)@.push(EditorCommand::Stop)
            } else {
                old(commands)@
            }) + start_commands(Some(0)),
            !from_start && toggle && playing ==> final(self)@ == old(self)@.returned(),
            !from_start && toggle && playing ==> final(commands)@ == old(commands)@.push(
                EditorCommand::Stop,
            ) + return_commands(old(self)@),
            !from_start && toggle && !playing ==> final(self)@ == old(self)@.started(pos, false),
            !from_start && toggle && !playing ==> final(commands)@ == old(commands)@
                + start_commands(None),
            !from_start && !toggle ==> final(self)@ == old(self)@ && final(commands)@ == old(
                commands,
            )@,
            from_start || (toggle && !playing) ==> final(commands)@.last() == EditorCommand::Play,
            from_start ==> final(commands)@[final(commands)@.len() - 2] == (EditorCommand::Seek {
                tick: 0,
            }),
            playing && (from_start || toggle) ==> final(commands)@[old(commands)@.len() as int]
                == EditorCommand::Stop,
            !playing && toggle && !from_start ==> final(commands)@.len() == old(commands)@.len()
                + 1,
            !from_start && toggle && playing && old(self)@.play_return is Some
                ==> final(commands)@.last() == (EditorCommand::Seek {
                tick: old(self)@.play_return->0,
            }),
    {
        if from_start {
            if playing {
                commands.push(EditorCommand::Stop);
            }
            self.start_playback(pos, playing, Some(0), commands);
        } else if toggle {
            if playing {
                self.stop_playback(commands);
            } else {
                self.start_playback(pos, playing, None, commands);
            }
        }
    }
}

/// Stopping takes the playhead back to where playback was started, however it
/// was started.
pub proof fn stopping_goes_back_to_the_start(state: StateView, pos: i64)
    requires
        pos >= 0,
    ensures
        return_commands(state.started(pos, false)) == seq![EditorCommand::Seek { tick: pos }],
        state.started(pos, false).returned().scroll_to == Some(pos),
        state.started(pos, false).returned().play_return is None,
{
}

/// Starting while it plays does not change where stopping goes back to.
pub proof fn starting_again_keeps_the_start(state: StateView, pos: i64, again: i64)
    ensures
        state.started(pos, false).started(again, true) == state.started(pos, false),
{
}

/// After a frame there is nothing left to be sent on, unless something is being
/// dragged; and the frame's end is where the next change starts from.
pub proof fn a_frame_leaves_nothing_unsent(state: StateView)
    ensures
        state.drag is None ==> !state.frame_ended().dirty,
        state.frame_ended().history.baseline == crate::history::SnapshotView::of(state.editor),
        state.frame_ended().editor == state.editor,
{
}

/// Playback that is started notes where the playhead is, and nothing else of the
/// state changes. The last command plays; where a position is given, the one
/// before it goes there.
pub proof fn starting_plays(state: StateView, pos: i64, from: Option<i64>)
    ensures
        pos >= 0 ==> state.started(pos, false).play_return == Some(pos),
        pos < 0 ==> state.started(pos, false).play_return == Some(0i64),
        state.started(pos, false).editor == state.editor,
        state.started(pos, false).scroll_to == state.scroll_to,
        start_commands(from).last() == EditorCommand::Play,
        from is None ==> start_commands(from).len() == 1,
        from is Some ==> start_commands(from).len() == 2 && start_commands(from)[0] == (
        EditorCommand::Seek { tick: from->0 }),
{
}

/// A frame notes whether playback is on. Where it has ended since the frame
/// before, the playhead goes back to where it was started, and is shown.
pub proof fn a_frame_follows_playback(state: StateView, playing: bool)
    ensures
        state.frame_begun(playing).was_playing == playing,
        state.frame_begun(playing).editor == state.editor,
        state.was_playing && !playing && state.play_return is Some ==> {
            &&& state.frame_begun(playing).scroll_to == state.play_return
            &&& state.frame_begun(playing).play_return is None
            &&& return_commands(state) == seq![EditorCommand::Seek { tick: state.play_return->0 }]
        },
        !state.was_playing || playing ==> state.frame_begun(playing).play_return
            == state.play_return && state.frame_begun(playing).scroll_to == state.scroll_to,
{
}

/// What has changed is kept until a drag is over.
pub proof fn a_drag_is_not_sent_on(state: StateView)
    ensures
        state.drag is Some ==> state.frame_ended().dirty == state.dirty,
        state.frame_ended().selection == state.selection,
        state.frame_ended().drag == state.drag,
{
}

} // verus!
