//! The wheel and the middle button: velocity, scrolling and zooming.

use crate::canvas::{anchored_offset, horizontal_offset_for_anchor, LANE_PARTS};
use crate::edit::{edited_at, ChangeVelocity};
use crate::history::EditGroup;
use crate::metrics::{held_to, MAX_PPQ, MAX_ROW_H, MIN_PPQ, MIN_ROW_H};
use crate::sequencer::Note;
use crate::state::{EditorState, MiddleDrag, StateView};
use crate::time::{floor_quotient, narrow, round_quotient, rounded_quotient, saturate};
use vstd::prelude::*;

verus! {

/// By how much one notch of the wheel changes velocities.
pub const VELOCITY_WHEEL_STEP: i64 = 4;

/// By how much a turn of the wheel, in thousandths of a notch, changes
/// velocities.
pub open spec fn wheel_delta(milli_notches: int) -> i32 {
    let delta = rounded_quotient(milli_notches * VELOCITY_WHEEL_STEP, 1000);
    if delta < i32::MIN {
        i32::MIN
    } else if delta > i32::MAX {
        i32::MAX
    } else {
        delta as i32
    }
}

impl StateView {
    /// After the wheel was turned for the velocity of the selected notes.
    pub open spec fn velocity_turned(self, milli_notches: int) -> StateView {
        let delta = wheel_delta(milli_notches);
        let notes = edited_at(self.editor.notes, self.chosen(), (ChangeVelocity { delta }));
        if delta != 0 && notes != self.editor.notes {
            StateView { dirty: true, ..self.with_notes(notes).recorded(EditGroup::Velocity) }
        } else {
            self
        }
    }

    /// With the middle button up, or down. What it does is settled when it goes
    /// down on the grid; a drag of notes ends then.
    pub open spec fn middle_held(
        self,
        down: bool,
        over_grid: bool,
        zooming: bool,
        tick: i64,
    ) -> StateView {
        if !down {
            StateView { middle_drag: None, ..self }
        } else if self.middle_drag is None && over_grid {
            StateView {
                middle_drag: Some(
                    if zooming {
                        MiddleDrag::ZoomHorizontally {
                            anchor_tick: if tick < 0 {
                                0
                            } else {
                                tick
                            },
                        }
                    } else {
                        MiddleDrag::Pan
                    },
                ),
                drag: None,
                ..self
            }
        } else {
            self
        }
    }

    /// After zooming across. The anchored tick stays at its place on the
    /// screen.
    pub open spec fn zoomed_across(
        self,
        ppq: i32,
        viewport_left: i64,
        origin_x: i64,
    ) -> StateView {
        match self.middle_drag {
            Some(MiddleDrag::ZoomHorizontally { anchor_tick }) => StateView {
                ppq: held_to(ppq, MIN_PPQ, MAX_PPQ),
                pending_scroll_x: Some(
                    anchored_offset(
                        viewport_left as int,
                        saturate(origin_x + (anchor_tick * self.ppq) / 33600) as int,
                        anchor_tick as int,
                        held_to(ppq, MIN_PPQ, MAX_PPQ) as int,
                    ),
                ),
                ..self
            },
            _ => self,
        }
    }

    /// How far to scroll down after zooming down, such that a place on the
    /// lanes stays under the pointer. Above the lanes nothing is scrolled.
    pub open spec fn row_scroll(self, row_h: i32, anchor: int) -> i64 {
        let grew = held_to(row_h, MIN_ROW_H, MAX_ROW_H) - self.row_h;
        if grew != 0 && anchor > 0 {
            saturate(-rounded_quotient(anchor * grew, LANE_PARTS as int))
        } else {
            0
        }
    }
}

impl EditorState {
    /// Turns the wheel for the velocity of the selected notes.
    pub fn turn_velocity(&mut self, milli_notches: i64)
        ensures
            final(self)@ == old(self)@.velocity_turned(milli_notches as int),
    {
        let ghost before = self@;
        let wide: i128 = round_quotient(milli_notches as i128 * 4, 1000);
        let delta: i32 = if wide < i32::MIN as i128 {
            i32::MIN
        } else if wide > i32::MAX as i128 {
            i32::MAX
        } else {
            wide as i32
        };
        if delta != 0 {
            if self.change_selection_velocity(delta) {
                self.history.record(EditGroup::Velocity);
                self.dirty = true;
            }
        }
        assert(self@ =~= before.velocity_turned(milli_notches as int));
    }

    /// Tells of the middle button: whether it is down, whether the pointer is
    /// over the grid, whether the zoom key is held, and the tick pointed at.
    pub fn hold_middle(&mut self, down: bool, over_grid: bool, zooming: bool, tick: i64)
        ensures
            final(self)@ == old(self)@.middle_held(down, over_grid, zooming, tick),
    {
        let ghost before = self@;
        if down {
            if self.middle_drag.is_none() && over_grid {
                self.middle_drag = Some(
                    if zooming {
                        MiddleDrag::ZoomHorizontally {
                            anchor_tick: if tick < 0 {
                                0
                            } else {
                                tick
                            },
                        }
                    } else {
                        MiddleDrag::Pan
                    },
                );
                self.drag = None;
            }
        } else {
            self.middle_drag = None;
        }
        assert(self@ =~= before.middle_held(down, over_grid, zooming, tick));
    }

    /// Zooms across to a new width of a quarter note, while the middle button is
    /// held for that.
    pub fn zoom_across(&mut self, ppq: i32, viewport_left: i64, origin_x: i64)
        ensures
            final(self)@ == old(self)@.zoomed_across(ppq, viewport_left, origin_x),
    {
        let ghost before = self@;
        match self.middle_drag {
            Some(MiddleDrag::ZoomHorizontally { anchor_tick }) => {
                proof {
                    let now = self.ppq;
                    assert(-0x4000_0000_0000_0000_0000_0000 <= anchor_tick * now
                        <= 0x4000_0000_0000_0000_0000_0000) by (nonlinear_arith)
                        requires
                            -0x8000_0000_0000_0000 <= anchor_tick <= 0x8000_0000_0000_0000,
                            -0x8000_0000 <= now <= 0x8000_0000,
                    ;
                }
                let across: i128 = floor_quotient(anchor_tick as i128 * self.ppq as i128, 33600);
                let anchor_x: i64 = narrow(origin_x as i128 + across);
                self.set_ppq(ppq);
                self.pending_scroll_x = Some(
                    horizontal_offset_for_anchor(viewport_left, anchor_x, anchor_tick, self.ppq),
                );
            },
            _ => {},
        }
        assert(self@ =~= before.zoomed_across(ppq, viewport_left, origin_x));
    }

    /// Zooms down to a new height of the lanes. Returns how far to scroll such
    /// that the place under the pointer stays there.
    pub fn zoom_rows(&mut self, row_h: i32, anchor: i64) -> (scroll: i64)
        ensures
            final(self)@ == (StateView {
                row_h: held_to(row_h, MIN_ROW_H, MAX_ROW_H),
                ..old(self)@
            }),
            scroll == old(self)@.row_scroll(row_h, anchor as int),
    {
        let grew: i64 = self.set_row_h(row_h);
        if grew == 0 || anchor <= 0 {
            return 0;
        }
        proof {
            assert(-0x1_0000_0000_0000_0000_0000_0000 <= anchor * grew
                <= 0x1_0000_0000_0000_0000_0000_0000) by (nonlinear_arith)
                requires
                    0 <= anchor <= 0x8000_0000_0000_0000,
                    -0x1_0000_0000 <= grew <= 0x1_0000_0000,
            ;
        }
        narrow(-round_quotient(anchor as i128 * grew as i128, LANE_PARTS as i128))
    }
}

/// Zooming keeps the sizes inside of their limits.
pub proof fn zooming_stays_within_limits(ppq: i32, row_h: i32)
    ensures
        MIN_PPQ <= held_to(ppq, MIN_PPQ, MAX_PPQ) <= MAX_PPQ,
        MIN_ROW_H <= held_to(row_h, MIN_ROW_H, MAX_ROW_H) <= MAX_ROW_H,
{
}

/// While the middle button stays down, what it does stays the same, whatever
/// keys are pressed meanwhile.
pub proof fn a_middle_drag_does_not_change(
    state: StateView,
    over_grid: bool,
    zooming: bool,
    tick: i64,
)
    requires
        state.middle_drag is Some,
    ensures
        state.middle_held(true, over_grid, zooming, tick) == state,
{
}

/// Every notch of the wheel changes the velocities of the selected notes by four,
/// and part of a notch by the nearest number in proportion. Other notes, and
/// everything else of a note, stay.
pub proof fn the_wheel_changes_velocities(state: StateView, milli_notches: i64, i: int)
    requires
        state.editor.notes.len() <= usize::MAX,
        -0x1000_0000 <= milli_notches <= 0x1000_0000,
        0 <= i < state.editor.notes.len(),
    ensures
        ({
            let delta = wheel_delta(milli_notches as int);
            let old = state.editor.notes[i];
            let new = state.velocity_turned(milli_notches as int).editor.notes[i];
            &&& 2 * (1000 * delta - 4 * milli_notches) <= 1000
            &&& 2 * (4 * milli_notches - 1000 * delta) <= 1000
            &&& new == (Note { velocity: new.velocity, ..old })
            &&& !state.selection.contains(i as usize) ==> new == old
            &&& state.selection.contains(i as usize) && 1 <= old.velocity <= 127 && 1
                <= old.velocity + delta <= 127 ==> new.velocity == old.velocity + delta
            &&& state.selection.contains(i as usize) && 1 <= old.velocity <= 127
                && old.velocity + delta < 1 ==> new.velocity == 1
            &&& state.selection.contains(i as usize) && 1 <= old.velocity <= 127
                && old.velocity + delta > 127 ==> new.velocity == 127
        }),
{
    crate::time::lemma_nearest_is_close(4 * milli_notches, 1000);
    crate::state::lemma_chosen(state.selection, state.editor.notes.len() as int);
    let delta = wheel_delta(milli_notches as int);
    let notes = edited_at(state.editor.notes, state.chosen(), (ChangeVelocity { delta }));
    assert(state.chosen().contains(i as usize) <==> state.selection.contains(i as usize));
    if notes == state.editor.notes {
        assert(notes[i] == state.editor.notes[i]);
    }
}

/// The middle button zooms where the key for it was held when it went down over
/// the grid, around the tick it was pressed at, and scrolls otherwise. It ends a
/// drag of notes, and does nothing when it is up.
pub proof fn the_middle_button_zooms_or_scrolls(
    state: StateView,
    over_grid: bool,
    zooming: bool,
    tick: i64,
)
    ensures
        state.middle_held(false, over_grid, zooming, tick).middle_drag is None,
        state.middle_held(false, over_grid, zooming, tick).drag == state.drag,
        state.middle_held(true, over_grid, zooming, tick).editor == state.editor,
        state.middle_drag is None && over_grid && zooming && tick >= 0 ==> state.middle_held(
            true,
            over_grid,
            zooming,
            tick,
        ).middle_drag == Some(MiddleDrag::ZoomHorizontally { anchor_tick: tick }),
        state.middle_drag is None && over_grid && !zooming ==> state.middle_held(
            true,
            over_grid,
            zooming,
            tick,
        ).middle_drag == Some(MiddleDrag::Pan),
        state.middle_drag is None && over_grid ==> state.middle_held(
            true,
            over_grid,
            zooming,
            tick,
        ).drag is None,
        state.middle_drag is None && !over_grid ==> state.middle_held(
            true,
            over_grid,
            zooming,
            tick,
        ) == state,
{
}

/// Zooming across takes the width that was asked for, inside of its limits, only
/// while the middle button is held for that; nothing else changes but how far
/// the grid is scrolled.
pub proof fn zooming_across_takes_the_width(
    state: StateView,
    ppq: i32,
    viewport_left: i64,
    origin_x: i64,
)
    ensures
        ({
            let after = state.zoomed_across(ppq, viewport_left, origin_x);
            let zooms = state.middle_drag matches Some(MiddleDrag::ZoomHorizontally { .. });
            &&& !zooms ==> after == state
            &&& zooms && 16 * 1024 <= ppq <= 480 * 1024 ==> after.ppq == ppq
            &&& zooms && ppq < 16 * 1024 ==> after.ppq == 16 * 1024
            &&& zooms && ppq > 480 * 1024 ==> after.ppq == 480 * 1024
            &&& zooms ==> after.pending_scroll_x is Some
            &&& after.editor == state.editor
            &&& after.row_h == state.row_h
        }),
{
}

/// After zooming down, the lanes are scrolled such that the place under the
/// pointer stays there, to the nearest subpixel.
pub proof fn zooming_down_keeps_the_place(state: StateView, row_h: i32, anchor: i64)
    requires
        12 * 1024 <= row_h <= 96 * 1024,
        12 * 1024 <= state.row_h <= 96 * 1024,
        0 < anchor <= 0x1_0000_0000_0000,
    ensures
        ({
            let scroll = state.row_scroll(row_h, anchor as int);
            let moved = anchor * row_h - anchor * state.row_h;
            &&& 2 * (scroll * 65536 + moved) <= 65536
            &&& -65536 <= 2 * (scroll * 65536 + moved)
        }),
{
    let grew = row_h - state.row_h;
    crate::time::lemma_nearest_is_close(anchor * grew, 65536);
    assert(anchor * grew == anchor * row_h - anchor * state.row_h) by (nonlinear_arith)
        requires
            grew == row_h - state.row_h,
    ;
    assert(-0x2_0000_0000_0000_0000 <= anchor * grew <= 0x2_0000_0000_0000_0000)
        by (nonlinear_arith)
        requires
            0 < anchor <= 0x1_0000_0000_0000,
            -0x2_0000 <= grew <= 0x2_0000,
    ;
}

} // verus!
