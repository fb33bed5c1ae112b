//! Blocks of a tenth of a second, and the windows made of them.

use vstd::prelude::*;

verus! {

/// The blocks of the short window: 400 milliseconds.
pub const MOMENTARY_BLOCKS: usize = 4;

/// The blocks of the long window, three seconds. So many are kept.
pub const SHORT_TERM_BLOCKS: usize = 30;

/// The most windows that are added up: an hour. Beyond that nothing more is
/// added; dropping old ones would change what the sum means.
pub const MAX_GATING_BLOCKS: usize = 36000;

/// Counts frames into blocks, and blocks into windows. The values of the blocks
/// are kept beside it, in as many slots as the long window has blocks.
#[derive(Clone, Copy, PartialEq, Eq, Structural, Debug)]
pub struct BlockClock {
    pub sample_rate: u32,
    /// The frames of a block.
    pub block_frames: u32,
    /// The frames in the block that is being filled.
    pub filled: u32,
    /// The slot of the next block.
    pub at: usize,
    /// The blocks that there are, up to all slots.
    pub filled_blocks: usize,
    /// The windows that were added up.
    pub gating: usize,
    /// The blocks since the sum was started anew, as far as a window needs them.
    pub since_restart: usize,
}

/// What is to be done after a frame.
#[derive(Clone, Copy, PartialEq, Eq, Structural, Debug)]
pub enum Tick {
    /// Nothing: the block is not full.
    Filling,
    /// The block is full: its value goes into a slot.
    Closed {
        slot: usize,
        /// Whether the short window that ends with it is added to the sum.
        gate: bool,
    },
}

impl BlockClock {
    /// Whether the counts fit together.
    pub open spec fn is_valid(self) -> bool {
        &&& self.sample_rate >= 1
        &&& self.block_frames >= 1
        &&& self.filled < self.block_frames
        &&& self.at < SHORT_TERM_BLOCKS
        &&& self.filled_blocks <= SHORT_TERM_BLOCKS
        &&& self.gating <= MAX_GATING_BLOCKS
        &&& self.since_restart <= MOMENTARY_BLOCKS
        &&& self.since_restart <= self.filled_blocks
    }

    /// A clock that has counted nothing.
    pub open spec fn fresh(rate: u32) -> BlockClock {
        BlockClock {
            sample_rate: if rate < 1 {
                1
            } else {
                rate
            },
            block_frames: block_frames_of(rate),
            filled: 0,
            at: 0,
            filled_blocks: 0,
            gating: 0,
            since_restart: 0,
        }
    }

    /// After a block was closed.
    pub open spec fn closed(self) -> BlockClock {
        BlockClock {
            filled: 0,
            at: ((self.at + 1) % SHORT_TERM_BLOCKS as int) as usize,
            filled_blocks: if self.filled_blocks < SHORT_TERM_BLOCKS {
                (self.filled_blocks + 1) as usize
            } else {
                self.filled_blocks
            },
            since_restart: if self.since_restart < MOMENTARY_BLOCKS {
                (self.since_restart + 1) as usize
            } else {
                self.since_restart
            },
            gating: if self.gates() {
                (self.gating + 1) as usize
            } else {
                self.gating
            },
            ..self
        }
    }

    /// Whether the window that ends with the next block is added to the sum: all
    /// its blocks came after the sum was started, and there is room.
    pub open spec fn gates(self) -> bool {
        self.since_restart + 1 >= MOMENTARY_BLOCKS && self.gating < MAX_GATING_BLOCKS
    }

    /// After a frame.
    pub open spec fn ticked(self) -> BlockClock {
        if self.filled + 1 >= self.block_frames {
            self.closed()
        } else {
            BlockClock { filled: (self.filled + 1) as u32, ..self }
        }
    }

    /// What is to be done after a frame.
    pub open spec fn tick_of(self) -> Tick {
        if self.filled + 1 >= self.block_frames {
            Tick::Closed { slot: self.at, gate: self.gates() }
        } else {
            Tick::Filling
        }
    }

    /// The slot of the block that is `back` blocks back; 1 is the last one.
    pub open spec fn slot_back(self, back: int) -> int {
        (self.at + SHORT_TERM_BLOCKS - back) % SHORT_TERM_BLOCKS as int
    }

    /// With the sum started anew.
    pub open spec fn restarted(self) -> BlockClock {
        BlockClock { gating: 0, since_restart: 0, ..self }
    }
}

/// The frames of a tenth of a second, rounded, at least one.
pub open spec fn block_frames_of(rate: u32) -> u32 {
    let frames = (rate + 5) / 10;
    if frames < 1 {
        1
    } else {
        frames as u32
    }
}

impl BlockClock {
    /// A clock for a sample rate.
    pub fn new(sample_rate: u32) -> (clock: BlockClock)
        ensures
            clock == BlockClock::fresh(sample_rate),
            clock.is_valid(),
    {
        let frames: u64 = (sample_rate as u64 + 5) / 10;
        BlockClock {
            sample_rate: if sample_rate < 1 {
                1
            } else {
                sample_rate
            },
            block_frames: if frames < 1 {
                1
            } else {
                frames as u32
            },
            filled: 0,
            at: 0,
            filled_blocks: 0,
            gating: 0,
            since_restart: 0,
        }
    }

    /// Counts a frame.
    pub fn tick(&mut self) -> (tick: Tick)
        requires
            old(self).is_valid(),
        ensures
            *final(self) == old(self).ticked(),
            tick == old(self).tick_of(),
            final(self).is_valid(),
    {
        if self.filled + 1 < self.block_frames {
            self.filled += 1;
            return Tick::Filling;
        }
        let slot: usize = self.at;
        let gate: bool = self.since_restart + 1 >= MOMENTARY_BLOCKS && self.gating
            < MAX_GATING_BLOCKS;
        self.at = (self.at + 1) % SHORT_TERM_BLOCKS;
        if self.filled_blocks < SHORT_TERM_BLOCKS {
            self.filled_blocks += 1;
        }
        self.filled = 0;
        if self.since_restart < MOMENTARY_BLOCKS {
            self.since_restart += 1;
        }
        if gate {
            self.gating += 1;
        }
        Tick::Closed { slot, gate }
    }

    /// The slots of the last blocks, the newest first. `None` where there are
    /// not so many yet.
    pub fn window(&self, blocks: usize) -> (slots: Option<Vec<usize>>)
        requires
            self.is_valid(),
        ensures
            match slots {
                Some(slots) => {
                    &&& blocks <= self.filled_blocks
                    &&& slots@.len() == blocks
                    &&& forall|i: int|
                        0 <= i < blocks ==> #[trigger] slots@[i] == self.slot_back(i + 1)
                },
                None => blocks > self.filled_blocks,
            },
    {
        if blocks > self.filled_blocks {
            return None;
        }
        let mut slots: Vec<usize> = Vec::new();
        let mut back: usize = 1;
        while back <= blocks
            invariant
                self.is_valid(),
                blocks <= self.filled_blocks,
                1 <= back <= blocks + 1,
                slots@.len() == back - 1,
                forall|i: int| 0 <= i < back - 1 ==> #[trigger] slots@[i] == self.slot_back(i + 1),
            decreases blocks + 1 - back,
        {
            slots.push((self.at + SHORT_TERM_BLOCKS - back) % SHORT_TERM_BLOCKS);
            back += 1;
        }
        Some(slots)
    }

    /// Starts the sum anew. The windows are left alone: they show what was last.
    pub fn restart_integrated(&mut self)
        requires
            old(self).is_valid(),
        ensures
            *final(self) == old(self).restarted(),
            final(self).is_valid(),
    {
        self.gating = 0;
        self.since_restart = 0;
    }

    /// Forgets everything but the sample rate.
    pub fn reset(&mut self)
        requires
            old(self).is_valid(),
        ensures
            *final(self) == (BlockClock {
                filled: 0,
                at: 0,
                filled_blocks: 0,
                ..old(self).restarted()
            }),
            final(self).is_valid(),
    {
        self.restart_integrated();
        self.filled = 0;
        self.at = 0;
        self.filled_blocks = 0;
    }
}

/// The block that was closed last is the newest one of every window, and the
/// ones before it each go one back.
pub proof fn closing_shifts_the_window(clock: BlockClock, back: int)
    requires
        clock.is_valid(),
        1 <= back < SHORT_TERM_BLOCKS,
    ensures
        clock.closed().slot_back(1) == clock.at,
        clock.closed().slot_back(back + 1) == clock.slot_back(back),
{
}

/// The blocks of a window lie in different slots.
pub proof fn windows_repeat_no_block(clock: BlockClock, a: int, b: int)
    requires
        clock.is_valid(),
        1 <= a < b <= SHORT_TERM_BLOCKS,
    ensures
        clock.slot_back(a) != clock.slot_back(b),
{
}

/// After a restart a window is added to the sum only when all its blocks were
/// closed after it: not before the fourth one.
pub proof fn the_sum_starts_with_a_whole_window(clock: BlockClock)
    requires
        clock.is_valid(),
    ensures
        !clock.restarted().gates(),
        !clock.restarted().closed().gates(),
        !clock.restarted().closed().closed().gates(),
        clock.restarted().closed().closed().closed().gates(),
{
}

/// Restarting the sum changes no window.
pub proof fn restarting_leaves_the_windows_alone(clock: BlockClock, back: int)
    ensures
        clock.restarted().slot_back(back) == clock.slot_back(back),
        clock.restarted().filled_blocks == clock.filled_blocks,
        clock.restarted().filled == clock.filled,
{
}

/// A block is a tenth of a second: ten of them are a second, to the nearest
/// frame.
pub proof fn ten_blocks_are_a_second(rate: u32)
    requires
        rate >= 5,
    ensures
        -5 <= 10 * block_frames_of(rate) - rate <= 5,
        BlockClock::fresh(rate).block_frames == block_frames_of(rate),
        BlockClock::fresh(rate).sample_rate == rate,
{
}

/// A block is closed with its last frame and not before, and counting starts
/// again. Its value goes into the slot that was next, and the slots are used in
/// turn.
pub proof fn a_block_closes_with_its_last_frame(clock: BlockClock)
    requires
        clock.is_valid(),
    ensures
        clock.filled + 1 < clock.block_frames ==> clock.tick_of() is Filling
            && clock.ticked().filled == clock.filled + 1 && clock.ticked().at == clock.at
            && clock.ticked().filled_blocks == clock.filled_blocks,
        clock.filled + 1 == clock.block_frames ==> clock.tick_of() is Closed
            && clock.tick_of()->slot == clock.at && clock.ticked().filled == 0,
        clock.filled + 1 == clock.block_frames && clock.at < 29 ==> clock.ticked().at == clock.at
            + 1,
        clock.filled + 1 == clock.block_frames && clock.at == 29 ==> clock.ticked().at == 0,
        clock.filled + 1 == clock.block_frames && clock.filled_blocks < 30
            ==> clock.ticked().filled_blocks == clock.filled_blocks + 1,
        clock.filled + 1 == clock.block_frames && clock.filled_blocks == 30
            ==> clock.ticked().filled_blocks == 30,
{
}

} // verus!
