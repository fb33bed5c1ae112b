//! Which tracks and lanes the contents of a file come to lie on.

use crate::midi::import::{
    blocks_of, file_end, free_lane, imported, is_busy, kept_tracks, laid_out, last_end,
    next_index, restored, used_lanes, GroupView, LaneEnd, LayoutView, ParsedView, PendingView,
    RawNote, RestoreView,
};
use crate::sequencer::ScaleMode;
use crate::smf::SmfView;
use crate::sorting::{stable_sort_orders, Rank};
use vstd::prelude::*;

verus! {

/// What is read of a file is in the order of starts.
pub proof fn notes_are_read_in_order(file: SmfView, scale: ScaleMode, i: int, j: int)
    requires
        0 <= i < j < imported(file, scale).notes.len(),
    ensures
        imported(file, scale).notes[i].start_tick <= imported(file, scale).notes[j].start_tick,
{
    let tracks = kept_tracks(file.tracks);
    let resolution = file.resolution->0;
    let layout = laid_out(tracks, resolution, scale);
    let all = restored(layout.pending, layout, file_end(tracks), resolution);
    stable_sort_orders(all.notes);
    let notes = imported(file, scale).notes;
    assert(notes[i].rank_le(notes[j]));
}

/// Whether nothing was put on a track yet.
pub open spec fn is_untouched(layout: LayoutView, track: usize) -> bool {
    forall|k: int| 0 <= k < layout.log.len() ==> (#[trigger] layout.log[k]).track != track
}

proof fn lemma_last_end_is_there(log: Seq<LaneEnd>, track: usize, lane: usize) -> (at: int)
    requires
        last_end(log, track, lane) is Some,
    ensures
        0 <= at < log.len(),
        log[at].track == track,
        log[at].lane == lane,
        last_end(log, track, lane) == Some(log[at].end),
    decreases log.len(),
{
    if log.last().track == track && log.last().lane == lane {
        log.len() - 1
    } else {
        lemma_last_end_is_there(log.drop_last(), track, lane)
    }
}

proof fn lemma_lanes_before_are_busy(
    log: Seq<LaneEnd>,
    track: usize,
    lane: usize,
    start: u32,
    resolution: u16,
    other: usize,
)
    requires
        lane <= other < free_lane(log, track, lane, start, resolution),
    ensures
        is_busy(log, track, other, start, resolution),
    decreases usize::MAX - lane,
{
    if lane < usize::MAX && is_busy(log, track, lane, start, resolution) && lane < other {
        lemma_lanes_before_are_busy(log, track, (lane + 1) as usize, start, resolution, other);
    }
}

proof fn lemma_logged(
    base: LayoutView,
    raw: Seq<RawNote>,
    track: usize,
    lane: usize,
    resolution: u16,
    scale: ScaleMode,
)
    ensures
        ({
            let after = base.with_notes(raw, track, lane, false, resolution, scale);
            &&& after.notes.len() == base.notes.len() + raw.len()
            &&& after.log.len() == base.log.len() + raw.len()
            &&& forall|k: int|
                0 <= k < base.log.len() ==> #[trigger] after.log[k] == base.log[k]
            &&& forall|k: int|
                base.log.len() <= k < after.log.len() ==> (#[trigger] after.log[k]) == (LaneEnd {
                    track,
                    lane: after.notes[base.notes.len() + k - base.log.len()].lane,
                    end: raw[k - base.log.len()].end,
                })
        }),
    decreases raw.len(),
{
    if raw.len() > 0 {
        let shorter = raw.drop_last();
        lemma_logged(base, shorter, track, lane, resolution, scale);
        let before = base.with_notes(shorter, track, lane, false, resolution, scale);
        let after = base.with_notes(raw, track, lane, false, resolution, scale);
        assert forall|k: int| base.log.len() <= k < after.log.len() implies (
        #[trigger] after.log[k]) == (LaneEnd {
            track,
            lane: after.notes[base.notes.len() + k - base.log.len()].lane,
            end: raw[k - base.log.len()].end,
        }) by {
            if k < before.log.len() {
                assert(after.log[k] == before.log[k]);
                assert(after.notes[base.notes.len() + k - base.log.len()]
                    == before.notes[base.notes.len() + k - base.log.len()]);
            }
        }
    }
}

/// On a track of its own, a note goes to the first lane on which no note sounds
/// when it starts: on every lane above it there is an earlier one that does. So a
/// melody stays on one lane, and a chord takes as many lanes as it has notes. The
/// note that takes the lane above is returned.
pub proof fn a_note_takes_the_first_free_lane(
    base: LayoutView,
    raw: Seq<RawNote>,
    track: usize,
    resolution: u16,
    scale: ScaleMode,
    j: int,
    lane: usize,
) -> (i: int)
    requires
        is_untouched(base, track),
        0 <= j < raw.len(),
        lane < base.with_notes(raw, track, 0, false, resolution, scale).notes[base.notes.len()
            + j].lane,
    ensures
        ({
            let after = base.with_notes(raw, track, 0, false, resolution, scale);
            &&& 0 <= i < j
            &&& after.notes[base.notes.len() + i].lane == lane
            &&& (raw[i].end - raw[j].start) * 10000 > resolution
        }),
    decreases raw.len(),
{
    let shorter = raw.drop_last();
    let before = base.with_notes(shorter, track, 0, false, resolution, scale);
    let after = base.with_notes(raw, track, 0, false, resolution, scale);
    lemma_logged(base, shorter, track, 0, resolution, scale);
    lemma_logged(base, raw, track, 0, resolution, scale);
    if j < shorter.len() {
        assert(after.notes[base.notes.len() + j] == before.notes[base.notes.len() + j]);
        let i = a_note_takes_the_first_free_lane(
            base,
            shorter,
            track,
            resolution,
            scale,
            j,
            lane,
        );
        assert(after.notes[base.notes.len() + i] == before.notes[base.notes.len() + i]);
        i
    } else {
        lemma_lanes_before_are_busy(before.log, track, 0, raw[j].start, resolution, lane);
        let at = lemma_last_end_is_there(before.log, track, lane);
        if at < base.log.len() {
            assert(before.log[at] == base.log[at]);
        }
        let i = at - base.log.len();
        assert(before.log[at].end == shorter[i].end);
        assert(after.notes[base.notes.len() + i] == before.notes[base.notes.len() + i]);
        i
    }
}

/// Tracks of a file without the names of lanes are numbered in their order: the
/// notes of each lie on the track with its number.
pub proof fn unnamed_tracks_are_numbered(
    tracks: Seq<ParsedView>,
    resolution: u16,
    scale: ScaleMode,
    b: int,
)
    requires
        forall|k: int| 0 <= k < tracks.len() ==> (#[trigger] tracks[k]).name is None,
        tracks.len() < usize::MAX,
    ensures
        laid_out(tracks, resolution, scale).next_track == tracks.len(),
        tracks.len() > 0 && 0 <= b < tracks.last().notes.len() ==> {
            let before = laid_out(tracks.drop_last(), resolution, scale).notes;
            let after = laid_out(tracks, resolution, scale).notes;
            &&& after.len() == before.len() + tracks.last().notes.len()
            &&& after.take(before.len() as int) == before
            &&& after[before.len() + b].track == tracks.len() - 1
        },
    decreases tracks.len(),
{
    if tracks.len() > 0 {
        let shorter = tracks.drop_last();
        assert forall|k: int| 0 <= k < shorter.len() implies (#[trigger] shorter[k]).name is None by {
            assert(tracks[k].name is None);
        }
        unnamed_tracks_are_numbered(shorter, resolution, scale, 0);
        assert(tracks[tracks.len() - 1].name is None);
        let before = laid_out(shorter, resolution, scale);
        let base = LayoutView { next_track: next_index(before.next_track), ..before };
        let notes = tracks.last().notes;
        lemma_put_on_track(base, notes, before.next_track, 0, false, resolution, scale);
        let laid = base.with_notes(notes, before.next_track, 0, false, resolution, scale);
        assert(laid.notes.take(before.notes.len() as int) =~= before.notes);
    }
}

proof fn lemma_put_on_track(
    base: LayoutView,
    raw: Seq<RawNote>,
    track: usize,
    lane: usize,
    fixed: bool,
    resolution: u16,
    scale: ScaleMode,
)
    ensures
        ({
            let after = base.with_notes(raw, track, lane, fixed, resolution, scale);
            &&& after.notes.len() == base.notes.len() + raw.len()
            &&& after.next_track == base.next_track
            &&& after.pending == base.pending
            &&& forall|k: int|
                0 <= k < base.notes.len() ==> #[trigger] after.notes[k] == base.notes[k]
            &&& forall|k: int|
                base.notes.len() <= k < after.notes.len() ==> (#[trigger] after.notes[k]).track
                    == track
            &&& is_logged(base) ==> is_logged(after)
        }),
    decreases raw.len(),
{
    if raw.len() > 0 {
        let shorter = raw.drop_last();
        lemma_put_on_track(base, shorter, track, lane, fixed, resolution, scale);
        let before = base.with_notes(shorter, track, lane, fixed, resolution, scale);
        let after = base.with_notes(raw, track, lane, fixed, resolution, scale);
        if is_logged(base) {
            assert forall|i: int| 0 <= i < after.notes.len() implies #[trigger] has_entry(
                after.log,
                after.notes[i].track,
                after.notes[i].lane,
            ) by {
                if i < before.notes.len() {
                    assert(has_entry(
                        before.log,
                        before.notes[i].track,
                        before.notes[i].lane,
                    ));
                    let k = choose|k: int|
                        0 <= k < before.log.len() && (#[trigger] before.log[k]).track
                            == before.notes[i].track && before.log[k].lane
                            == before.notes[i].lane;
                    assert(after.log[k] == before.log[k]);
                } else {
                    assert(after.log[before.log.len() as int].track == after.notes[i].track);
                }
            }
        }
    }
}

/// Whether something was put on a lane.
pub open spec fn has_entry(log: Seq<LaneEnd>, track: usize, lane: usize) -> bool {
    exists|k: int|
        0 <= k < log.len() && (#[trigger] log[k]).track == track && log[k].lane == lane
}

/// Whether it is noted of every note which lane it was put on.
pub open spec fn is_logged(layout: LayoutView) -> bool {
    forall|i: int|
        0 <= i < layout.notes.len() ==> #[trigger] has_entry(
            layout.log,
            layout.notes[i].track,
            layout.notes[i].lane,
        )
}

proof fn lemma_layout_is_logged(tracks: Seq<ParsedView>, resolution: u16, scale: ScaleMode)
    ensures
        is_logged(laid_out(tracks, resolution, scale)),
    decreases tracks.len(),
{
    if tracks.len() > 0 {
        let before = laid_out(tracks.drop_last(), resolution, scale);
        lemma_layout_is_logged(tracks.drop_last(), resolution, scale);
        let parsed = tracks.last();
        let fixed = parsed.name is Some;
        let (track, lane) = match parsed.name {
            Some(cell) => cell,
            None => (before.next_track, 0usize),
        };
        let base = if fixed {
            before
        } else {
            LayoutView { next_track: next_index(before.next_track), ..before }
        };
        assert forall|i: int| 0 <= i < base.notes.len() implies #[trigger] has_entry(
            base.log,
            base.notes[i].track,
            base.notes[i].lane,
        ) by {
            assert(has_entry(before.log, before.notes[i].track, before.notes[i].lane));
        }
        lemma_put_on_track(base, parsed.notes, track, lane, fixed, resolution, scale);
        let put = base.with_notes(parsed.notes, track, lane, fixed, resolution, scale);
        let after = laid_out(tracks, resolution, scale);
        assert forall|i: int| 0 <= i < after.notes.len() implies #[trigger] has_entry(
            after.log,
            after.notes[i].track,
            after.notes[i].lane,
        ) by {
            assert(has_entry(put.log, put.notes[i].track, put.notes[i].lane));
            let k = choose|k: int|
                0 <= k < put.log.len() && (#[trigger] put.log[k]).track == put.notes[i].track
                    && put.log[k].lane == put.notes[i].lane;
            assert(after.log[k] == put.log[k]);
        }
    }
}

proof fn lemma_used_lanes(log: Seq<LaneEnd>, k: int)
    requires
        0 <= k < log.len(),
        log[k].lane < usize::MAX,
    ensures
        log[k].lane < used_lanes(log, log[k].track),
    decreases log.len(),
{
    if k < log.len() - 1 {
        lemma_used_lanes(log.drop_last(), k);
    }
}

proof fn lemma_groups_go_below(
    base: RestoreView,
    groups: Seq<GroupView>,
    track: usize,
    end: u64,
    resolution: u16,
)
    requires
        base.named is None,
    ensures
        ({
            let after = base.with_groups(groups, track, end, resolution);
            &&& after.named is None
            &&& base.next_lane <= after.next_lane
            &&& base.lane_ccs.len() <= after.lane_ccs.len()
            &&& forall|c: int|
                0 <= c < base.lane_ccs.len() ==> #[trigger] after.lane_ccs[c] == base.lane_ccs[c]
            &&& forall|c: int|
                base.lane_ccs.len() <= c < after.lane_ccs.len() ==> (
                #[trigger] after.lane_ccs[c]).0 == track && base.next_lane <= after.lane_ccs[c].1
                    <= after.next_lane && (after.lane_ccs[c].1 < usize::MAX
                    ==> after.lane_ccs[c].1 < after.next_lane)
            &&& forall|c: int, d: int|
                #![trigger after.lane_ccs[c], after.lane_ccs[d]]
                base.lane_ccs.len() <= c < d < after.lane_ccs.len() && after.lane_ccs[c].1
                    < usize::MAX ==> after.lane_ccs[c].1 < after.lane_ccs[d].1
        }),
    decreases groups.len(),
{
    if groups.len() > 0 {
        let shorter = groups.drop_last();
        lemma_groups_go_below(base, shorter, track, end, resolution);
    }
}

/// Where no track of a file has the name of a lane, the controllers of a track go
/// to lanes below its notes, each to one of its own: no note lies there.
pub proof fn controllers_go_below_the_notes(
    tracks: Seq<ParsedView>,
    resolution: u16,
    scale: ScaleMode,
    end: u64,
    c: int,
    i: int,
)
    requires
        forall|k: int| 0 <= k < tracks.len() ==> (#[trigger] tracks[k]).name is None,
        0 <= c < restored(
            laid_out(tracks, resolution, scale).pending,
            laid_out(tracks, resolution, scale),
            end,
            resolution,
        ).lane_ccs.len(),
        0 <= i < laid_out(tracks, resolution, scale).notes.len(),
        laid_out(tracks, resolution, scale).notes[i].lane < usize::MAX,
    ensures
        ({
            let layout = laid_out(tracks, resolution, scale);
            let lane = restored(layout.pending, layout, end, resolution).lane_ccs[c];
            !(lane.0 == layout.notes[i].track && lane.1 == layout.notes[i].lane)
        }),
{
    let layout = laid_out(tracks, resolution, scale);
    lemma_layout_is_logged(tracks, resolution, scale);
    lemma_nothing_is_named(tracks, resolution, scale);
    assert(has_entry(layout.log, layout.notes[i].track, layout.notes[i].lane));
    let k = choose|k: int|
        0 <= k < layout.log.len() && (#[trigger] layout.log[k]).track == layout.notes[i].track
            && layout.log[k].lane == layout.notes[i].lane;
    lemma_used_lanes(layout.log, k);
    lemma_restored_below(layout.pending, layout, end, resolution, c);
}

proof fn lemma_nothing_is_named(tracks: Seq<ParsedView>, resolution: u16, scale: ScaleMode)
    requires
        forall|k: int| 0 <= k < tracks.len() ==> (#[trigger] tracks[k]).name is None,
    ensures
        forall|p: int|
            0 <= p < laid_out(tracks, resolution, scale).pending.len() ==> (#[trigger] laid_out(
                tracks,
                resolution,
                scale,
            ).pending[p]).lane is None,
    decreases tracks.len(),
{
    if tracks.len() > 0 {
        let shorter = tracks.drop_last();
        assert forall|k: int| 0 <= k < shorter.len() implies (#[trigger] shorter[k]).name is None by {
            assert(tracks[k].name is None);
        }
        lemma_nothing_is_named(shorter, resolution, scale);
        assert(tracks[tracks.len() - 1].name is None);
        let before = laid_out(shorter, resolution, scale);
        let base = LayoutView { next_track: next_index(before.next_track), ..before };
        lemma_put_on_track(
            base,
            tracks.last().notes,
            before.next_track,
            0,
            false,
            resolution,
            scale,
        );
        let after = laid_out(tracks, resolution, scale);
        assert forall|p: int| 0 <= p < after.pending.len() implies (
        #[trigger] after.pending[p]).lane is None by {
            if p < before.pending.len() {
                assert(after.pending[p] == before.pending[p]);
            }
        }
    }
}

proof fn lemma_restored_below(
    pending: Seq<PendingView>,
    layout: LayoutView,
    end: u64,
    resolution: u16,
    c: int,
)
    requires
        forall|p: int| 0 <= p < pending.len() ==> (#[trigger] pending[p]).lane is None,
        0 <= c < restored(pending, layout, end, resolution).lane_ccs.len(),
    ensures
        ({
            let lane = restored(pending, layout, end, resolution).lane_ccs[c];
            lane.1 >= used_lanes(layout.log, lane.0)
        }),
    decreases pending.len(),
{
    if pending.len() > 0 {
        let shorter = pending.drop_last();
        assert forall|p: int| 0 <= p < shorter.len() implies (#[trigger] shorter[p]).lane is None by {
            assert(pending[p].lane is None);
        }
        let before = restored(shorter, layout, end, resolution);
        let waiting = pending[pending.len() - 1];
        assert(waiting.lane is None);
        let base = RestoreView {
            next_lane: used_lanes(layout.log, waiting.track),
            named: waiting.lane,
            ..before
        };
        lemma_groups_go_below(base, waiting.groups, waiting.track, end, resolution);
        if c < before.lane_ccs.len() {
            lemma_restored_below(shorter, layout, end, resolution, c);
        }
    }
}

/// The controllers of one track get lanes that differ, in their order, each with
/// its own number; one that holds no value at any time gets none.
pub proof fn every_controller_gets_a_lane(
    base: RestoreView,
    groups: Seq<GroupView>,
    track: usize,
    end: u64,
    resolution: u16,
    c: int,
    d: int,
)
    requires
        base.named is None,
        base.lane_ccs.len() <= c < d < base.with_groups(
            groups,
            track,
            end,
            resolution,
        ).lane_ccs.len(),
        base.with_groups(groups, track, end, resolution).lane_ccs[c].1 < usize::MAX,
    ensures
        ({
            let lanes = base.with_groups(groups, track, end, resolution).lane_ccs;
            &&& lanes[c].0 == track
            &&& lanes[d].0 == track
            &&& base.next_lane <= lanes[c].1 < lanes[d].1
        }),
        groups.len() > 0 && blocks_of(groups.last().events, end).len() > 0 ==> base.with_groups(
            groups,
            track,
            end,
            resolution,
        ).lane_ccs.last().2 == groups.last().number,
{
    lemma_groups_go_below(base, groups, track, end, resolution);
}

} // verus!
