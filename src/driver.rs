use vstd::prelude::*;

use crate::grid::SimGrid;
use crate::particles::{delete_all_particles, lemma_consistent_from_membership, lookup_consistent, SimParticles};

verus! {

/// Iterations of the pressure projection per tick by default.
pub const DEFAULT_INCOMP_ITERS: u8 = 100;

/// Iterations of particle separation per tick by default.
pub const DEFAULT_COLLISION_ITERS: u8 = 2;

/// The step driver's own settings: whether ticks run each frame, and how many solver
/// iterations a tick performs.
pub struct SimSchedule {
    pub is_paused: bool,
    pub incomp_iters_per_frame: u8,
    pub collision_iters_per_frame: u8,
}

impl Default for SimSchedule {
    /// Running, with the default iteration counts.
    fn default() -> (r: SimSchedule)
        ensures
            !r.is_paused,
            r.incomp_iters_per_frame == DEFAULT_INCOMP_ITERS,
            r.collision_iters_per_frame == DEFAULT_COLLISION_ITERS,
    {
        SimSchedule {
            is_paused: false,
            incomp_iters_per_frame: DEFAULT_INCOMP_ITERS,
            collision_iters_per_frame: DEFAULT_COLLISION_ITERS,
        }
    }
}

/// What the host does in one frame, in this order: a tick if `tick_before_events`; then a
/// reset, or else a clear, or else `event_ticks` further ticks followed by the queued tool uses
/// if `use_tools`.
pub struct FramePlan {
    pub tick_before_events: bool,
    pub reset: bool,
    pub clear: bool,
    pub event_ticks: usize,
    pub use_tools: bool,
}

/// Pause flag after a run of play/pause (`false`) and step (`true`) events: play/pause flips
/// it, a step sets it.
pub open spec fn paused_after(paused: bool, events: Seq<bool>) -> bool
    decreases events.len(),
{
    if events.len() == 0 {
        paused
    } else if events.last() {
        true
    } else {
        !paused_after(paused, events.drop_last())
    }
}

/// Number of step events.
pub open spec fn step_count(events: Seq<bool>) -> int
    decreases events.len(),
{
    if events.len() == 0 {
        0
    } else {
        step_count(events.drop_last()) + if events.last() {
            1int
        } else {
            0int
        }
    }
}

proof fn lemma_step_count_bound(events: Seq<bool>)
    ensures
        0 <= step_count(events) <= events.len(),
    decreases events.len(),
{
    if events.len() > 0 {
        lemma_step_count_bound(events.drop_last());
    }
}

impl SimSchedule {
    /// Decides one frame. A tick runs first unless paused. A reset request then wins over
    /// everything else, and a clear request over the play/pause/step events and tool uses,
    /// which are otherwise handled in order: each play/pause event flips the pause flag, each
    /// step event pauses and runs one tick.
    pub fn plan_frame(&mut self, reset_requested: bool, clear_requested: bool, pause_events: &Vec<bool>) -> (r: FramePlan)
        ensures
            r.tick_before_events == !old(self).is_paused,
            r.reset == reset_requested,
            r.clear == (!reset_requested && clear_requested),
            r.use_tools == (!reset_requested && !clear_requested),
            r.use_tools ==> r.event_ticks == step_count(pause_events@) && final(self).is_paused
                == paused_after(old(self).is_paused, pause_events@),
            !r.use_tools ==> r.event_ticks == 0 && final(self).is_paused == old(self).is_paused,
            final(self).incomp_iters_per_frame == old(self).incomp_iters_per_frame,
            final(self).collision_iters_per_frame == old(self).collision_iters_per_frame,
    {
        let tick_before_events = !self.is_paused;
        if reset_requested || clear_requested {
            return FramePlan {
                tick_before_events,
                reset: reset_requested,
                clear: !reset_requested,
                event_ticks: 0,
                use_tools: false,
            };
        }
        let mut ticks: usize = 0;
        let mut i: usize = 0;
        while i < pause_events.len()
            invariant
                i <= pause_events@.len(),
                ticks == step_count(pause_events@.subrange(0, i as int)),
                self.is_paused == paused_after(old(self).is_paused, pause_events@.subrange(0, i as int)),
                self.incomp_iters_per_frame == old(self).incomp_iters_per_frame,
                self.collision_iters_per_frame == old(self).collision_iters_per_frame,
            decreases pause_events@.len() - i,
        {
            proof {
                let pre = pause_events@.subrange(0, i as int + 1);
                assert(pre.drop_last() =~= pause_events@.subrange(0, i as int));
                lemma_step_count_bound(pause_events@.subrange(0, i as int));
            }
            if pause_events[i] {
                self.is_paused = true;
                ticks += 1;
            } else {
                self.is_paused = !self.is_paused;
            }
            i += 1;
        }
        proof {
            assert(pause_events@.subrange(0, i as int) =~= pause_events@);
        }
        FramePlan { tick_before_events, reset: false, clear: false, event_ticks: ticks, use_tools: true }
    }

    /// Switches the projection between off and a light setting of 5 iterations.
    pub fn toggle_simulation_pause(&mut self)
        ensures
            final(self).incomp_iters_per_frame == if old(self).incomp_iters_per_frame != 0 {
                0u8
            } else {
                5u8
            },
            final(self).is_paused == old(self).is_paused,
            final(self).collision_iters_per_frame == old(self).collision_iters_per_frame,
    {
        if self.incomp_iters_per_frame != 0 {
            self.incomp_iters_per_frame = 0;
        } else {
            self.incomp_iters_per_frame = 5;
        }
    }
}

/// Empties the simulation and restores the default grid and iteration counts; the pause flag
/// is kept.
pub fn reset_simulation_to_default<T>(schedule: &mut SimSchedule, grid: &mut SimGrid, parts: &mut SimParticles<T>)
    requires
        old(grid).wf(),
    ensures
        lookup_consistent(final(grid), final(parts)),
        final(grid).is_blank(50, 50, 5),
        final(parts).count() == 0,
        final(parts).data@.len() == 0,
        final(schedule).is_paused == old(schedule).is_paused,
        final(schedule).incomp_iters_per_frame == DEFAULT_INCOMP_ITERS,
        final(schedule).collision_iters_per_frame == DEFAULT_COLLISION_ITERS,
{
    delete_all_particles(grid, parts);
    *grid = SimGrid::default();
    schedule.incomp_iters_per_frame = DEFAULT_INCOMP_ITERS;
    schedule.collision_iters_per_frame = DEFAULT_COLLISION_ITERS;
    proof {
        assert forall|b: int| 0 <= b < grid.cell_count() implies (#[trigger] grid.bucket(b)).no_duplicates() by {
            assert(grid.bucket(b).len() == 0);
        }
        assert forall|b: int, x: usize| 0 <= b < grid.cell_count() implies (#[trigger] grid.bucket(b).contains(x)
            <==> (x < parts.count() && parts.cell_of(x as int) == b)) by {
            assert(grid.bucket(b).len() == 0);
        }
        lemma_consistent_from_membership(&*grid, &*parts);
    }
}

} // verus!
