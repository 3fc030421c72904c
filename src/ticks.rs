use vstd::prelude::*;

verus! {

/// A world tick: a 32-bit counter that wraps around.
pub type Ticks = u32;

/// When a component was inserted and when it was last changed.
#[derive(Clone, Copy, PartialEq, Eq, Structural, Debug, Hash, Default)]
pub struct ChangeTicks {
    pub inserted: Ticks,
    pub changed: Ticks,
}

/// How far `t` lies after `from`, counted modulo 2^32.
pub open spec fn tick_distance(from: Ticks, t: Ticks) -> int {
    if t >= from {
        t - from
    } else {
        t + 0x1_0000_0000 - from
    }
}

/// `t` is newer than `last_run` and not newer than `world_tick`, each
/// compared by the signed difference modulo 2^32: `(t - last_run) as i32 > 0`
/// and `(world_tick - t) as i32 >= 0`.
pub open spec fn tick_is_newer(t: Ticks, world_tick: Ticks, last_run: Ticks) -> bool {
    &&& 0 < tick_distance(last_run, t) < 0x8000_0000
    &&& tick_distance(t, world_tick) < 0x8000_0000
}

fn distance(from: Ticks, t: Ticks) -> (r: u32)
    ensures
        r == tick_distance(from, t),
{
    if t >= from {
        t - from
    } else {
        ((t as u64 + 0x1_0000_0000u64) - from as u64) as u32
    }
}

/// Whether `t` is newer than the last run and not newer than the world tick.
pub fn is_newer(t: Ticks, world_tick: Ticks, last_run: Ticks) -> (r: bool)
    ensures
        r == tick_is_newer(t, world_tick, last_run),
{
    let d = distance(last_run, t);
    d != 0 && d < 0x8000_0000 && distance(t, world_tick) < 0x8000_0000
}

impl ChangeTicks {
    pub fn new(inserted: Ticks, changed: Ticks) -> (r: ChangeTicks)
        ensures
            r == (ChangeTicks { inserted, changed }),
    {
        ChangeTicks { inserted, changed }
    }

    /// The `added` filter: the component was inserted since the last run.
    pub fn added(&self, world_tick: Ticks, last_run: Ticks) -> (r: bool)
        ensures
            r == tick_is_newer(self.inserted, world_tick, last_run),
    {
        is_newer(self.inserted, world_tick, last_run)
    }

    /// The `mutated` filter: the component was changed since the last run.
    pub fn mutated(&self, world_tick: Ticks, last_run: Ticks) -> (r: bool)
        ensures
            r == tick_is_newer(self.changed, world_tick, last_run),
    {
        is_newer(self.changed, world_tick, last_run)
    }
}

/// When the world tick is less than 2^31 ticks past the last run, without
/// wraparound, the `added` filter accepts exactly the insertion ticks in
/// `(last_run, world_tick]`, and the `mutated` filter exactly the change
/// ticks in that range.
pub proof fn lemma_filters_match_window(ticks: ChangeTicks, world_tick: Ticks, last_run: Ticks)
    requires
        last_run <= world_tick,
        world_tick - last_run < 0x8000_0000,
    ensures
        tick_is_newer(ticks.inserted, world_tick, last_run) <==> (last_run < ticks.inserted
            <= world_tick),
        tick_is_newer(ticks.changed, world_tick, last_run) <==> (last_run < ticks.changed
            <= world_tick),
{
}

} // verus!
