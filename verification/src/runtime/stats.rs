//! Execution statistics.
use vstd::prelude::*;

verus! {

/// Execution statistics of a runtime. The counters wrap around.
#[derive(Debug, Clone, Copy, PartialEq, Eq)]
pub struct Stats {
    /// Annihilations of two combinators with the same label.
    pub annihilate: u64,
    /// Commutations of two different nodes.
    pub commute: u64,
    /// Host values that met a combinator.
    pub copy: u64,
    /// Interactions with an eraser, or between two nilary agents.
    pub erase: u64,
    /// Grafts that were instantiated.
    pub expand: u64,
    /// Calls of extrinsic functions.
    pub call: u64,
    /// The length of the longest critical path, as far as it was measured.
    pub depth: u64,
    /// Wires that were allocated.
    pub mem_alloc: u64,
    /// Wires that were freed.
    pub mem_free: u64,
    /// Nanoseconds that normalization took.
    pub time_clock: u128,
}

impl Stats {
    /// No events at all.
    pub open spec fn zero() -> Stats {
        Stats {
            annihilate: 0,
            commute: 0,
            copy: 0,
            erase: 0,
            expand: 0,
            call: 0,
            depth: 0,
            mem_alloc: 0,
            mem_free: 0,
            time_clock: 0,
        }
    }

    pub open spec fn annihilated(self) -> Stats {
        Stats { annihilate: self.annihilate.wrapping_add(1), ..self }
    }

    pub open spec fn commuted(self) -> Stats {
        Stats { commute: self.commute.wrapping_add(1), ..self }
    }

    pub open spec fn copied(self) -> Stats {
        Stats { copy: self.copy.wrapping_add(1), ..self }
    }

    pub open spec fn erased(self) -> Stats {
        Stats { erase: self.erase.wrapping_add(1), ..self }
    }

    pub open spec fn expanded(self) -> Stats {
        Stats { expand: self.expand.wrapping_add(1), ..self }
    }

    pub open spec fn called(self) -> Stats {
        Stats { call: self.call.wrapping_add(1), ..self }
    }

    pub open spec fn deepened(self) -> Stats {
        Stats { depth: self.depth.wrapping_add(1), ..self }
    }

    pub open spec fn allocated(self) -> Stats {
        Stats { mem_alloc: self.mem_alloc.wrapping_add(1), ..self }
    }

    pub open spec fn freed(self) -> Stats {
        Stats { mem_free: self.mem_free.wrapping_add(1), ..self }
    }

    /// Whether two statistics differ in the time that was measured at most.
    pub open spec fn counts_like(self, other: Stats) -> bool {
        Stats { time_clock: other.time_clock, ..self } == other
    }

    /// The same events, measured over `nanos` more nanoseconds.
    pub open spec fn timed(self, nanos: u128) -> Stats {
        Stats { time_clock: self.time_clock.wrapping_add(nanos), ..self }
    }
}

impl Stats {
    /// Adds `nanos` nanoseconds to the time that was measured, and changes nothing else.
    pub fn add_time(&mut self, nanos: u128)
        ensures
            *final(self) == old(self).timed(nanos),
            old(self).time_clock + nanos <= u128::MAX ==> final(self).time_clock
                == old(self).time_clock + nanos,
    {
        self.time_clock = self.time_clock.wrapping_add(nanos);
    }
}

impl Default for Stats {
    fn default() -> (stats: Stats)
        ensures
            stats == Stats::zero(),
    {
        Stats {
            annihilate: 0,
            commute: 0,
            copy: 0,
            erase: 0,
            expand: 0,
            call: 0,
            depth: 0,
            mem_alloc: 0,
            mem_free: 0,
            time_clock: 0,
        }
    }
}

} // verus!
