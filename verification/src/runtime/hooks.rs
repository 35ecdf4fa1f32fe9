//! What a caller can do while a net is normalized.
use vstd::prelude::*;

use crate::runtime::net::Net;
use crate::runtime::stats::Stats;
use crate::runtime::YieldReason;

verus! {

/// The standard library's clock reading, which nothing is known about.
#[verifier::external_type_specification]
#[verifier::external_body]
pub struct ExInstant(std::time::Instant);

/// Calls `std::time::Instant::now`. Nothing is claimed of the reading.
#[verifier::external_body]
fn clock_now() -> (now: std::time::Instant) {
    std::time::Instant::now()
}

/// Calls `std::time::Instant::elapsed` and counts the result in nanoseconds. Nothing
/// is claimed of the time that has passed.
#[verifier::external_body]
fn clock_elapsed(start: &std::time::Instant) -> (nanos: u128) {
    start.elapsed().as_nanos()
}

/// Callbacks around a normalization. They see the statistics and may change them;
/// the three relations say what an implementation does, and leave everything open
/// where it does not say.
pub trait Hooks: Sized {
    type Instant;

    /// Whether `now` can take `pre` to `post` and return `start`.
    open spec fn started(pre: Self, post: Self, start: Self::Instant) -> bool {
        true
    }

    /// Whether `tick` can take `pre` to `post` and the statistics `before` to `after`.
    open spec fn ticked(
        pre: Self,
        post: Self,
        start: Self::Instant,
        before: Stats,
        after: Stats,
    ) -> bool {
        true
    }

    /// Whether `end` can take `pre` to `post` and the statistics `before` to `after`.
    open spec fn ended(
        pre: Self,
        post: Self,
        start: Self::Instant,
        before: Stats,
        after: Stats,
    ) -> bool {
        true
    }

    /// Called once, before everything else.
    fn now(&mut self) -> (start: Self::Instant)
        ensures
            Self::started(*old(self), *final(self), start),
    ;

    /// Called before each step.
    fn tick(&mut self, start: &Self::Instant, stats: &mut Stats)
        ensures
            Self::ticked(*old(self), *final(self), *start, *old(stats), *final(stats)),
    ;

    /// Called once, after everything else.
    fn end(&mut self, start: &Self::Instant, stats: &mut Stats)
        ensures
            Self::ended(*old(self), *final(self), *start, *old(stats), *final(stats)),
    ;
}

/// Measures how long a normalization takes, and nothing else.
impl Hooks for () {
    type Instant = std::time::Instant;

    open spec fn started(pre: Self, post: Self, start: Self::Instant) -> bool {
        true
    }

    open spec fn ticked(
        pre: Self,
        post: Self,
        start: Self::Instant,
        before: Stats,
        after: Stats,
    ) -> bool {
        after == before
    }

    open spec fn ended(
        pre: Self,
        post: Self,
        start: Self::Instant,
        before: Stats,
        after: Stats,
    ) -> bool {
        exists|nanos: u128| after == #[trigger] before.timed(nanos)
    }

    fn now(&mut self) -> (start: Self::Instant) {
        clock_now()
    }

    fn tick(&mut self, start: &Self::Instant, stats: &mut Stats) {
    }

    fn end(&mut self, start: &Self::Instant, stats: &mut Stats) {
        let nanos = clock_elapsed(start);
        stats.add_time(nanos);
        assert(*stats == old(stats).timed(nanos));
    }
}

/// Lends out hooks.
impl<H: Hooks> Hooks for &mut H {
    type Instant = H::Instant;

    open spec fn started(pre: Self, post: Self, start: Self::Instant) -> bool {
        H::started(*pre, *post, start)
    }

    open spec fn ticked(
        pre: Self,
        post: Self,
        start: Self::Instant,
        before: Stats,
        after: Stats,
    ) -> bool {
        H::ticked(*pre, *post, start, before, after)
    }

    open spec fn ended(
        pre: Self,
        post: Self,
        start: Self::Instant,
        before: Stats,
        after: Stats,
    ) -> bool {
        H::ended(*pre, *post, start, before, after)
    }

    fn now(&mut self) -> (start: Self::Instant) {
        (**self).now()
    }

    fn tick(&mut self, start: &Self::Instant, stats: &mut Stats) {
        (**self).tick(start, stats);
    }

    fn end(&mut self, start: &Self::Instant, stats: &mut Stats) {
        (**self).end(start, stats);
    }
}

/// A net together with the hooks that watch it.
pub struct Watched<H: Hooks> {
    pub hooks: H,
    pub net: Net,
}

impl<H: Hooks> Watched<H> {
    /// A tick that leaves the statistics `stats` behind.
    pub open spec fn ticked(self, start: H::Instant, stats: Stats, after: Watched<H>) -> bool {
        &&& H::ticked(self.hooks, after.hooks, start, self.net.stats, stats)
        &&& after.net == self.net.with_stats(stats)
    }

    /// A tick that leaves the statistics `stats` behind, and one reduction.
    pub open spec fn stepped(self, start: H::Instant, stats: Stats, after: Watched<H>) -> bool {
        &&& !self.net.quiescent()
        &&& H::ticked(self.hooks, after.hooks, start, self.net.stats, stats)
        &&& after.net == self.net.with_stats(stats).step()
    }

    /// `n` reductions, each after a tick.
    pub open spec fn stepped_by(self, start: H::Instant, n: nat, after: Watched<H>) -> bool
        decreases n,
    {
        if n == 0 {
            after == self
        } else {
            exists|mid: Watched<H>, stats: Stats| #[trigger]
                mid.stepped(start, stats, after) && self.stepped_by(start, (n - 1) as nat, mid)
        }
    }

    /// A tick that leaves the statistics `stats` behind, and one round.
    pub open spec fn went_round(self, start: H::Instant, stats: Stats, after: Watched<H>) -> bool {
        &&& !self.net.quiescent()
        &&& H::ticked(self.hooks, after.hooks, start, self.net.stats, stats)
        &&& after.net == self.net.with_stats(stats).round()
    }

    /// `n` rounds, each after a tick.
    pub open spec fn went_rounds(self, start: H::Instant, n: nat, after: Watched<H>) -> bool
        decreases n,
    {
        if n == 0 {
            after == self
        } else {
            exists|mid: Watched<H>, stats: Stats| #[trigger]
                mid.went_round(start, stats, after) && self.went_rounds(start, (n - 1) as nat, mid)
        }
    }

    /// The callbacks around `n` reductions.
    pub open spec fn ran_by(self, n: nat, after: Watched<H>) -> bool {
        exists|first: H, start: H::Instant, last: Watched<H>|
            {
                &&& #[trigger] H::started(self.hooks, first, start)
                &&& (Watched { hooks: first, net: self.net }).stepped_by(start, n, last)
                &&& #[trigger] last.closed(start, after)
            }
    }

    /// The callbacks around `n` rounds; one more tick finds nothing left to do.
    pub open spec fn ran_rounds(self, n: nat, after: Watched<H>) -> bool {
        exists|first: H, start: H::Instant, last: Watched<H>, stats: Stats, idle: Watched<H>|
            {
                &&& #[trigger] H::started(self.hooks, first, start)
                &&& (Watched { hooks: first, net: self.net }).went_rounds(start, n, last)
                &&& #[trigger] last.ticked(start, stats, idle)
                &&& idle.net.quiescent()
                &&& #[trigger] idle.closed(start, after)
            }
    }

    /// Where a normalization is gone on with: one with the clock reading `from` that was
    /// interrupted goes on as it is, and otherwise a new one begins.
    pub open spec fn opened(
        hooks: H,
        from: Option<H::Instant>,
        first: H,
        start: H::Instant,
    ) -> bool {
        match from {
            Some(reading) => first == hooks && start == reading,
            None => H::started(hooks, first, start),
        }
    }

    /// `n` reductions, each after a tick, and the last callback unless the normalization
    /// stays open.
    pub open spec fn advanced(
        self,
        start: H::Instant,
        n: nat,
        open: bool,
        after: Watched<H>,
    ) -> bool {
        if open {
            self.stepped_by(start, n, after)
        } else {
            exists|last: Watched<H>|
                self.stepped_by(start, n, last) && #[trigger] last.closed(start, after)
        }
    }

    /// `n` reductions of a normalization: of one that was interrupted, with the clock reading
    /// `from`, or of a new one. If it is interrupted then, its clock reading is `to`.
    #[verifier::opaque]
    pub open spec fn went_on(
        self,
        from: Option<H::Instant>,
        n: nat,
        to: Option<H::Instant>,
        after: Watched<H>,
    ) -> bool {
        exists|first: H, start: H::Instant|
            {
                &&& #[trigger] Watched::<H>::opened(self.hooks, from, first, start)
                &&& (Watched { hooks: first, net: self.net }).advanced(
                    start,
                    n,
                    to is Some,
                    after,
                )
                &&& to matches Some(reading) ==> reading == start
            }
    }

    /// Up to `budget` reductions of a normalization: fewer only if it stops. If it is
    /// interrupted, `result` says with which clock reading, and what is left of the budget.
    pub open spec fn went_on_for(
        self,
        from: Option<H::Instant>,
        budget: u64,
        result: Result<YieldReason, (H::Instant, u64)>,
        after: Watched<H>,
    ) -> bool {
        exists|n: nat|
            {
                &&& #[trigger] self.went_on(from, n, YieldReason::reading(result), after)
                &&& n <= budget
                &&& n < budget ==> self.net.steps(n).stops()
                &&& self.net.goes_on(n)
                &&& result matches Err((start, rest)) ==> rest == budget - n
            }
    }

    pub(crate) proof fn lemma_went_on_for(
        self,
        from: Option<H::Instant>,
        budget: u64,
        n: nat,
        result: Result<YieldReason, (H::Instant, u64)>,
        after: Watched<H>,
    )
        requires
            self.went_on(from, n, YieldReason::reading(result), after),
            n <= budget,
            n < budget ==> self.net.stops_after(n),
            self.net.goes_on(n),
            result matches Err((start, rest)) ==> rest == budget - n,
        ensures
            self.went_on_for(from, budget, result, after),
    {
    }

    /// The last callback.
    pub open spec fn closed(self, start: H::Instant, after: Watched<H>) -> bool {
        &&& H::ended(self.hooks, after.hooks, start, self.net.stats, after.net.stats)
        &&& after.net == self.net.with_stats(after.net.stats)
    }

    /// Whether the hooks write nothing of the statistics but the time.
    pub open spec fn only_times() -> bool {
        &&& forall|pre: H, post: H, start: H::Instant, before: Stats, after: Stats| #[trigger]
            H::ticked(pre, post, start, before, after) ==> before.counts_like(after)
        &&& forall|pre: H, post: H, start: H::Instant, before: Stats, after: Stats| #[trigger]
            H::ended(pre, post, start, before, after) ==> before.counts_like(after)
    }

    /// Whether the hooks do not write the depth.
    pub open spec fn keeps_depth() -> bool {
        &&& forall|pre: H, post: H, start: H::Instant, before: Stats, after: Stats| #[trigger]
            H::ticked(pre, post, start, before, after) ==> after.depth == before.depth
        &&& forall|pre: H, post: H, start: H::Instant, before: Stats, after: Stats| #[trigger]
            H::ended(pre, post, start, before, after) ==> after.depth == before.depth
    }

    /// Watched reductions are reductions.
    pub proof fn lemma_stepped_by_alike(self, start: H::Instant, n: nat, after: Watched<H>)
        requires
            self.stepped_by(start, n, after),
        ensures
            after.net.alike(self.net.steps(n)),
            Watched::<H>::only_times() ==> after.net.counts_like(self.net.steps(n)),
        decreases n,
    {
        if n > 0 {
            let (mid, stats) = choose|mid: Watched<H>, stats: Stats| #[trigger]
                mid.stepped(start, stats, after) && self.stepped_by(start, (n - 1) as nat, mid);
            self.lemma_stepped_by_alike(start, (n - 1) as nat, mid);
            mid.net.with_stats(stats).lemma_step_alike(self.net.steps((n - 1) as nat));
        }
    }

    /// Watched rounds are rounds.
    pub proof fn lemma_went_rounds_alike(self, start: H::Instant, n: nat, after: Watched<H>)
        requires
            self.went_rounds(start, n, after),
        ensures
            after.net.alike(self.net.rounds(n)),
            Watched::<H>::only_times() ==> after.net.counts_like(self.net.rounds(n)),
        decreases n,
    {
        if n > 0 {
            let (mid, stats) = choose|mid: Watched<H>, stats: Stats| #[trigger]
                mid.went_round(start, stats, after) && self.went_rounds(start, (n - 1) as nat, mid);
            self.lemma_went_rounds_alike(start, (n - 1) as nat, mid);
            mid.net.with_stats(stats).lemma_round_alike(self.net.rounds((n - 1) as nat));
        }
    }

    /// What happened between the first and the last callback.
    pub proof fn lemma_rounds_run(self, n: nat, after: Watched<H>) -> (run: (
        H,
        H::Instant,
        Watched<H>,
    ))
        requires
            self.ran_rounds(n, after),
        ensures
            (Watched { hooks: run.0, net: self.net }).went_rounds(run.1, n, run.2),
            after.net.alike(run.2.net),
            Watched::<H>::only_times() ==> after.net.counts_like(run.2.net),
            Watched::<H>::keeps_depth() ==> after.net.stats.depth == run.2.net.stats.depth,
    {
        let (first, start, last, stats, idle) = choose|
            first: H,
            start: H::Instant,
            last: Watched<H>,
            stats: Stats,
            idle: Watched<H>,
        |
            {
                &&& #[trigger] H::started(self.hooks, first, start)
                &&& (Watched { hooks: first, net: self.net }).went_rounds(start, n, last)
                &&& #[trigger] last.ticked(start, stats, idle)
                &&& idle.net.quiescent()
                &&& #[trigger] idle.closed(start, after)
            };
        (first, start, last)
    }

    /// A normalization that is gone on with reduces as if it were not watched.
    pub proof fn lemma_went_on_alike(
        self,
        from: Option<H::Instant>,
        n: nat,
        to: Option<H::Instant>,
        after: Watched<H>,
    )
        requires
            self.went_on(from, n, to, after),
        ensures
            after.net.alike(self.net.steps(n)),
            Watched::<H>::only_times() ==> after.net.counts_like(self.net.steps(n)),
    {
        reveal(Watched::went_on);
        let (first, start) = choose|first: H, start: H::Instant|
            {
                &&& #[trigger] Watched::<H>::opened(self.hooks, from, first, start)
                &&& (Watched { hooks: first, net: self.net }).advanced(
                    start,
                    n,
                    to is Some,
                    after,
                )
                &&& to matches Some(reading) ==> reading == start
            };
        let begin = Watched { hooks: first, net: self.net };
        if to is Some {
            begin.lemma_stepped_by_alike(start, n, after);
        } else {
            let last = choose|last: Watched<H>|
                begin.stepped_by(start, n, last) && #[trigger] last.closed(start, after);
            begin.lemma_stepped_by_alike(start, n, last);
        }
    }

    /// A normalization that was never interrupted.
    pub(crate) proof fn lemma_uninterrupted(self, n: nat, after: Watched<H>)
        requires
            self.went_on(None, n, None, after),
        ensures
            self.ran_by(n, after),
    {
        reveal(Watched::went_on);
        let (first, start) = choose|first: H, start: H::Instant|
            {
                &&& #[trigger] Watched::<H>::opened(self.hooks, None, first, start)
                &&& (Watched { hooks: first, net: self.net }).advanced(start, n, false, after)
            };
        let begin = Watched { hooks: first, net: self.net };
        let last = choose|last: Watched<H>|
            begin.stepped_by(start, n, last) && #[trigger] last.closed(start, after);
        self.lemma_ran_by(begin, start, n, last, after);
    }

    /// A normalization with a budget in which no function of the host is called.
    pub(crate) proof fn lemma_uninterrupted_for(
        self,
        budget: u64,
        result: Result<YieldReason, (H::Instant, u64)>,
        after: Watched<H>,
    ) -> (n: nat)
        requires
            self.went_on_for(None, budget, result, after),
            result is Err ==> after.net.waits(),
            !self.net.steps(budget as nat).waits(),
        ensures
            result is Ok,
            self.ran_by(n, after),
            n <= budget,
            n < budget ==> after.net.quiescent(),
            after.net.alike(self.net.steps(budget as nat)),
    {
        let to = YieldReason::reading(result);
        let n = choose|n: nat|
            {
                &&& #[trigger] self.went_on(None, n, to, after)
                &&& n <= budget
                &&& n < budget ==> self.net.steps(n).stops()
                &&& self.net.goes_on(n)
                &&& result matches Err((start, rest)) ==> rest == budget - n
            };
        self.net.lemma_calls_grow(n, budget as nat);
        self.lemma_went_on_alike(None, n, to, after);
        assert(!after.net.waits());
        self.lemma_uninterrupted(n, after);
        if n < budget {
            assert(self.net.steps(n).quiescent());
            self.net.lemma_steps_settled(n, budget as nat);
        }
        n
    }

    /// Whether a normalization that began with `self` has come to `current` by `n` reductions,
    /// none of them after a stop.
    pub closed spec fn underway(self, start: H::Instant, n: nat, current: Watched<H>) -> bool {
        &&& self.stepped_by(start, n, current)
        &&& current.net.alike(self.net.steps(n))
        &&& self.net.goes_on(n)
    }

    pub(crate) proof fn lemma_underway(self, start: H::Instant)
        ensures
            self.underway(start, 0, self),
    {
    }

    /// One more reduction.
    pub(crate) proof fn lemma_underway_on(
        self,
        start: H::Instant,
        n: nat,
        before: Watched<H>,
        stats: Stats,
        after: Watched<H>,
    )
        requires
            self.underway(start, n, before),
            !before.net.stops(),
            before.stepped(start, stats, after),
        ensures
            self.underway(start, n + 1, after),
    {
        before.net.with_stats(stats).lemma_step_alike(self.net.steps(n));
        assert((n + 1 - 1) as nat == n);
    }

    /// A stop comes when it comes without hooks.
    pub(crate) proof fn lemma_underway_stops(
        self,
        start: H::Instant,
        n: nat,
        current: Watched<H>,
        enough: nat,
    )
        requires
            self.underway(start, n, current),
            n <= enough,
            self.net.steps(enough).stops(),
        ensures
            !current.net.stops() ==> n < enough,
    {
    }

    /// The normalization stays open.
    pub(crate) proof fn lemma_interrupted(
        self,
        from: Option<H::Instant>,
        first: Watched<H>,
        start: H::Instant,
        n: nat,
        last: Watched<H>,
    )
        requires
            Watched::<H>::opened(self.hooks, from, first.hooks, start),
            first.net == self.net,
            first.underway(start, n, last),
        ensures
            self.went_on(from, n, Some(start), last),
            self.net.goes_on(n),
            last.net.stops() ==> self.net.stops_after(n),
    {
        reveal(Watched::went_on);
        assert(first == (Watched { hooks: first.hooks, net: self.net }));
        assert(first.advanced(start, n, true, last));
    }

    /// The normalization is over.
    pub(crate) proof fn lemma_over(
        self,
        from: Option<H::Instant>,
        first: Watched<H>,
        start: H::Instant,
        n: nat,
        last: Watched<H>,
        after: Watched<H>,
    )
        requires
            Watched::<H>::opened(self.hooks, from, first.hooks, start),
            first.net == self.net,
            first.underway(start, n, last),
            last.closed(start, after),
        ensures
            self.went_on(from, n, None, after),
            self.net.goes_on(n),
            last.net.stops() ==> self.net.stops_after(n),
    {
        reveal(Watched::went_on);
        assert(first == (Watched { hooks: first.hooks, net: self.net }));
        assert(first.advanced(start, n, false, after));
    }

    pub(crate) proof fn lemma_ran_by(
        self,
        first: Watched<H>,
        start: H::Instant,
        n: nat,
        last: Watched<H>,
        after: Watched<H>,
    )
        requires
            H::started(self.hooks, first.hooks, start),
            first.net == self.net,
            first.stepped_by(start, n, last),
            last.closed(start, after),
        ensures
            self.ran_by(n, after),
    {
        assert(first == (Watched { hooks: first.hooks, net: self.net }));
    }

    pub(crate) proof fn lemma_ran_rounds(
        self,
        first: Watched<H>,
        start: H::Instant,
        n: nat,
        last: Watched<H>,
        stats: Stats,
        idle: Watched<H>,
        after: Watched<H>,
    )
        requires
            H::started(self.hooks, first.hooks, start),
            first.net == self.net,
            first.went_rounds(start, n, last),
            last.ticked(start, stats, idle),
            idle.net.quiescent(),
            idle.closed(start, after),
        ensures
            self.ran_rounds(n, after),
    {
        assert(first == (Watched { hooks: first.hooks, net: self.net }));
    }
}

} // verus!
