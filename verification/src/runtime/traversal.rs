//! Breadth-first normalization, one pair at a time.
use vstd::prelude::*;

use crate::runtime::hooks::{Hooks, Watched};
use crate::runtime::net::Net;
use crate::runtime::port::Port;
use crate::runtime::stats::Stats;

verus! {

/// A breadth-first normalization that was interrupted.
#[derive(Debug)]
pub struct OpenRound<T> {
    /// The clock reading that the normalization began with.
    pub start: T,
    /// The active pairs of the round that have not interacted yet, the next one last, or
    /// nothing between two rounds.
    pub rest: Option<Vec<(Port, Port)>>,
}

impl<T> OpenRound<T> {
    /// The active pairs of a round that have not interacted yet, the next one first.
    pub open spec fn reversed(rest: Option<Vec<(Port, Port)>>) -> Option<Seq<(Port, Port)>> {
        match rest {
            Some(rest) => Some(rest@.reverse()),
            None => None,
        }
    }

    /// The active pairs of the open round that have not interacted yet, the next one first.
    pub open spec fn work(open: Option<OpenRound<T>>) -> Option<Seq<(Port, Port)>> {
        match open {
            Some(round) => OpenRound::<T>::reversed(round.rest),
            None => None,
        }
    }

    /// The clock reading that the open normalization began with.
    pub open spec fn reading(open: Option<OpenRound<T>>) -> Option<T> {
        match open {
            Some(round) => Some(round.start),
            None => None,
        }
    }
}

/// What happens to a breadth-first normalization that calls may interrupt.
pub enum Turn {
    /// The next move is made, unless a call waits for the host.
    Move,
    /// The host answers the oldest call: it links the outputs of the call to two ports.
    Answer { left: Port, right: Port },
}

/// A net in breadth-first normalization.
#[verifier::ext_equal]
pub struct Traversal {
    pub net: Net,
    /// The active pairs of the round that have not interacted yet, the next one first, or
    /// nothing between two rounds.
    pub work: Option<Seq<(Port, Port)>>,
}

impl Traversal {
    /// The same with other statistics.
    pub open spec fn with_stats(self, stats: Stats) -> Traversal {
        Traversal { net: self.net.with_stats(stats), ..self }
    }

    /// Whether two traversals differ in their statistics at most.
    pub open spec fn alike(self, other: Traversal) -> bool {
        self.net.alike(other.net) && self.work == other.work
    }

    /// Whether nothing can be done without the host: a call waits for it, or there is no
    /// active pair for another round.
    pub open spec fn stops(self) -> bool {
        self.net.waits() || self.work is None && self.net.quiescent()
    }

    /// The next move: a round begins with all active pairs, the fast ones first; the next one
    /// of them interacts; or the round is over, and counts as depth.
    pub open spec fn moved(self) -> Traversal {
        match self.work {
            None => if self.net.quiescent() {
                self
            } else {
                Traversal {
                    net: Net { fast: Seq::empty(), slow: Seq::empty(), ..self.net },
                    work: Some(self.net.fast + self.net.slow),
                }
            },
            Some(work) => if work.len() > 0 {
                Traversal {
                    net: self.net.interacted(work[0].0, work[0].1),
                    work: Some(work.drop_first()),
                }
            } else {
                Traversal {
                    net: self.net.with_stats(self.net.stats.deepened()),
                    work: None,
                }
            },
        }
    }

    /// The traversal after `n` moves.
    pub open spec fn moves(self, n: nat) -> Traversal
        decreases n,
    {
        if n == 0 {
            self
        } else {
            self.moves((n - 1) as nat).moved()
        }
    }

    /// The traversal after one turn.
    pub open spec fn turned(self, turn: Turn) -> Traversal {
        match turn {
            Turn::Move => if self.net.waits() {
                self
            } else {
                self.moved()
            },
            Turn::Answer { left, right } => if self.net.waits() {
                let call = self.net.calls[0];
                Traversal {
                    net: Net { calls: self.net.calls.drop_first(), ..self.net }.linked(
                        Port::Wire(call.left),
                        left,
                    ).linked(Port::Wire(call.right), right),
                    ..self
                }
            } else {
                self
            },
        }
    }

    /// The traversal after `turns`.
    pub open spec fn turns(self, turns: Seq<Turn>) -> Traversal
        decreases turns.len(),
    {
        if turns.len() == 0 {
            self
        } else {
            self.turns(turns.drop_last()).turned(turns.last())
        }
    }

    /// Whether none of the first `n` moves comes after a stop.
    pub open spec fn goes_on(self, n: nat) -> bool
        decreases n,
    {
        n > 0 ==> {
            &&& self.goes_on((n - 1) as nat)
            &&& !self.moves((n - 1) as nat).stops()
        }
    }

    /// Whether `n` moves, and no fewer, leave nothing that can be done without the host.
    pub open spec fn stops_after(self, n: nat) -> bool {
        &&& self.moves(n).stops()
        &&& self.goes_on(n)
    }

    /// Whether finitely many moves leave nothing that can be done without the host.
    pub open spec fn pauses(self) -> bool {
        exists|n: nat| #[trigger] self.moves(n).stops()
    }

    /// No move comes after a stop.
    pub proof fn lemma_goes_on(self, i: nat, n: nat)
        requires
            i < n,
            self.goes_on(n),
        ensures
            !self.moves(i).stops(),
        decreases n,
    {
        if i + 1 < n {
            self.lemma_goes_on(i, (n - 1) as nat);
        }
    }

    /// How a traversal moves does not depend on its statistics.
    pub proof fn lemma_moved_alike(self, other: Traversal)
        requires
            self.alike(other),
        ensures
            self.moved().alike(other.moved()),
            self.net.counts_like(other.net) ==> self.moved().net.counts_like(other.moved().net),
    {
        if let Some(work) = self.work {
            if work.len() > 0 {
                self.net.lemma_interacted_alike(other.net, work[0].0, work[0].1);
            }
        }
    }

    /// Moves add up.
    pub proof fn lemma_moves_add(self, first: nat, second: nat)
        ensures
            self.moves(first).moves(second) == self.moves(first + second),
        decreases second,
    {
        if second > 0 {
            let rest = (second - 1) as nat;
            self.lemma_moves_add(first, rest);
            assert((first + second - 1) as nat == first + rest);
        }
    }

    /// The pairs of a round interact in turn.
    pub proof fn lemma_moves_sweep(self, work: Seq<(Port, Port)>, n: nat)
        requires
            self.work == Some(work),
            n <= work.len(),
        ensures
            self.moves(n) == (Traversal {
                net: self.net.swept(work.take(n as int)),
                work: Some(work.skip(n as int)),
            }),
        decreases n,
    {
        if n > 0 {
            let rest = (n - 1) as nat;
            self.lemma_moves_sweep(work, rest);
            assert(work.take(n as int).drop_last() =~= work.take(rest as int));
            assert(work.skip(rest as int).drop_first() =~= work.skip(n as int));
        } else {
            assert(work.take(0) =~= Seq::empty());
            assert(work.skip(0) =~= work);
        }
    }
}

/// A traversal together with the hooks that watch it.
pub struct WatchedTraversal<H: Hooks> {
    pub hooks: H,
    pub traversal: Traversal,
}

impl<H: Hooks> WatchedTraversal<H> {
    /// The hooks and the net.
    pub open spec fn watched(self) -> Watched<H> {
        Watched { hooks: self.hooks, net: self.traversal.net }
    }

    /// One move. A round begins with a tick, which leaves the statistics `stats` behind.
    pub open spec fn moved(
        self,
        start: H::Instant,
        stats: Stats,
        after: WatchedTraversal<H>,
    ) -> bool {
        &&& !self.traversal.stops()
        &&& if self.traversal.work is None {
            &&& H::ticked(self.hooks, after.hooks, start, self.traversal.net.stats, stats)
            &&& after.traversal == self.traversal.with_stats(stats).moved()
        } else {
            &&& after.hooks == self.hooks
            &&& after.traversal == self.traversal.moved()
        }
    }

    /// `n` moves.
    pub open spec fn moved_by(self, start: H::Instant, n: nat, after: WatchedTraversal<H>) -> bool
        decreases n,
    {
        if n == 0 {
            after == self
        } else {
            exists|mid: WatchedTraversal<H>, stats: Stats| #[trigger]
                mid.moved(start, stats, after) && self.moved_by(start, (n - 1) as nat, mid)
        }
    }

    /// One more tick, which finds nothing left to do, and the last callback.
    pub open spec fn closed(self, start: H::Instant, after: WatchedTraversal<H>) -> bool {
        &&& self.traversal.work is None
        &&& after.traversal.work is None
        &&& exists|stats: Stats, idle: Watched<H>|
            {
                &&& #[trigger] self.watched().ticked(start, stats, idle)
                &&& idle.net.quiescent()
                &&& idle.closed(start, after.watched())
            }
    }

    /// `n` moves, and the last callbacks unless the normalization stays open.
    pub open spec fn advanced(
        self,
        start: H::Instant,
        n: nat,
        open: bool,
        after: WatchedTraversal<H>,
    ) -> bool {
        if open {
            self.moved_by(start, n, after)
        } else {
            exists|last: WatchedTraversal<H>|
                self.moved_by(start, n, last) && #[trigger] last.closed(start, after)
        }
    }

    /// `n` moves of a normalization: of one that was interrupted, with the clock reading
    /// `from`, or of a new one. If it is interrupted then, its clock reading is `to`.
    #[verifier::opaque]
    pub open spec fn went_on(
        self,
        from: Option<H::Instant>,
        n: nat,
        to: Option<H::Instant>,
        after: WatchedTraversal<H>,
    ) -> bool {
        exists|first: H, start: H::Instant|
            {
                &&& #[trigger] Watched::<H>::opened(self.hooks, from, first, start)
                &&& (WatchedTraversal { hooks: first, traversal: self.traversal }).advanced(
                    start,
                    n,
                    to is Some,
                    after,
                )
                &&& to matches Some(reading) ==> reading == start
            }
    }

    /// Watched moves are moves.
    pub proof fn lemma_moved_by_alike(
        self,
        start: H::Instant,
        n: nat,
        after: WatchedTraversal<H>,
    )
        requires
            self.moved_by(start, n, after),
        ensures
            after.traversal.alike(self.traversal.moves(n)),
            Watched::<H>::only_times() ==> after.traversal.net.counts_like(
                self.traversal.moves(n).net,
            ),
        decreases n,
    {
        if n > 0 {
            let (mid, stats) = choose|mid: WatchedTraversal<H>, stats: Stats| #[trigger]
                mid.moved(start, stats, after) && self.moved_by(start, (n - 1) as nat, mid);
            self.lemma_moved_by_alike(start, (n - 1) as nat, mid);
            let before = self.traversal.moves((n - 1) as nat);
            if mid.traversal.work is None {
                mid.traversal.with_stats(stats).lemma_moved_alike(before);
            } else {
                mid.traversal.lemma_moved_alike(before);
            }
        }
    }

    /// Whether a normalization that began with `self` has come to `current` by `n` moves,
    /// none of them after a stop.
    pub closed spec fn underway(
        self,
        start: H::Instant,
        n: nat,
        current: WatchedTraversal<H>,
    ) -> bool {
        &&& self.moved_by(start, n, current)
        &&& current.traversal.alike(self.traversal.moves(n))
        &&& self.traversal.goes_on(n)
    }

    pub(crate) proof fn lemma_underway(self, start: H::Instant)
        ensures
            self.underway(start, 0, self),
    {
    }

    /// One more move.
    pub(crate) proof fn lemma_underway_on(
        self,
        start: H::Instant,
        n: nat,
        before: WatchedTraversal<H>,
        stats: Stats,
        after: WatchedTraversal<H>,
    )
        requires
            self.underway(start, n, before),
            !before.traversal.stops(),
            before.moved(start, stats, after),
        ensures
            self.underway(start, n + 1, after),
    {
        let origin = self.traversal.moves(n);
        if before.traversal.work is None {
            before.traversal.with_stats(stats).lemma_moved_alike(origin);
        } else {
            before.traversal.lemma_moved_alike(origin);
        }
        assert((n + 1 - 1) as nat == n);
    }

    /// A stop comes when it comes without hooks.
    pub(crate) proof fn lemma_underway_stops(
        self,
        start: H::Instant,
        n: nat,
        current: WatchedTraversal<H>,
        enough: nat,
    )
        requires
            self.underway(start, n, current),
            n <= enough,
            self.traversal.moves(enough).stops(),
        ensures
            !current.traversal.stops() ==> n < enough,
    {
    }

    /// The normalization stays open.
    pub(crate) proof fn lemma_interrupted(
        self,
        from: Option<H::Instant>,
        first: WatchedTraversal<H>,
        start: H::Instant,
        n: nat,
        last: WatchedTraversal<H>,
    )
        requires
            Watched::<H>::opened(self.hooks, from, first.hooks, start),
            first.traversal == self.traversal,
            first.underway(start, n, last),
        ensures
            self.went_on(from, n, Some(start), last),
            self.traversal.goes_on(n),
            last.traversal.stops() ==> self.traversal.stops_after(n),
    {
        reveal(WatchedTraversal::went_on);
        assert(first == (WatchedTraversal { hooks: first.hooks, traversal: self.traversal }));
        assert(first.advanced(start, n, true, last));
    }

    /// The normalization is over.
    pub(crate) proof fn lemma_over(
        self,
        from: Option<H::Instant>,
        first: WatchedTraversal<H>,
        start: H::Instant,
        n: nat,
        last: WatchedTraversal<H>,
        after: WatchedTraversal<H>,
    )
        requires
            Watched::<H>::opened(self.hooks, from, first.hooks, start),
            first.traversal == self.traversal,
            first.underway(start, n, last),
            last.closed(start, after),
        ensures
            self.went_on(from, n, None, after),
            self.traversal.goes_on(n),
            last.traversal.stops() ==> self.traversal.stops_after(n),
    {
        reveal(WatchedTraversal::went_on);
        assert(first == (WatchedTraversal { hooks: first.hooks, traversal: self.traversal }));
        assert(first.advanced(start, n, false, after));
    }

    /// A normalization that is gone on with moves as if it were not watched.
    pub proof fn lemma_went_on_alike(
        self,
        from: Option<H::Instant>,
        n: nat,
        to: Option<H::Instant>,
        after: WatchedTraversal<H>,
    )
        requires
            self.went_on(from, n, to, after),
        ensures
            after.traversal.alike(self.traversal.moves(n)),
            Watched::<H>::only_times() ==> after.traversal.net.counts_like(
                self.traversal.moves(n).net,
            ),
    {
        reveal(WatchedTraversal::went_on);
        let (first, start) = choose|first: H, start: H::Instant|
            {
                &&& #[trigger] Watched::<H>::opened(self.hooks, from, first, start)
                &&& (WatchedTraversal { hooks: first, traversal: self.traversal }).advanced(
                    start,
                    n,
                    to is Some,
                    after,
                )
                &&& to matches Some(reading) ==> reading == start
            };
        let begin = WatchedTraversal { hooks: first, traversal: self.traversal };
        if to is Some {
            begin.lemma_moved_by_alike(start, n, after);
        } else {
            let last = choose|last: WatchedTraversal<H>|
                begin.moved_by(start, n, last) && #[trigger] last.closed(start, after);
            begin.lemma_moved_by_alike(start, n, last);
        }
    }

    pub(crate) proof fn lemma_closed(
        self,
        start: H::Instant,
        stats: Stats,
        idle: Watched<H>,
        after: Watched<H>,
    )
        requires
            self.traversal.work is None,
            self.watched().ticked(start, stats, idle),
            idle.net.quiescent(),
            idle.closed(start, after),
        ensures
            self.closed(
                start,
                WatchedTraversal {
                    hooks: after.hooks,
                    traversal: Traversal { net: after.net, work: None },
                },
            ),
    {
        assert(after == (Watched { hooks: after.hooks, net: after.net }));
    }
}

} // verus!
