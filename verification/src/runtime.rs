//! The runtime of the IVM.
use vstd::prelude::*;

use crate::host::Host;
use crate::runtime::ext::ExtCall;
use crate::runtime::flags::Flags;
use crate::runtime::heap::Heap;
use crate::runtime::hooks::Watched;
use crate::runtime::net::Net;
use crate::runtime::port::Port;
use crate::runtime::stats::Stats;
use crate::runtime::traversal::{OpenRound, Traversal, WatchedTraversal};

pub mod counting;
pub mod depth;
pub mod expansion;
pub mod ext;
pub mod flags;
pub mod frame;
pub mod graft;
pub mod heap;
pub mod hooks;
pub mod linear;
pub mod meaning;
pub mod net;
pub mod port;
pub mod stats;
pub mod traversal;
pub mod wire;

mod independence;
mod interact;
mod preservation;
mod weight;

pub use crate::runtime::hooks::Hooks;

verus! {

/// Why a normalization with a budget came back.
#[derive(Debug, Clone, Copy, PartialEq, Eq, Structural)]
pub enum YieldReason {
    /// No active pairs remain.
    Quiescent,
    /// Work remains, but the supplied reduction budget was consumed.
    BudgetExhausted,
}

impl YieldReason {
    /// The clock reading of a normalization that was interrupted before it came back.
    pub open spec fn reading<T>(result: Result<YieldReason, (T, u64)>) -> Option<T> {
        match result {
            Ok(reason) => None,
            Err((start, rest)) => Some(start),
        }
    }
}

/// A net, and what is needed to reduce it.
pub struct Runtime {
    /// Execution statistics of this runtime.
    pub stats: Stats,
    /// Error flags set during interactions.
    pub flags: Flags,
    /// The types, functions and compiled nets that this runtime knows, and the requests
    /// of its net.
    pub host: Host,
    pub heap: Heap,
    /// Active pairs that should be "fast" to process: those which do not allocate
    /// memory.
    pub active_fast: Vec<(Port, Port)>,
    /// Active pairs that may be "slow" to process: those which may allocate memory.
    pub active_slow: Vec<(Port, Port)>,
    /// Calls of extrinsic functions that the host has to carry out, the oldest first. Their
    /// outputs stay unlinked until then.
    pub calls: Vec<ExtCall>,
}

impl View for Runtime {
    type V = Net;

    open spec fn view(&self) -> Net {
        Net {
            cells: self.heap.cells@,
            free: self.heap.free@,
            fast: self.active_fast@,
            slow: self.active_slow@,
            requests: self.host.mailboxes@,
            calls: self.calls@,
            flags: self.flags,
            stats: self.stats,
            host: self.host@,
        }
    }
}

impl Runtime {
    /// Everything that the net refers to is there.
    pub open spec fn wf(&self) -> bool {
        self@.wf()
    }

    /// A runtime without work.
    pub(crate) fn new(heap: Heap, host: Host) -> (runtime: Runtime)
        requires
            host@.wf(),
            host.mailboxes.are_empty(),
        ensures
            runtime@ == Net::initial(host@),
            runtime.wf(),
    {
        let mut heap = heap;
        heap.cells.clear();
        heap.free.clear();
        let runtime = Runtime {
            stats: Stats::default(),
            flags: Flags::default(),
            host,
            heap,
            active_fast: Vec::new(),
            active_slow: Vec::new(),
            calls: Vec::new(),
        };
        proof {
            assert forall|i: int| 0 <= i < runtime@.requests.len() implies #[trigger]
                runtime@.requests[i] =~= Net::initial(host@).requests[i] by {
                assert(host.mailboxes@[i].len() == 0);
            }
            assert(runtime@ =~= Net::initial(host@));
        }
        runtime
    }

    /// Normalizes all nets of this runtime, none of which calls a function of the host. For
    /// those that may, there is [`Runtime::normalize_until_call`].
    pub fn normalize<H: Hooks>(&mut self, hooks: H)
        requires
            old(self).wf(),
            old(self)@.normalizes(),
        ensures
            exists|n: nat, after: H| #[trigger]
                (Watched { hooks, net: old(self)@ }).ran_by(
                    n,
                    Watched { hooks: after, net: final(self)@ },
                ) && final(self)@.alike(old(self)@.steps(n)),
            final(self)@.rests(),
            final(self).wf(),
            final(self)@.follows(old(self)@),
    {
        let mut hooks = hooks;
        let ghost begin = Watched { hooks, net: old(self)@ };
        let ghost m = choose|m: nat| #[trigger] old(self)@.steps(m).rests();
        assert(old(self)@.steps(m).stops());
        let open = self.normalize_until_call(None, &mut hooks);
        proof {
            let after = Watched { hooks, net: self@ };
            let n = choose|n: nat|
                {
                    &&& #[trigger] begin.went_on(None, n, open, after)
                    &&& old(self)@.stops_after(n)
                };
            if m < n {
                old(self)@.lemma_goes_on(m, n);
            }
            old(self)@.lemma_calls_grow(n, m);
            begin.lemma_went_on_alike(None, n, open, after);
            begin.lemma_uninterrupted(n, after);
        }
    }

    /// Normalizes all nets of this runtime until there is nothing left to do, or a function
    /// of the host is called. In the latter case the normalization is interrupted right after
    /// that call's interaction, and the clock reading that it began with is returned: once
    /// the host has taken the call and linked its outputs, the normalization can be gone on
    /// with under this reading. Without one, a new normalization begins.
    pub fn normalize_until_call<H: Hooks>(
        &mut self,
        open: Option<H::Instant>,
        hooks: &mut H,
    ) -> (still_open: Option<H::Instant>)
        requires
            old(self).wf(),
            old(self)@.pauses(),
        ensures
            exists|n: nat|
                {
                    &&& #[trigger] (Watched { hooks: *old(hooks), net: old(self)@ }).went_on(
                        open,
                        n,
                        still_open,
                        Watched { hooks: *final(hooks), net: final(self)@ },
                    )
                    &&& old(self)@.stops_after(n)
                },
            still_open is Some <==> final(self)@.waits(),
            final(self)@.stops(),
            final(self).wf(),
            final(self)@.follows(old(self)@),
    {
        let ghost enough = choose|n: nat| #[trigger] old(self)@.steps(n).stops();
        let ghost begin = Watched { hooks: *old(hooks), net: old(self)@ };
        let ghost from = open;
        let start = match open {
            Some(start) => start,
            None => hooks.now(),
        };
        let ghost first = Watched { hooks: *hooks, net: self@ };
        let ghost mut n: nat = 0;
        proof {
            first.lemma_underway(start);
        }
        while self.calls.is_empty() && !self.is_quiescent()
            invariant
                self.wf(),
                self@.follows(old(self)@),
                first.net == old(self)@,
                first.underway(start, n, Watched { hooks: *hooks, net: self@ }),
                n <= enough,
                old(self)@.steps(enough).stops(),
            decreases enough - n,
        {
            let ghost before = Watched { hooks: *hooks, net: self@ };
            proof {
                first.lemma_underway_stops(start, n, before, enough);
            }
            hooks.tick(&start, &mut self.stats);
            let ghost stats = self.stats;
            assert(self@ =~= before.net.with_stats(stats));
            let reduced = self.reduce_one();
            proof {
                let after = Watched { hooks: *hooks, net: self@ };
                first.lemma_underway_on(start, n, before, stats, after);
                n = n + 1;
            }
        }
        let ghost last = Watched { hooks: *hooks, net: self@ };
        if !self.calls.is_empty() {
            proof {
                begin.lemma_interrupted(from, first, start, n, last);
            }
            return Some(start);
        }
        hooks.end(&start, &mut self.stats);
        proof {
            let after = Watched { hooks: *hooks, net: self@ };
            assert(after.net =~= last.net.with_stats(after.net.stats));
            begin.lemma_over(from, first, start, n, last, after);
        }
        None
    }

    /// Normalizes all nets of this runtime without any hooks, until there is nothing left to
    /// do or a function of the host is called.
    pub(crate) fn normalize_unwatched(&mut self)
        requires
            old(self).wf(),
            old(self)@.pauses(),
        ensures
            exists|n: nat|
                final(self)@ == #[trigger] old(self)@.steps(n) && old(self)@.stops_after(n),
            final(self)@.stops(),
            final(self).wf(),
            final(self)@.follows(old(self)@),
    {
        let ghost enough = choose|n: nat| #[trigger] old(self)@.steps(n).stops();
        let ghost mut n: nat = 0;
        while self.calls.is_empty() && !self.is_quiescent()
            invariant
                self.wf(),
                self@.follows(old(self)@),
                self@ == old(self)@.steps(n),
                old(self)@.goes_on(n),
                n <= enough,
                old(self)@.steps(enough).stops(),
            decreases enough - n,
        {
            proof {
                if n == enough {
                    assert(false);
                }
                n = n + 1;
            }
            let reduced = self.reduce_one();
        }
    }

    /// Reduces all "fast" active pairs, and returns the number of interactions.
    pub fn do_fast(&mut self) -> (interactions: u128)
        requires
            old(self).wf(),
        ensures
            final(self)@ == old(self)@.steps(interactions as nat),
            forall|i: nat|
                i < interactions ==> (#[trigger] old(self)@.steps(i)).fast.len() > 0,
            final(self)@.fast.len() == 0,
            final(self).wf(),
            final(self)@.follows(old(self)@),
    {
        let mut interactions: u128 = 0;
        proof {
            self@.lemma_weight_bound();
            assert(self.heap.cells.len() <= usize::MAX);
            assert(self.active_fast.len() <= usize::MAX);
            assert(self.active_slow.len() <= usize::MAX);
        }
        loop
            invariant
                self.wf(),
                self@.follows(old(self)@),
                self@ == old(self)@.steps(interactions as nat),
                forall|i: nat|
                    i < interactions ==> (#[trigger] old(self)@.steps(i)).fast.len() > 0,
                interactions + self@.weight() <= old(self)@.weight(),
                old(self)@.weight() <= u128::MAX,
            decreases self@.weight(),
        {
            let ghost before = self@;
            match self.active_fast.pop() {
                None => {
                    assert(self@ =~= before);
                    return interactions;
                },
                Some((a, b)) => {
                    assert(self@ =~= before.popped());
                    proof {
                        before.lemma_fast_step_weight();
                    }
                    self.interact(a, b);
                    interactions = interactions + 1;
                },
            }
        }
    }

    /// Normalizes all nets in breadth-first traversal. None of them calls a function of the
    /// host; for those that may, there is [`Runtime::normalize_breadth_first_until_call`].
    ///
    /// This is useful to get the depth (longest critical path) of the computation to
    /// understand the parallelism of the program.
    pub fn normalize_breadth_first<H: Hooks>(&mut self, hooks: H)
        requires
            old(self).wf(),
            old(self)@.normalizes_in_rounds(),
        ensures
            exists|n: nat, after: H| #[trigger]
                (Watched { hooks, net: old(self)@ }).ran_rounds(
                    n,
                    Watched { hooks: after, net: final(self)@ },
                ) && final(self)@.alike(old(self)@.rounds(n)),
            final(self)@.rests(),
            final(self).wf(),
            final(self)@.follows(old(self)@),
    {
        let ghost enough = choose|n: nat| #[trigger] old(self)@.rounds(n).rests();
        let ghost begin = Watched { hooks, net: old(self)@ };
        let mut watcher = hooks;
        let start = watcher.now();
        let ghost first = Watched { hooks: watcher, net: self@ };
        let ghost mut n: nat = 0;
        loop
            invariant
                self.wf(),
                self@.follows(old(self)@),
                begin == (Watched { hooks, net: old(self)@ }),
                H::started(begin.hooks, first.hooks, start),
                first.net == old(self)@,
                first.went_rounds(start, n, Watched { hooks: watcher, net: self@ }),
                self@.alike(old(self)@.rounds(n)),
                n <= enough,
                old(self)@.rounds(enough).rests(),
            decreases enough - n,
        {
            let ghost before = Watched { hooks: watcher, net: self@ };
            watcher.tick(&start, &mut self.stats);
            let ghost stats = self.stats;
            let ghost ticked = Watched { hooks: watcher, net: self@ };
            assert(ticked.net =~= before.net.with_stats(stats));
            let mut work: Vec<(Port, Port)> = Vec::new();
            core::mem::swap(&mut work, &mut self.active_fast);
            work.append(&mut self.active_slow);
            assert(work@ =~= ticked.net.fast + ticked.net.slow);
            if work.is_empty() {
                assert(self@ =~= ticked.net);
                watcher.end(&start, &mut self.stats);
                proof {
                    let after = Watched { hooks: watcher, net: self@ };
                    assert(after.net =~= ticked.net.with_stats(after.net.stats));
                    begin.lemma_ran_rounds(first, start, n, before, stats, ticked, after);
                    old(self)@.lemma_rounds_settled(n, enough);
                }
                return;
            }
            proof {
                if n == enough {
                    assert(false);
                }
            }
            assert(self@ =~= Net { fast: Seq::empty(), slow: Seq::empty(), ..ticked.net });
            self.sweep(work);
            self.stats.depth = self.stats.depth.wrapping_add(1);
            proof {
                assert(self@ =~= ticked.net.round());
                let after = Watched { hooks: watcher, net: self@ };
                assert(before.went_round(start, stats, after));
                ticked.net.lemma_round_alike(old(self)@.rounds(n));
                n = n + 1;
            }
        }
    }

    /// Normalizes all nets in breadth-first traversal until there is nothing left to do, or a
    /// function of the host is called. In the latter case the normalization is interrupted
    /// right after that call's interaction, in the middle of its round: once the host has
    /// taken the call and linked its outputs, the round can be gone on with. Without an open
    /// round, a new normalization begins.
    pub fn normalize_breadth_first_until_call<H: Hooks>(
        &mut self,
        open: Option<OpenRound<H::Instant>>,
        hooks: &mut H,
    ) -> (still_open: Option<OpenRound<H::Instant>>)
        requires
            old(self).wf(),
            OpenRound::work(open) matches Some(work) ==> old(self)@.has_pairs(work),
            (Traversal { net: old(self)@, work: OpenRound::work(open) }).pauses(),
        ensures
            exists|n: nat|
                {
                    &&& #[trigger] (WatchedTraversal {
                        hooks: *old(hooks),
                        traversal: Traversal { net: old(self)@, work: OpenRound::work(open) },
                    }).went_on(
                        OpenRound::reading(open),
                        n,
                        OpenRound::reading(still_open),
                        WatchedTraversal {
                            hooks: *final(hooks),
                            traversal: Traversal {
                                net: final(self)@,
                                work: OpenRound::work(still_open),
                            },
                        },
                    )
                    &&& (Traversal {
                        net: old(self)@,
                        work: OpenRound::work(open),
                    }).stops_after(n)
                },
            still_open is Some <==> final(self)@.waits(),
            still_open is None ==> final(self)@.quiescent(),
            OpenRound::work(still_open) matches Some(work) ==> final(self)@.has_pairs(work),
            final(self).wf(),
            final(self)@.follows(old(self)@),
    {
        let ghost origin = Traversal { net: old(self)@, work: OpenRound::work(open) };
        let ghost begin = WatchedTraversal { hooks: *old(hooks), traversal: origin };
        let ghost from = OpenRound::reading(open);
        let ghost enough = choose|n: nat| #[trigger] origin.moves(n).stops();
        let (start, rest) = match open {
            Some(round) => (round.start, round.rest),
            None => (hooks.now(), None),
        };
        let mut rest: Option<Vec<(Port, Port)>> = rest;
        let ghost first = WatchedTraversal { hooks: *hooks, traversal: origin };
        let ghost mut n: nat = 0;
        proof {
            first.lemma_underway(start);
        }
        loop
            invariant
                self.wf(),
                self@.follows(old(self)@),
                origin == (Traversal { net: old(self)@, work: OpenRound::work(open) }),
                from == OpenRound::reading(open),
                begin == (WatchedTraversal { hooks: *old(hooks), traversal: origin }),
                first.traversal == origin,
                Watched::<H>::opened(begin.hooks, from, first.hooks, start),
                OpenRound::<H::Instant>::reversed(rest) matches Some(work) ==> self@.has_pairs(
                    work,
                ),
                first.underway(
                    start,
                    n,
                    WatchedTraversal {
                        hooks: *hooks,
                        traversal: Traversal {
                            net: self@,
                            work: OpenRound::<H::Instant>::reversed(rest),
                        },
                    },
                ),
                n <= enough,
                origin.moves(enough).stops(),
            decreases enough - n,
        {
            let ghost before = WatchedTraversal {
                hooks: *hooks,
                traversal: Traversal {
                    net: self@,
                    work: OpenRound::<H::Instant>::reversed(rest),
                },
            };
            if !self.calls.is_empty() {
                let round = OpenRound { start, rest };
                proof {
                    begin.lemma_interrupted(from, first, start, n, before);
                }
                return Some(round);
            }
            match rest.take() {
                None => {
                    hooks.tick(&start, &mut self.stats);
                    let ghost stats = self.stats;
                    let ghost ticked = Watched { hooks: *hooks, net: self@ };
                    assert(ticked.net =~= before.traversal.net.with_stats(stats));
                    if self.is_quiescent() {
                        hooks.end(&start, &mut self.stats);
                        proof {
                            let after = Watched { hooks: *hooks, net: self@ };
                            assert(after.net =~= ticked.net.with_stats(after.net.stats));
                            before.lemma_closed(start, stats, ticked, after);
                            begin.lemma_over(
                                from,
                                first,
                                start,
                                n,
                                before,
                                WatchedTraversal {
                                    hooks: *hooks,
                                    traversal: Traversal { net: self@, work: None },
                                },
                            );
                        }
                        return None;
                    }
                    rest = Some(self.begin_round());
                    proof {
                        first.lemma_underway_stops(start, n, before, enough);
                        let after = WatchedTraversal {
                            hooks: *hooks,
                            traversal: Traversal {
                                net: self@,
                                work: OpenRound::<H::Instant>::reversed(rest),
                            },
                        };
                        first.lemma_underway_on(start, n, before, stats, after);
                        n = n + 1;
                    }
                },
                Some(work) => {
                    rest = self.play_round(work);
                    proof {
                        first.lemma_underway_stops(start, n, before, enough);
                        let after = WatchedTraversal {
                            hooks: *hooks,
                            traversal: Traversal {
                                net: self@,
                                work: OpenRound::<H::Instant>::reversed(rest),
                            },
                        };
                        first.lemma_underway_on(
                            start,
                            n,
                            before,
                            before.traversal.net.stats,
                            after,
                        );
                        n = n + 1;
                    }
                },
            }
        }
    }

    /// Begins a round: takes all active pairs, and returns them with the next one last.
    fn begin_round(&mut self) -> (rest: Vec<(Port, Port)>)
        requires
            old(self).wf(),
        ensures
            final(self)@ == (Net { fast: Seq::empty(), slow: Seq::empty(), ..old(self)@ }),
            rest@.reverse() == old(self)@.fast + old(self)@.slow,
            final(self)@.has_pairs(rest@.reverse()),
            final(self).wf(),
            final(self)@.follows(old(self)@),
    {
        let mut work: Vec<(Port, Port)> = Vec::new();
        core::mem::swap(&mut work, &mut self.active_fast);
        work.append(&mut self.active_slow);
        let ghost pairs = old(self)@.fast + old(self)@.slow;
        assert(work@ =~= pairs);
        assert(self@ =~= Net { fast: Seq::empty(), slow: Seq::empty(), ..old(self)@ });
        let rest = Runtime::reverse(work);
        assert(rest@.reverse() =~= pairs);
        proof {
            assert forall|i: int| 0 <= i < pairs.len() implies self@.has_pair(
                (#[trigger] pairs[i]).0,
                pairs[i].1,
            ) by {
                if i < old(self)@.fast.len() {
                    assert(pairs[i] == old(self)@.fast[i]);
                } else {
                    assert(pairs[i] == old(self)@.slow[i - old(self)@.fast.len()]);
                }
            }
        }
        rest
    }

    /// Goes on with a round: lets the next active pair interact, or ends the round if there
    /// is none.
    fn play_round(&mut self, work: Vec<(Port, Port)>) -> (rest: Option<Vec<(Port, Port)>>)
        requires
            old(self).wf(),
            old(self)@.has_pairs(work@.reverse()),
        ensures
            (Traversal { net: final(self)@, work: OpenRound::<()>::reversed(rest) }) == (
            Traversal { net: old(self)@, work: Some(work@.reverse()) }).moved(),
            rest matches Some(rest) ==> final(self)@.has_pairs(rest@.reverse()),
            final(self).wf(),
            final(self)@.follows(old(self)@),
    {
        let ghost pairs = work@.reverse();
        let mut rest = work;
        match rest.pop() {
            None => {
                self.stats.depth = self.stats.depth.wrapping_add(1);
                assert(self@ =~= old(self)@.with_stats(old(self)@.stats.deepened()));
                None
            },
            Some((a, b)) => {
                proof {
                    assert(pairs[0] == (a, b));
                    assert(old(self)@.has_pair(pairs[0].0, pairs[0].1));
                    assert(rest@.reverse() =~= pairs.drop_first());
                }
                self.interact(a, b);
                proof {
                    let left = rest@.reverse();
                    assert forall|i: int| 0 <= i < left.len() implies self@.has_pair(
                        (#[trigger] left[i]).0,
                        left[i].1,
                    ) by {
                        assert(left[i] == pairs[i + 1]);
                        assert(old(self)@.has_pair(pairs[i + 1].0, pairs[i + 1].1));
                    }
                }
                Some(rest)
            },
        }
    }

    /// The active pairs in the opposite order.
    fn reverse(work: Vec<(Port, Port)>) -> (reversed: Vec<(Port, Port)>)
        ensures
            reversed@ == work@.reverse(),
    {
        let mut rest = work;
        let mut reversed: Vec<(Port, Port)> = Vec::new();
        loop
            invariant
                rest@.len() + reversed@.len() == work@.len(),
                rest@ =~= work@.take(rest@.len() as int),
                reversed@ =~= work@.skip(rest@.len() as int).reverse(),
            decreases rest@.len(),
        {
            match rest.pop() {
                None => {
                    assert(work@.skip(0) =~= work@);
                    return reversed;
                },
                Some(pair) => {
                    reversed.push(pair);
                },
            }
        }
    }

    /// Lets the active pairs in `work` interact in turn.
    fn sweep(&mut self, work: Vec<(Port, Port)>)
        requires
            old(self).wf(),
            old(self)@.has_pairs(work@),
        ensures
            final(self)@ == old(self)@.swept(work@),
            final(self).wf(),
            final(self)@.follows(old(self)@),
    {
        let ghost pairs = work@;
        for pair in iter: work
            invariant
                iter.seq() == pairs,
                self.wf(),
                self@.follows(old(self)@),
                old(self)@.has_pairs(pairs),
                self@ == old(self)@.swept(pairs.take(iter.index() as int)),
        {
            proof {
                let done = iter.index() as int;
                assert(pairs.take(done + 1).drop_last() =~= pairs.take(done));
            }
            let (a, b) = pair;
            self.interact(a, b);
        }
        assert(pairs.take(pairs.len() as int) =~= pairs);
    }

    /// Reduces up to `budget` queued active pairs, none of which calls a function of the host.
    /// For those that may, there is [`Runtime::normalize_for_until_call`].
    ///
    /// Any remaining active pairs stay in the runtime and may be resumed by a
    /// subsequent call.
    pub fn normalize_for<H: Hooks>(&mut self, budget: u64, hooks: H) -> (reason: YieldReason)
        requires
            old(self).wf(),
            !old(self)@.steps(budget as nat).waits(),
        ensures
            exists|n: nat, after: H|
                {
                    &&& #[trigger] (Watched { hooks, net: old(self)@ }).ran_by(
                        n,
                        Watched { hooks: after, net: final(self)@ },
                    )
                    &&& n <= budget
                    &&& n < budget ==> final(self)@.quiescent()
                },
            final(self)@.alike(old(self)@.steps(budget as nat)),
            reason == (if final(self)@.quiescent() {
                YieldReason::Quiescent
            } else {
                YieldReason::BudgetExhausted
            }),
            final(self).wf(),
            final(self)@.follows(old(self)@),
    {
        let mut hooks = hooks;
        let ghost begin = Watched { hooks, net: old(self)@ };
        let result = self.normalize_for_until_call(budget, None, &mut hooks);
        let ghost after = Watched { hooks, net: self@ };
        proof {
            let n = begin.lemma_uninterrupted_for(budget, result, after);
        }
        match result {
            Ok(reason) => reason,
            Err((start, rest)) => YieldReason::BudgetExhausted,
        }
    }

    /// Reduces up to `budget` queued active pairs, until a function of the host is called. In
    /// that case the normalization is interrupted right after that call's interaction, and
    /// the clock reading that it began with is returned, together with what is left of the
    /// budget: once the host has taken the call and linked its outputs, the normalization can
    /// be gone on with under this reading. Without one, a new normalization begins.
    pub fn normalize_for_until_call<H: Hooks>(
        &mut self,
        budget: u64,
        open: Option<H::Instant>,
        hooks: &mut H,
    ) -> (result: Result<YieldReason, (H::Instant, u64)>)
        requires
            old(self).wf(),
        ensures
            (Watched { hooks: *old(hooks), net: old(self)@ }).went_on_for(
                open,
                budget,
                result,
                Watched { hooks: *final(hooks), net: final(self)@ },
            ),
            result is Err <==> final(self)@.waits(),
            result matches Ok(reason) ==> reason == (if final(self)@.quiescent() {
                YieldReason::Quiescent
            } else {
                YieldReason::BudgetExhausted
            }),
            final(self).wf(),
            final(self)@.follows(old(self)@),
    {
        let ghost begin = Watched { hooks: *old(hooks), net: old(self)@ };
        let ghost from = open;
        let start = match open {
            Some(start) => start,
            None => hooks.now(),
        };
        let ghost first = Watched { hooks: *hooks, net: self@ };
        let ghost mut n: nat = 0;
        let mut remaining = budget;
        proof {
            first.lemma_underway(start);
        }
        while remaining > 0 && self.calls.is_empty() && !self.is_quiescent()
            invariant
                self.wf(),
                self@.follows(old(self)@),
                first.net == old(self)@,
                first.underway(start, n, Watched { hooks: *hooks, net: self@ }),
                n + remaining == budget,
            decreases remaining,
        {
            let ghost before = Watched { hooks: *hooks, net: self@ };
            hooks.tick(&start, &mut self.stats);
            let ghost stats = self.stats;
            assert(self@ =~= before.net.with_stats(stats));
            let reduced = self.reduce_one();
            remaining -= 1;
            proof {
                let after = Watched { hooks: *hooks, net: self@ };
                first.lemma_underway_on(start, n, before, stats, after);
                n = n + 1;
            }
        }
        let ghost last = Watched { hooks: *hooks, net: self@ };
        if !self.calls.is_empty() {
            let ghost result = Err((start, remaining));
            proof {
                begin.lemma_interrupted(from, first, start, n, last);
                begin.lemma_went_on_for(from, budget, n, result, last);
            }
            return Err((start, remaining));
        }
        let reason = if self.is_quiescent() {
            YieldReason::Quiescent
        } else {
            YieldReason::BudgetExhausted
        };
        hooks.end(&start, &mut self.stats);
        proof {
            let after = Watched { hooks: *hooks, net: self@ };
            assert(after.net =~= last.net.with_stats(after.net.stats));
            begin.lemma_over(from, first, start, n, last, after);
            begin.lemma_went_on_for(from, budget, n, Ok(reason), after);
        }
        Ok(reason)
    }

    /// Reduces one queued active pair.
    ///
    /// Fast active pairs retain priority over slow active pairs. Returns `false` if
    /// the runtime is quiescent.
    pub fn reduce_one(&mut self) -> (reduced: bool)
        requires
            old(self).wf(),
        ensures
            reduced == !old(self)@.quiescent(),
            final(self)@ == old(self)@.step(),
            final(self).wf(),
            final(self)@.follows(old(self)@),
    {
        let pair = match self.active_fast.pop() {
            Some(pair) => Some(pair),
            None => self.active_slow.pop(),
        };
        let (a, b) = match pair {
            Some(pair) => pair,
            None => {
                assert(self@ =~= old(self)@);
                return false;
            },
        };
        assert(self@ =~= old(self)@.popped());
        assert(old(self)@.next_pair() == (a, b));
        self.interact(a, b);
        true
    }

    /// Whether no active pairs remain.
    pub fn is_quiescent(&self) -> (quiescent: bool)
        ensures
            quiescent == self@.quiescent(),
    {
        self.active_fast.is_empty() && self.active_slow.is_empty()
    }
}

} // verus!
