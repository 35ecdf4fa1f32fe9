//! What holds of the machine as a whole.
use vstd::prelude::*;

use crate::host::dynamic::{DynamicProgramMailbox, DynamicProgramRequest};
use crate::host::loader::DynamicProgramLoader;
use crate::host::module::ProgramHandle;
use crate::host::names::Table;
use crate::host::runner::{RunOutcome, RunnerView};
use crate::host::HostView;
use crate::program::{FlatNet, Program};
use crate::runtime::depth::{Levelled, LevelledTraversal};
use crate::runtime::ext::{ExtTy, ExtVal, Payload};
use crate::runtime::flags::Flags;
use crate::runtime::graft::GraftId;
use crate::runtime::hooks::{Hooks, Watched};
use crate::runtime::net::{Net, Queues};
use crate::runtime::port::{Node, NodeKind, Port};
use crate::runtime::stats::Stats;
use crate::runtime::traversal::{Traversal, Turn, WatchedTraversal};

pub mod programs;
pub mod reduction;
pub mod running;

verus! {

// ---- normalizing ----

/// Reductions add up.
pub proof fn reductions_add_up(net: Net, first: nat, second: nat)
    ensures
        net.steps(first).steps(second) == net.steps(first + second),
    decreases second,
{
    if second > 0 {
        let rest = (second - 1) as nat;
        reductions_add_up(net, first, rest);
        assert((first + second - 1) as nat == first + rest);
        assert(net.steps(first + second) == net.steps(first + rest).step());
        assert(net.steps(first).steps(second) == net.steps(first).steps(rest).step());
    }
}

/// The time that was measured changes neither how a net is reduced nor what is counted.
pub proof fn time_does_not_matter(net: Net, other: Net, n: nat)
    requires
        net.same_but_time(other),
    ensures
        net.steps(n).same_but_time(other.steps(n)),
        net.rounds(n).same_but_time(other.rounds(n)),
{
    net.lemma_steps_alike(other, n);
    net.lemma_rounds_alike(other, n);
}

/// A normalization that was stopped can be resumed: two budgets spent one after the
/// other do what their sum does at once, and count what it counts.
pub proof fn budgets_add_up(before: Net, between: Net, after: Net, first: nat, second: nat)
    requires
        between.alike(before.steps(first)),
        after.alike(between.steps(second)),
    ensures
        after.alike(before.steps(first + second)),
        between.counts_like(before.steps(first)) && after.counts_like(between.steps(second))
            ==> after.counts_like(before.steps(first + second)),
{
    between.lemma_steps_alike(before.steps(first), second);
    reductions_add_up(before, first, second);
}

/// A quiescent net stays as it is, whichever way it is reduced.
pub proof fn quiescence_lasts(net: Net, n: nat)
    requires
        net.quiescent(),
    ensures
        net.steps(n) == net,
        net.rounds(n) == net,
    decreases n,
{
    if n > 0 {
        quiescence_lasts(net, (n - 1) as nat);
    }
}

/// A net has one normal form: however long it is reduced after it has become quiescent,
/// it is the same.
pub proof fn normal_forms_are_unique(net: Net, m: nat, n: nat)
    requires
        net.steps(m).quiescent(),
        net.steps(n).quiescent(),
    ensures
        net.steps(m) == net.steps(n),
{
    if m <= n {
        net.lemma_steps_settled(m, n);
    } else {
        net.lemma_steps_settled(n, m);
    }
}

/// There is one point at which a normalization stops: the first one at which a call waits
/// for the host, or no active pair is left.
pub proof fn stops_are_unique(net: Net, m: nat, n: nat)
    requires
        net.stops_after(m),
        net.stops_after(n),
    ensures
        m == n,
{
    if m < n {
        net.lemma_goes_on(m, n);
    } else if n < m {
        net.lemma_goes_on(n, m);
    }
}

/// There is one point at which a breadth-first normalization stops: the first one at which a
/// call waits for the host, or there is no active pair for another round.
pub proof fn stops_of_traversals_are_unique(traversal: Traversal, m: nat, n: nat)
    requires
        traversal.stops_after(m),
        traversal.stops_after(n),
    ensures
        m == n,
{
    if m < n {
        traversal.lemma_goes_on(m, n);
    } else if n < m {
        traversal.lemma_goes_on(n, m);
    }
}

/// A breadth-first normalization that no call interrupts goes round as a whole: one move
/// begins the round, one goes to each of its active pairs, and one ends it.
pub proof fn moves_make_rounds(net: Net)
    requires
        !net.quiescent(),
    ensures
        (Traversal { net, work: None }).moves((net.fast.len() + net.slow.len() + 2) as nat) == (
        Traversal { net: net.round(), work: None }),
{
    let first = Traversal { net, work: None };
    let pairs = net.fast + net.slow;
    let begun = first.moved();
    assert(first.moves(1) == begun) by {
        reveal_with_fuel(Traversal::moves, 2);
    }
    begun.lemma_moves_sweep(pairs, pairs.len());
    assert(pairs.take(pairs.len() as int) =~= pairs);
    first.lemma_moves_add(1, pairs.len());
    assert(first.moves((pairs.len() + 2) as nat) == first.moves(1 + pairs.len()).moved());
}

/// Spending a budget first does not keep a net from being normalized, and changes neither
/// its normal form nor what is counted on the way to it.
pub proof fn a_budget_keeps_the_normal_form(before: Net, between: Net, budget: nat, n: nat)
    requires
        between.alike(before.steps(budget)),
        before.steps(n).quiescent(),
    ensures
        between.steps(n).quiescent(),
        before.steps(n).rests() ==> between.normalizes(),
        between.steps(n).alike(before.steps(n)),
        between.counts_like(before.steps(budget)) ==> between.steps(n).counts_like(
            before.steps(n),
        ),
{
    budgets_add_up(before, between, between.steps(n), budget, n);
    before.lemma_steps_settled(n, budget + n);
    assert(before.steps(n).rests() ==> between.steps(n).rests());
}

/// Whatever hooks do, a net that they watch is reduced as if they were not there.
pub proof fn hooks_cannot_change_the_net<H: Hooks>(before: Watched<H>, n: nat, after: Watched<H>)
    requires
        before.ran_by(n, after),
    ensures
        after.net.alike(before.net.steps(n)),
{
    let (first, start, last) = choose|first: H, start: H::Instant, last: Watched<H>|
        {
            &&& #[trigger] H::started(before.hooks, first, start)
            &&& (Watched { hooks: first, net: before.net }).stepped_by(start, n, last)
            &&& #[trigger] last.closed(start, after)
        };
    (Watched { hooks: first, net: before.net }).lemma_stepped_by_alike(start, n, last);
}

/// Whatever hooks do, a net that they watch goes round as if they were not there.
pub proof fn hooks_cannot_change_the_rounds<H: Hooks>(
    before: Watched<H>,
    n: nat,
    after: Watched<H>,
)
    requires
        before.ran_rounds(n, after),
    ensures
        after.net.alike(before.net.rounds(n)),
{
    let (first, start, last) = before.lemma_rounds_run(n, after);
    (Watched { hooks: first, net: before.net }).lemma_went_rounds_alike(start, n, last);
}

/// Whatever hooks do, a normalization that is interrupted, or gone on with, reduces as if
/// they were not there, be it depth-first or breadth-first.
pub proof fn hooks_cannot_change_interrupted_nets<H: Hooks>(
    before: Watched<H>,
    from: Option<H::Instant>,
    n: nat,
    to: Option<H::Instant>,
    after: Watched<H>,
)
    requires
        before.went_on(from, n, to, after),
    ensures
        after.net.alike(before.net.steps(n)),
        Watched::<H>::only_times() ==> after.net.counts_like(before.net.steps(n)),
{
    before.lemma_went_on_alike(from, n, to, after);
}

/// Whatever hooks do, a breadth-first normalization that is interrupted, or gone on with,
/// moves as if they were not there.
pub proof fn hooks_cannot_change_interrupted_rounds<H: Hooks>(
    before: WatchedTraversal<H>,
    from: Option<H::Instant>,
    n: nat,
    to: Option<H::Instant>,
    after: WatchedTraversal<H>,
)
    requires
        before.went_on(from, n, to, after),
    ensures
        after.traversal.alike(before.traversal.moves(n)),
        Watched::<H>::only_times() ==> after.traversal.net.counts_like(
            before.traversal.moves(n).net,
        ),
{
    before.lemma_went_on_alike(from, n, to, after);
}

/// The clock writes nothing of the statistics but the time.
pub proof fn the_clock_only_times()
    ensures
        Watched::<()>::only_times(),
        Watched::<()>::keeps_depth(),
{
}

/// Under hooks that write nothing of the statistics but the time, the statistics count
/// exactly the reductions.
pub proof fn timing_hooks_keep_the_counts<H: Hooks>(before: Watched<H>, n: nat, after: Watched<H>)
    requires
        Watched::<H>::only_times(),
        before.ran_by(n, after),
    ensures
        after.net.same_but_time(before.net.steps(n)),
{
    let (first, start, last) = choose|first: H, start: H::Instant, last: Watched<H>|
        {
            &&& #[trigger] H::started(before.hooks, first, start)
            &&& (Watched { hooks: first, net: before.net }).stepped_by(start, n, last)
            &&& #[trigger] last.closed(start, after)
        };
    (Watched { hooks: first, net: before.net }).lemma_stepped_by_alike(start, n, last);
}

/// Under hooks that write nothing of the statistics but the time, the statistics count
/// exactly what the rounds do.
pub proof fn timing_hooks_keep_the_counts_of_rounds<H: Hooks>(
    before: Watched<H>,
    n: nat,
    after: Watched<H>,
)
    requires
        Watched::<H>::only_times(),
        before.ran_rounds(n, after),
    ensures
        after.net.same_but_time(before.net.rounds(n)),
{
    let (first, start, last) = before.lemma_rounds_run(n, after);
    (Watched { hooks: first, net: before.net }).lemma_went_rounds_alike(start, n, last);
}

/// A budget of zero leaves pending work alone.
pub proof fn a_zero_budget_reduces_nothing<H: Hooks>(before: Watched<H>, after: Watched<H>)
    requires
        before.ran_by(0, after),
    ensures
        after.net.alike(before.net),
{
    hooks_cannot_change_the_net(before, 0, after);
}

/// Without hooks of the caller's own, the statistics count exactly the reductions, and
/// the time that they took.
pub proof fn statistics_count_reductions(before: Watched<()>, n: nat, after: Watched<()>)
    requires
        before.ran_by(n, after),
    ensures
        exists|nanos: u128| #[trigger]
            before.net.steps(n).stats.timed(nanos) == after.net.stats && after.net.alike(
                before.net.steps(n),
            ),
{
    hooks_cannot_change_the_net(before, n, after);
    let (first, start, last) = choose|
        first: (),
        start: <() as Hooks>::Instant,
        last: Watched<()>,
    |
        {
            &&& #[trigger] <() as Hooks>::started(before.hooks, first, start)
            &&& (Watched { hooks: first, net: before.net }).stepped_by(start, n, last)
            &&& #[trigger] last.closed(start, after)
        };
    unwatched_steps(Watched { hooks: first, net: before.net }, start, n, last);
    let nanos = choose|nanos: u128| after.net.stats == #[trigger] last.net.stats.timed(nanos);
    assert(before.net.steps(n).stats.timed(nanos) == after.net.stats);
}

proof fn unwatched_steps(
    before: Watched<()>,
    start: <() as Hooks>::Instant,
    n: nat,
    after: Watched<()>,
)
    requires
        before.stepped_by(start, n, after),
    ensures
        after.net == before.net.steps(n),
    decreases n,
{
    if n > 0 {
        let (mid, stats) = choose|mid: Watched<()>, stats: Stats| #[trigger]
            mid.stepped(start, stats, after) && before.stepped_by(start, (n - 1) as nat, mid);
        unwatched_steps(before, start, (n - 1) as nat, mid);
        assert(mid.net.with_stats(stats) =~= mid.net);
    }
}

/// Under hooks that do not write the depth, the depth that a breadth-first normalization
/// measures is the number of its rounds.
pub proof fn depth_counts_rounds<H: Hooks>(before: Watched<H>, n: nat, after: Watched<H>)
    requires
        Watched::<H>::keeps_depth(),
        before.ran_rounds(n, after),
    ensures
        after.net.stats.depth == (before.net.stats.depth + n) % 0x1_0000_0000_0000_0000,
{
    let (first, start, last) = before.lemma_rounds_run(n, after);
    rounds_are_counted(Watched { hooks: first, net: before.net }, start, n, last);
}

/// Under hooks that do not write the depth, the depth grows by the length of the longest
/// critical path: by the greatest level of a pair that interacts, where a pair that waits at
/// the start has level one, and any other is one level above the pair whose interaction
/// queued it.
pub proof fn depth_is_the_longest_critical_path<H: Hooks>(
    before: Watched<H>,
    n: nat,
    after: Watched<H>,
)
    requires
        Watched::<H>::keeps_depth(),
        before.ran_rounds(n, after),
    ensures
        after.net.alike(Levelled::start(before.net).rounds(n).net),
        after.net.stats.depth == (before.net.stats.depth + Levelled::start(before.net).rounds(
            n,
        ).deepest) % 0x1_0000_0000_0000_0000,
{
    let (first, start, last) = before.lemma_rounds_run(n, after);
    let begin = Watched { hooks: first, net: before.net };
    rounds_go_on(begin, start, n, last);
    Levelled::lemma_rounds(before.net, n);
    depth_counts_rounds(before, n, after);
    hooks_cannot_change_the_rounds(before, n, after);
}

/// The depth grows by the length of the longest critical path also where calls interrupt the
/// rounds, and the host queues active pairs by its answers: those are one level above the
/// pair whose interaction made the call.
pub proof fn answers_keep_the_critical_path(net: Net, turns: Seq<Turn>)
    requires
        !net.waits(),
    ensures
        LevelledTraversal::start(net).turns(turns).traversal == (Traversal {
            net,
            work: None,
        }).turns(turns),
        (Traversal { net, work: None }).turns(turns).work is None ==> (Traversal {
            net,
            work: None,
        }).turns(turns).net.stats.depth == (net.stats.depth + LevelledTraversal::start(net).turns(
            turns,
        ).deepest) % 0x1_0000_0000_0000_0000,
{
    let rounds = LevelledTraversal::lemma_turns(net, turns);
}

/// As long as a breadth-first normalization does not stop, its turns are its moves.
pub proof fn moves_are_turns(traversal: Traversal, n: nat)
    requires
        traversal.goes_on(n),
    ensures
        traversal.turns(Seq::new(n, |i: int| Turn::Move)) == traversal.moves(n),
    decreases n,
{
    if n > 0 {
        moves_are_turns(traversal, (n - 1) as nat);
        assert(Seq::new(n, |i: int| Turn::Move).drop_last() =~= Seq::new(
            (n - 1) as nat,
            |i: int| Turn::Move,
        ));
    }
}

proof fn rounds_go_on<H: Hooks>(before: Watched<H>, start: H::Instant, n: nat, after: Watched<H>)
    requires
        before.went_rounds(start, n, after),
    ensures
        before.net.goes_on_in_rounds(n),
    decreases n,
{
    if n > 0 {
        let (mid, stats) = choose|mid: Watched<H>, stats: Stats| #[trigger]
            mid.went_round(start, stats, after) && before.went_rounds(start, (n - 1) as nat, mid);
        rounds_go_on(before, start, (n - 1) as nat, mid);
        before.lemma_went_rounds_alike(start, (n - 1) as nat, mid);
    }
}

proof fn rounds_are_counted<H: Hooks>(
    before: Watched<H>,
    start: H::Instant,
    n: nat,
    after: Watched<H>,
)
    requires
        Watched::<H>::keeps_depth(),
        before.went_rounds(start, n, after),
    ensures
        after.net.stats.depth == (before.net.stats.depth + n) % 0x1_0000_0000_0000_0000,
    decreases n,
{
    if n > 0 {
        let (mid, stats) = choose|mid: Watched<H>, stats: Stats| #[trigger]
            mid.went_round(start, stats, after) && before.went_rounds(start, (n - 1) as nat, mid);
        rounds_are_counted(before, start, (n - 1) as nat, mid);
        a_round_counts_once(mid.net.with_stats(stats));
        counted_once_more(before.net.stats.depth as int, n);
    }
}

proof fn counted_once_more(depth: int, n: nat)
    requires
        n > 0,
    ensures
        ((depth + (n - 1)) % 0x1_0000_0000_0000_0000 + 1) % 0x1_0000_0000_0000_0000 == (depth + n)
            % 0x1_0000_0000_0000_0000,
{
}

proof fn a_round_counts_once(net: Net)
    requires
        !net.quiescent(),
    ensures
        net.round().stats.depth == (net.stats.depth + 1) % 0x1_0000_0000_0000_0000,
{
    Net { fast: Seq::empty(), slow: Seq::empty(), ..net }.lemma_swept_keeps(net.fast + net.slow);
}

// ---- reducing ----

/// A reduction takes one active pair out of its queue. All other active pairs stay where
/// they are, and so do requests and calls; what arises comes after them.
pub proof fn a_reduction_takes_one_pair(net: Net)
    requires
        !net.quiescent(),
    ensures
        net.step().keeps(net.popped()),
        net.popped().fast.len() + net.popped().slow.len() + 1 == net.fast.len() + net.slow.len(),
{
    net.popped().lemma_interacted_keeps(net.next_pair().0, net.next_pair().1);
}

/// As long as there are fast active pairs, no slow one is reduced, and no memory is
/// allocated.
pub proof fn fast_pairs_come_first(net: Net)
    requires
        net.wf(),
        net.fast.len() > 0,
    ensures
        crate::runtime::frame::begins(net.step().slow, net.slow),
        net.step().cells.len() == net.cells.len(),
        net.step().stats.mem_alloc == net.stats.mem_alloc,
{
    let (a, b) = net.next_pair();
    assert(net.fast[net.fast.len() - 1] == (a, b));
    net.popped().lemma_interacted_keeps(a, b);
    net.popped().lemma_fast_allocates_nothing(a, b);
}

/// However a net is reduced, the counters of allocated and freed wires stay in step with
/// the cells that are in use.
pub proof fn wires_are_counted(net: Net, n: nat)
    ensures
        net.steps(n).drift() == net.drift(),
        net.rounds(n).drift() == net.drift(),
    decreases n,
{
    if n > 0 {
        wires_are_counted(net, (n - 1) as nat);
        let stepped = net.steps((n - 1) as nat);
        if !stepped.quiescent() {
            stepped.popped().lemma_interacted_keeps(stepped.next_pair().0, stepped.next_pair().1);
        }
        let swept = net.rounds((n - 1) as nat);
        Net { fast: Seq::empty(), slow: Seq::empty(), ..swept }.lemma_swept_keeps(
            swept.fast + swept.slow,
        );
    }
}

/// However long a net is reduced, it stays well-formed, as long as its cells can be
/// counted.
pub proof fn reductions_keep_nets_well_formed(net: Net, n: nat)
    requires
        net.wf(),
        net.steps(n).cells.len() <= usize::MAX,
    ensures
        net.steps(n).wf(),
    decreases n,
{
    if n > 0 {
        let earlier = net.steps((n - 1) as nat);
        if !earlier.quiescent() {
            a_reduction_takes_one_pair(earlier);
        }
        reductions_keep_nets_well_formed(net, (n - 1) as nat);
        earlier.lemma_step_wf();
    }
}

/// However many rounds a net goes, it stays well-formed, as long as its cells can be
/// counted.
pub proof fn rounds_keep_nets_well_formed(net: Net, n: nat)
    requires
        net.wf(),
        net.rounds(n).cells.len() <= usize::MAX,
    ensures
        net.rounds(n).wf(),
    decreases n,
{
    if n > 0 {
        let earlier = net.rounds((n - 1) as nat);
        Net { fast: Seq::empty(), slow: Seq::empty(), ..earlier }.lemma_swept_keeps(
            earlier.fast + earlier.slow,
        );
        rounds_keep_nets_well_formed(net, (n - 1) as nat);
        earlier.lemma_round_wf();
    }
}

// ---- requests ----

/// Clones of a mailbox share one queue: what is pushed into one of them waits in all of
/// them, behind what waits already, and what is drained from one is gone from all. Other
/// mailboxes are left alone.
pub proof fn clones_share_one_queue(
    mailbox: DynamicProgramMailbox,
    clone: DynamicProgramMailbox,
    other: DynamicProgramMailbox,
    queues: Queues,
    request: DynamicProgramRequest,
)
    requires
        clone == mailbox,
        other != mailbox,
        mailbox.index < queues.len(),
        other.index < queues.len(),
    ensures
        mailbox.pushed(queues, request)[clone.index as int] == queues[clone.index as int].push(
            request,
        ),
        mailbox.pushed(queues, request)[other.index as int] == queues[other.index as int],
        mailbox.drained(queues)[clone.index as int] == Seq::<DynamicProgramRequest>::empty(),
        mailbox.drained(queues)[other.index as int] == queues[other.index as int],
{
}

/// A net that calls a function of a mailbox leaves one request there, behind what waits
/// already, which carries the wire for the answer; nothing is parsed or looked up, and
/// nothing is linked to that wire. All other interactions leave the mailboxes alone.
pub proof fn interactions_leave_what_they_ask(net: Net, a: Port, b: Port)
    ensures
        net.interacted(a, b).requests == (match net.asked(a, b) {
            Some((mailbox, request)) => mailbox.pushed(net.requests, request),
            None => net.requests,
        }),
        forall|value: ExtVal, node: Node|
            a == Port::ExtVal(value) && b == Port::Node(node) ==> (
            #[trigger] net.asked_of(value, node) matches Some((mailbox, request)) ==> {
                &&& request.wire() == node.left
                &&& net.interacted(a, b) == net.with_stats(net.stats.called()).posted(
                    mailbox,
                    request,
                ).linked(Port::Wire(node.right), Port::Erase)
            }),
{
    net.lemma_interacted_keeps(a, b);
}

/// What can happen to a net that runs.
pub enum Event {
    /// It is reduced once.
    Reduced,
    /// A caller pushes a request into a mailbox.
    Pushed { mailbox: DynamicProgramMailbox, request: DynamicProgramRequest },
}

/// The net after `event`.
pub open spec fn after_event(net: Net, event: Event) -> Net {
    match event {
        Event::Reduced => net.step(),
        Event::Pushed { mailbox, request } => net.posted(mailbox, request),
    }
}

/// The net after `events`, in order.
pub open spec fn after_events(net: Net, events: Seq<Event>) -> Net
    decreases events.len(),
{
    if events.len() == 0 {
        net
    } else {
        after_event(after_events(net, events.drop_last()), events.last())
    }
}

/// The request that `event` leaves in `mailbox`, if it leaves one.
pub open spec fn left_by(net: Net, event: Event, mailbox: DynamicProgramMailbox) -> Seq<
    DynamicProgramRequest,
> {
    let left = match event {
        Event::Reduced => net.next_asked(),
        Event::Pushed { mailbox, request } => Some((mailbox, request)),
    };
    match left {
        Some((there, request)) => if there == mailbox {
            seq![request]
        } else {
            Seq::empty()
        },
        None => Seq::empty(),
    }
}

/// The requests that `events` leave in `mailbox`, in the order in which they leave them.
pub open spec fn left_by_all(net: Net, events: Seq<Event>, mailbox: DynamicProgramMailbox) -> Seq<
    DynamicProgramRequest,
>
    decreases events.len(),
{
    if events.len() == 0 {
        Seq::empty()
    } else {
        left_by_all(net, events.drop_last(), mailbox) + left_by(
            after_events(net, events.drop_last()),
            events.last(),
            mailbox,
        )
    }
}

/// Requests that a net leaves in a mailbox by its calls, and those that are pushed into it,
/// wait there together, in the order in which they were left.
pub proof fn requests_keep_their_order(
    net: Net,
    events: Seq<Event>,
    mailbox: DynamicProgramMailbox,
)
    requires
        mailbox.index < net.requests.len(),
    ensures
        after_events(net, events).requests.len() == net.requests.len(),
        after_events(net, events).requests[mailbox.index as int]
            == net.requests[mailbox.index as int] + left_by_all(net, events, mailbox),
    decreases events.len(),
{
    if events.len() == 0 {
        assert(net.requests[mailbox.index as int] + Seq::empty()
            =~= net.requests[mailbox.index as int]);
    } else {
        let rest = events.drop_last();
        requests_keep_their_order(net, rest, mailbox);
        let before = after_events(net, rest);
        let queue = before.requests[mailbox.index as int];
        let left = left_by(before, events.last(), mailbox);
        if events.last() is Reduced && !before.quiescent() {
            let (a, b) = before.next_pair();
            before.popped().lemma_interacted_keeps(a, b);
            assert(before.popped().asked(a, b) == before.asked(a, b));
        }
        assert(after_event(before, events.last()).requests[mailbox.index as int] =~= queue + left);
        assert(net.requests[mailbox.index as int] + left_by_all(net, events, mailbox) =~= queue
            + left);
    }
}

// ---- wires ----

/// A net without agents has no wires.
pub proof fn new_nets_have_no_wires(host: HostView)
    ensures
        Net::initial(host).affine(|cell: int| 0nat),
        Net::initial(host).drift() == 0,
{
    let none = |cell: int| 0nat;
    assert forall|cell: int| #[trigger] Net::initial(host).fits(cell, none(cell)) by {
        Net::lemma_queues_ends_none(Net::initial(host).requests, cell);
    }
}

/// A new node has four ends of wires: two are in its port, and two are handed out.
pub proof fn new_nodes_have_four_ends(
    net: Net,
    held: spec_fn(int) -> nat,
    kind: NodeKind,
    label: usize,
)
    requires
        net.affine(held),
        net.with_node().cells.len() <= usize::MAX,
    ensures
        net.with_node().affine(
            |cell: int| held(cell) + 2 * Port::Node(net.next_node(kind, label)).ends(cell),
        ),
        net.with_node().drift() == net.drift(),
{
    let more = |cell: int| held(cell) + 2 * Port::Node(net.next_node(kind, label)).ends(cell);
    assert forall|cell: int| #[trigger] net.with_node().fits(cell, more(cell)) by {
        assert(net.fits(cell, held(cell)));
        net.lemma_with_node_fits(kind, label, cell, held(cell));
    }
}

/// Linking two ports takes the ends that they hold into the net.
pub proof fn linking_takes_ends(net: Net, held: spec_fn(int) -> nat, a: Port, b: Port)
    requires
        net.affine(|cell: int| held(cell) + a.ends(cell) + b.ends(cell)),
    ensures
        net.linked(a, b).affine(held),
        net.linked(a, b).drift() == net.drift(),
{
    let more = |cell: int| held(cell) + a.ends(cell) + b.ends(cell);
    assert forall|cell: int| #[trigger] net.linked(a, b).fits(cell, held(cell)) by {
        assert(net.fits(cell, more(cell)));
        net.lemma_linked_fits(a, b, cell, held(cell));
    }
    net.lemma_linked_quiet(a, b);
}

/// When a run starts, all ends of wires are in its net, but for the one on which the `IO`
/// token is to come back.
pub proof fn runs_start_with_one_end(host: HostView, main: GraftId, io: ExtTy)
    ensures
        RunnerView::first_net(host, main, io).affine(
            |cell: int|
                Port::Wire(Net::initial(host).next_node(NodeKind::Comb, 0).right).ends(cell),
        ),
        RunnerView::first_net(host, main, io).drift() == 0,
{
    let net = Net::initial(host);
    let node = net.next_node(NodeKind::Comb, 0);
    let root = Port::Wire(node.right);
    let token = Port::ExtVal(ExtVal { ty_id: io.ty_id, payload: Payload::Io });
    let held = |cell: int| root.ends(cell);
    let linked = net.with_node().linked(Port::Wire(node.left), token);
    new_nets_have_no_wires(host);
    net.with_node().lemma_linked_quiet(Port::Wire(node.left), token);
    linked.lemma_linked_quiet(Port::Graft(main), Port::Node(node));
    assert forall|cell: int| #[trigger]
        RunnerView::first_net(host, main, io).fits(cell, held(cell)) by {
        let ends = Port::Node(node).ends(cell);
        Net::lemma_queues_ends_none(net.requests, cell);
        assert(net.fits(cell, 0));
        net.lemma_with_node_fits(NodeKind::Comb, 0, cell, 0);
        net.with_node().lemma_linked_fits(
            Port::Wire(node.left),
            token,
            cell,
            root.ends(cell) + ends,
        );
        linked.lemma_linked_fits(Port::Graft(main), Port::Node(node), cell, root.ends(cell));
    }
}

/// However long a net is reduced, no end of a wire is used twice.
pub proof fn reductions_use_ends_once(net: Net, held: spec_fn(int) -> nat, n: nat)
    requires
        net.wf(),
        net.affine(held),
        net.steps(n).cells.len() <= usize::MAX,
    ensures
        net.steps(n).affine(held),
    decreases n,
{
    if n > 0 {
        let earlier = net.steps((n - 1) as nat);
        if !earlier.quiescent() {
            a_reduction_takes_one_pair(earlier);
        }
        reductions_keep_nets_well_formed(net, (n - 1) as nat);
        reductions_use_ends_once(net, held, (n - 1) as nat);
        assert forall|cell: int| #[trigger] net.steps(n).fits(cell, held(cell)) by {
            assert(earlier.fits(cell, held(cell)));
            earlier.lemma_step_fits(cell, held(cell));
        }
    }
}

/// However many rounds a net goes, no end of a wire is used twice.
pub proof fn rounds_use_ends_once(net: Net, held: spec_fn(int) -> nat, n: nat)
    requires
        net.wf(),
        net.affine(held),
        net.rounds(n).cells.len() <= usize::MAX,
    ensures
        net.rounds(n).affine(held),
    decreases n,
{
    if n > 0 {
        let earlier = net.rounds((n - 1) as nat);
        Net { fast: Seq::empty(), slow: Seq::empty(), ..earlier }.lemma_swept_keeps(
            earlier.fast + earlier.slow,
        );
        rounds_keep_nets_well_formed(net, (n - 1) as nat);
        rounds_use_ends_once(net, held, (n - 1) as nat);
        assert forall|cell: int| #[trigger] net.rounds(n).fits(cell, held(cell)) by {
            assert(earlier.fits(cell, held(cell)));
            earlier.lemma_round_fits(cell, held(cell));
        }
    }
}

/// Where no end is used twice, a cell is freed once, holds nothing while it is free, and
/// nobody holds an end of its wire.
pub proof fn free_cells_are_unused(net: Net, held: spec_fn(int) -> nat)
    requires
        net.affine(held),
    ensures
        net.free.no_duplicates(),
        forall|i: int|
            0 <= i < net.free.len() ==> {
                &&& (#[trigger] net.free[i]) < net.cells.len()
                &&& net.cells[net.free[i] as int] is None
                &&& net.claims(net.free[i] as int) == 2
                &&& held(net.free[i] as int) == 0
            },
        net.in_use() >= 0,
{
    assert forall|i: int| 0 <= i < net.free.len() implies {
        &&& (#[trigger] net.free[i]) < net.cells.len()
        &&& net.cells[net.free[i] as int] is None
        &&& net.claims(net.free[i] as int) == 2
        &&& held(net.free[i] as int) == 0
    } by {
        assert(net.fits(net.free[i] as int, held(net.free[i] as int)));
        net.lemma_free_fits(i, held(net.free[i] as int));
    }
    assert forall|i: int, j: int|
        0 <= i < net.free.len() && 0 <= j < net.free.len() && i != j implies net.free[i]
        != net.free[j] by {
        assert(net.fits(net.free[i] as int, held(net.free[i] as int)));
        net.lemma_free_fits(i, held(net.free[i] as int));
    }
    let free = Seq::new(net.free.len(), |i: int| net.free[i] as int);
    assert(free.no_duplicates());
    free.unique_seq_to_set();
    let cells = vstd::set_lib::set_int_range(0, net.cells.len() as int);
    vstd::set_lib::lemma_int_range(0, net.cells.len() as int);
    assert(free.to_set().subset_of(cells));
    vstd::set_lib::lemma_len_subset(free.to_set(), cells);
}

/// Where no end is used twice and the counters of wires are right and have not wrapped
/// around, fewer wires are freed than allocated exactly if some are in use.
pub proof fn vicious_nets_leave_wires(net: Net, held: spec_fn(int) -> nat)
    requires
        net.affine(held),
        net.drift() == 0,
        net.stats.mem_free + net.in_use() <= u64::MAX,
    ensures
        net.stats.mem_free < net.stats.mem_alloc <==> net.in_use() > 0,
{
    free_cells_are_unused(net, held);
}

// ---- names and programs ----

/// A path has one name, and adding it again changes nothing.
pub proof fn names_are_stable(names: Seq<Seq<char>>, path: Seq<char>, other: Seq<char>)
    requires
        names.no_duplicates(),
        names.contains(path),
        names.len() < usize::MAX,
    ensures
        Table::interned(names, path) == names,
        Table::id(Table::interned(names, other), path) == Table::id(names, path),
{
    Table::lemma_interned(names, other);
    let i = names.index_of(path);
    let later = Table::interned(names, other);
    assert(later[i] == names[i]);
    Table::lemma_id(names, i);
    Table::lemma_id(later, i);
}

/// Different paths have different names.
pub proof fn names_are_distinct(names: Seq<Seq<char>>, path: Seq<char>, other: Seq<char>)
    requires
        names.no_duplicates(),
        names.contains(path),
        names.contains(other),
        names.len() <= usize::MAX,
    ensures
        Table::id(names, path) == Table::id(names, other) <==> path == other,
{
    Table::lemma_id(names, names.index_of(path));
    Table::lemma_id(names, names.index_of(other));
}

/// The names that a loader adds do not change which extrinsic function a path stands
/// for, if all of them were registered before.
pub proof fn extrinsics_keep_their_labels(
    host: HostView,
    names: Seq<Seq<char>>,
    later: Seq<Seq<char>>,
    path: Seq<char>,
)
    requires
        host.named(names),
        names.is_prefix_of(later),
    ensures
        crate::program::fn_label(host.fns, later, path) == crate::program::fn_label(
            host.fns,
            names,
            path,
        ),
{
    crate::program::lemma_fn_label_stable(host.fns, names, later, path);
}

/// Every entry of a loaded program can be resolved, to the graft that it was compiled to,
/// and nothing else can; no matter which names were added in between.
pub proof fn loaded_entries_resolve(
    host: HostView,
    names: Seq<Seq<char>>,
    nets: Seq<(String, FlatNet)>,
    later: Seq<Seq<char>>,
    path: Seq<char>,
)
    requires
        names.no_duplicates(),
        later.no_duplicates(),
        Program::interned(names, nets).is_prefix_of(later),
        later.len() < usize::MAX,
    ensures
        DynamicProgramLoader::resolved(
            DynamicProgramLoader::loaded(host, names, nets).programs.last(),
            later,
            path,
        ) == Program::graft_of(nets, host.grafts.len(), path),
        DynamicProgramLoader::resolved(
            DynamicProgramLoader::loaded(host, names, nets).programs.last(),
            later,
            path,
        ) is Some <==> exists|i: int| 0 <= i < nets.len() && (#[trigger] nets[i]).0@ == path,
{
    let latest = Table::interned(later, path);
    Table::lemma_interned(later, path);
    let interned = Program::interned(names, nets);
    assert(interned =~= latest.subrange(0, interned.len() as int));
    Program::lemma_compiled_lookup(names, nets, host.grafts.len(), latest, path);
    crate::program::lemma_net_index(nets, path);
}

/// A handle comes back out of a net as it went in.
pub proof fn payloads_come_back(module: ProgramHandle, payload: usize)
    ensures
        ProgramHandle::of_payload(module.payload()) == module,
        ProgramHandle::of_payload(payload).payload() == payload,
{
}

/// Handles keep their meaning while the host grows.
pub proof fn handles_keep_their_meaning(host: HostView, later: HostView, program: int, graft: int)
    requires
        later.extends(host),
        0 <= program < host.programs.len(),
        0 <= graft < host.grafts.len(),
    ensures
        later.programs[program] == host.programs[program],
        later.grafts[graft] == host.grafts[graft],
{
}

// ---- results ----

/// A run is successful exactly if there is nothing to say about it.
pub proof fn success_says_nothing(outcome: RunOutcome, debug_hint: bool)
    ensures
        crate::text::joined(outcome.messages(debug_hint), "\n\n"@).len() == 0 <==> outcome.flags
            == Flags::none() && outcome.ivy_errors@.len() == 0,
{
    let flags = outcome.flags.messages(debug_hint);
    reveal_strlit("Error: a linear extrinsic was copied");
    reveal_strlit("Error: a linear extrinsic was erased");
    reveal_strlit("Error: an extrinsic function encountered an unspecified error");
    reveal_strlit("Error: the net did not return its `IO` handle");
    reveal_strlit("  hint: try running the program in `--debug` mode to see error messages");
    reveal_strlit("Error: the net created a vicious circle");
    reveal_strlit("Error: dynamic Ivy load failed: ");
    crate::text::lemma_joined_empty(flags, "\n"@);
    crate::text::lemma_joined_empty(outcome.messages(debug_hint), "\n\n"@);
}

} // verus!
