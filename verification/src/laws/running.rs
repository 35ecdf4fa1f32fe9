//! What holds of a run from its start to its end.
use vstd::prelude::*;

use crate::host::dynamic::{DynamicProgramMailbox, DynamicProgramRequest, DynamicProgramService};
use crate::host::loader::ParsedSource;
use crate::host::module::CompileError;
use crate::host::runner::{Mode, Run, RunOutcome, RunProgress, RunnerView};
use crate::host::{Extrinsic, HostView};
use crate::program::{FlatNet, FlatNode, Program};
use crate::runtime::ext::{ExtFnKind, ExtVal, Payload, TyName};
use crate::runtime::flags::Flags;
use crate::runtime::hooks::{Hooks, Watched};
use crate::runtime::linear::one;
use crate::runtime::net::Net;
use crate::runtime::port::{NodeKind, Tag};
use crate::runtime::stats::Stats;
use crate::runtime::traversal::WatchedTraversal;

verus! {

// ---- hooks ----

/// Whether `count` grows by `starts` when a normalization starts, by `ticks` at each tick, and
/// by `ends` when it ends.
pub open spec fn counts<H: Hooks>(
    count: spec_fn(H) -> int,
    starts: int,
    ticks: int,
    ends: int,
) -> bool {
    &&& forall|pre: H, post: H, start: H::Instant| #[trigger]
        H::started(pre, post, start) ==> count(post) == count(pre) + starts
    &&& forall|pre: H, post: H, start: H::Instant, before: Stats, after: Stats| #[trigger]
        H::ticked(pre, post, start, before, after) ==> count(post) == count(pre) + ticks
    &&& forall|pre: H, post: H, start: H::Instant, before: Stats, after: Stats| #[trigger]
        H::ended(pre, post, start, before, after) ==> count(post) == count(pre) + ends
}

proof fn steps_tick<H: Hooks>(
    before: Watched<H>,
    start: H::Instant,
    n: nat,
    after: Watched<H>,
    count: spec_fn(H) -> int,
    starts: int,
    ticks: int,
    ends: int,
)
    requires
        counts(count, starts, ticks, ends),
        before.stepped_by(start, n, after),
    ensures
        count(after.hooks) == count(before.hooks) + n * ticks,
    decreases n,
{
    if n > 0 {
        let (mid, stats) = choose|mid: Watched<H>, stats: Stats| #[trigger]
            mid.stepped(start, stats, after) && before.stepped_by(start, (n - 1) as nat, mid);
        steps_tick(before, start, (n - 1) as nat, mid, count, starts, ticks, ends);
        assert(n * ticks == (n - 1) * ticks + ticks) by (nonlinear_arith);
    }
}

proof fn rounds_tick<H: Hooks>(
    before: Watched<H>,
    start: H::Instant,
    n: nat,
    after: Watched<H>,
    count: spec_fn(H) -> int,
    starts: int,
    ticks: int,
    ends: int,
)
    requires
        counts(count, starts, ticks, ends),
        before.went_rounds(start, n, after),
    ensures
        count(after.hooks) == count(before.hooks) + n * ticks,
    decreases n,
{
    if n > 0 {
        let (mid, stats) = choose|mid: Watched<H>, stats: Stats| #[trigger]
            mid.went_round(start, stats, after) && before.went_rounds(start, (n - 1) as nat, mid);
        rounds_tick(before, start, (n - 1) as nat, mid, count, starts, ticks, ends);
        assert(n * ticks == (n - 1) * ticks + ticks) by (nonlinear_arith);
    }
}

/// A normalization calls its hooks once at the start, once before each reduction, and once at
/// the end.
pub proof fn hooks_are_called_around_reductions<H: Hooks>(
    before: Watched<H>,
    n: nat,
    after: Watched<H>,
    count: spec_fn(H) -> int,
    starts: int,
    ticks: int,
    ends: int,
)
    requires
        counts(count, starts, ticks, ends),
        before.ran_by(n, after),
    ensures
        count(after.hooks) == count(before.hooks) + starts + n * ticks + ends,
{
    let (first, start, last) = choose|first: H, start: H::Instant, last: Watched<H>|
        {
            &&& #[trigger] H::started(before.hooks, first, start)
            &&& (Watched { hooks: first, net: before.net }).stepped_by(start, n, last)
            &&& #[trigger] last.closed(start, after)
        };
    let begin = Watched { hooks: first, net: before.net };
    steps_tick(begin, start, n, last, count, starts, ticks, ends);
}

/// A breadth-first normalization calls its hooks once at the start, once before each round and
/// once more before it finds nothing to do, and once at the end.
pub proof fn hooks_are_called_around_rounds<H: Hooks>(
    before: Watched<H>,
    n: nat,
    after: Watched<H>,
    count: spec_fn(H) -> int,
    starts: int,
    ticks: int,
    ends: int,
)
    requires
        counts(count, starts, ticks, ends),
        before.ran_rounds(n, after),
    ensures
        count(after.hooks) == count(before.hooks) + starts + (n + 1) * ticks + ends,
{
    let (first, start, last, stats, idle) = choose|
        first: H,
        start: H::Instant,
        last: Watched<H>,
        stats: Stats,
        idle: Watched<H>,
    |
        {
            &&& #[trigger] H::started(before.hooks, first, start)
            &&& (Watched { hooks: first, net: before.net }).went_rounds(start, n, last)
            &&& #[trigger] last.ticked(start, stats, idle)
            &&& idle.net.quiescent()
            &&& #[trigger] idle.closed(start, after)
        };
    let begin = Watched { hooks: first, net: before.net };
    rounds_tick(begin, start, n, last, count, starts, ticks, ends);
    assert((n + 1) * ticks == n * ticks + ticks) by (nonlinear_arith);
}

/// A normalization that is interrupted and gone on with calls its hooks as one that is not:
/// at the start only where it begins, and at the end only where it is over.
pub proof fn hooks_are_called_around_interruptions<H: Hooks>(
    before: Watched<H>,
    from: Option<H::Instant>,
    n: nat,
    to: Option<H::Instant>,
    after: Watched<H>,
    count: spec_fn(H) -> int,
    starts: int,
    ticks: int,
    ends: int,
)
    requires
        counts(count, starts, ticks, ends),
        before.went_on(from, n, to, after),
    ensures
        count(after.hooks) == count(before.hooks) + (if from is None {
            starts
        } else {
            0
        }) + n * ticks + (if to is None {
            ends
        } else {
            0
        }),
        from is Some && to is Some ==> to == from,
{
    reveal(Watched::went_on);
    let (first, start) = choose|first: H, start: H::Instant|
        {
            &&& #[trigger] Watched::<H>::opened(before.hooks, from, first, start)
            &&& (Watched { hooks: first, net: before.net }).advanced(start, n, to is Some, after)
            &&& to matches Some(reading) ==> reading == start
        };
    let begin = Watched { hooks: first, net: before.net };
    if to is Some {
        steps_tick(begin, start, n, after, count, starts, ticks, ends);
    } else {
        let last = choose|last: Watched<H>|
            begin.stepped_by(start, n, last) && #[trigger] last.closed(start, after);
        steps_tick(begin, start, n, last, count, starts, ticks, ends);
    }
}

/// A budget is spent on reductions: on as many as it allows, or on all that there are up to
/// the end or a call of the host. What is left of it is handed back with an interruption.
pub proof fn budgets_are_spent_on_reductions<H: Hooks>(
    before: Watched<H>,
    from: Option<H::Instant>,
    budget: u64,
    result: Result<crate::runtime::YieldReason, (H::Instant, u64)>,
    after: Watched<H>,
)
    requires
        before.went_on_for(from, budget, result, after),
    ensures
        exists|n: nat|
            {
                &&& n <= budget
                &&& after.net.alike(#[trigger] before.net.steps(n))
                &&& n < budget ==> after.net.calls.len() > 0 || after.net.fast.len() == 0
                    && after.net.slow.len() == 0
                &&& result matches Err((start, rest)) ==> n + rest == budget
                &&& forall|i: nat| i < n ==> (#[trigger] before.net.steps(i)).calls.len() == 0
            },
{
    let to = crate::runtime::YieldReason::reading(result);
    let n = choose|n: nat|
        {
            &&& #[trigger] before.went_on(from, n, to, after)
            &&& n <= budget
            &&& n < budget ==> before.net.steps(n).stops()
            &&& before.net.goes_on(n)
            &&& result matches Err((start, rest)) ==> rest == budget - n
        };
    before.lemma_went_on_alike(from, n, to, after);
    assert forall|i: nat| i < n implies (#[trigger] before.net.steps(i)).calls.len() == 0 by {
        before.net.lemma_goes_on(i, n);
    }
    assert(after.net.alike(before.net.steps(n)));
}

// ---- runs ----

/// A run is over when no active pair is left, no call waits, and no program is asked for. It is
/// suspended only if a call waits or a program is asked for; then it is handed back as it is.
pub proof fn runs_are_over_when_nothing_is_left<H: Hooks>(
    run: Run<H>,
    mode: Mode,
    last: Run<H>,
    progress: RunProgress<H::Instant>,
)
    requires
        run.ran(mode, last),
        progress.shows(mode, last),
    ensures
        progress matches RunProgress::Done(outcome) ==> {
            &&& last.runner.net.fast.len() == 0
            &&& last.runner.net.slow.len() == 0
            &&& last.runner.net.calls.len() == 0
            &&& last.runner.net.requests[last.runner.mailbox.index as int].len() == 0
            &&& last.runner.gives(outcome)
        },
        progress matches RunProgress::Suspended(suspended) ==> {
            &&& last.runner.net.calls.len() > 0
                || last.runner.net.requests[last.runner.mailbox.index as int].len() > 0
            &&& suspended.runner@ == last.runner
            &&& suspended.epoch@ == last.epoch
            &&& suspended.breadth_first == mode.breadth_first
            &&& suspended.workers == mode.workers
        },
        last.epoch is Closed <==> last.runner.net.calls.len() == 0,
        last.epoch is Closed && last.runner.net.requests[last.runner.mailbox.index as int].len() > 0
            ==> exists|i: int|
            0 <= i < last.runner.pending().len() && !last.runner.covers(
                mode.parsed,
                #[trigger] last.runner.net.requests[last.runner.mailbox.index as int][i],
            ),
{
    let (n, end) = choose|n: nat, end: Run<H>| #[trigger]
        run.cycled_by(mode, n, end) && end.normalized(mode, last);
    assert(end.stopped(last));
}

/// A run without anything to answer is one epoch. A breadth-first one moves in rounds; one with
/// workers is not watched; any other reduces the newest active pairs first.
pub proof fn epochs_go_as_they_are_asked_to<H: Hooks>(before: Run<H>, mode: Mode, after: Run<H>)
    requires
        before.epoch is Closed,
        before.normalized(mode, after),
    ensures
        mode.breadth_first ==> exists|n: nat| #[trigger]
            after.traversal().alike(before.traversal().moves(n)),
        !mode.breadth_first ==> exists|n: nat| #[trigger]
            after.runner.net.alike(before.runner.net.steps(n)),
        !mode.breadth_first && mode.workers > 0 ==> after.hooks == before.hooks,
        after.runner == (RunnerView { net: after.runner.net, ..before.runner }),
        after.runner.net.calls.len() == 0 ==> after.runner.net.fast.len() == 0
            && after.runner.net.slow.len() == 0,
{
    if mode.breadth_first {
        assert(before.went_in_rounds(after));
        let first = WatchedTraversal { hooks: before.hooks, traversal: before.traversal() };
        let last = WatchedTraversal { hooks: after.hooks, traversal: after.traversal() };
        let n = choose|n: nat|
            {
                &&& #[trigger] first.went_on(
                    before.epoch.reading(),
                    n,
                    after.epoch.reading(),
                    last,
                )
                &&& before.traversal().stops_after(n)
            };
        first.lemma_went_on_alike(before.epoch.reading(), n, after.epoch.reading(), last);
        assert(after.traversal().alike(before.traversal().moves(n)));
    } else if mode.workers > 0 {
        assert(before.went_in_parallel(after));
        let n = choose|n: nat|
            after.runner.net == #[trigger] before.runner.net.steps(n)
                && before.runner.net.stops_after(n);
        assert(after.runner.net.alike(before.runner.net.steps(n)));
    } else {
        assert(before.went_in_depth(after));
        let first = Watched { hooks: before.hooks, net: before.runner.net };
        let last = Watched { hooks: after.hooks, net: after.runner.net };
        let n = choose|n: nat|
            {
                &&& #[trigger] first.went_on(
                    before.epoch.reading(),
                    n,
                    after.epoch.reading(),
                    last,
                )
                &&& before.runner.net.stops_after(n)
            };
        first.lemma_went_on_alike(before.epoch.reading(), n, after.epoch.reading(), last);
        assert(after.runner.net.alike(before.runner.net.steps(n)));
    }
}

/// Requests are answered between epochs, if the texts that they ask for are there, and no call
/// waits.
pub proof fn requests_are_answered_between_epochs<H: Hooks>(
    before: Run<H>,
    mode: Mode,
    after: Run<H>,
)
    requires
        before.answered(mode, after),
    ensures
        before.epoch is Closed,
        after.epoch is Closed,
        after.hooks == before.hooks,
        before.runner.net.requests[before.runner.mailbox.index as int].len() > 0,
        before.runner.net.calls.len() == 0,
        before.runner.relieved().serviced(
            before.runner.net.requests[before.runner.mailbox.index as int],
            mode.parsed,
            after.runner,
        ),
{
}

/// A run goes in cycles, each of which is an epoch and the answers to the requests that it has
/// left, and ends with an epoch after which there is nothing that can be answered.
pub proof fn runs_go_in_cycles<H: Hooks>(before: Run<H>, mode: Mode, n: nat, after: Run<H>)
    ensures
        before.cycled_by(mode, 0, after) <==> after == before,
        before.cycled_by(mode, n + 1, after) ==> exists|mid: Run<H>, end: Run<H>|
            {
                &&& before.cycled_by(mode, n, mid)
                &&& #[trigger] mid.normalized(mode, end)
                &&& #[trigger] end.answered(mode, after)
            },
        before.ran(mode, after) ==> exists|count: nat, last: Run<H>| #[trigger]
            before.cycled_by(mode, count, last) && last.normalized(mode, after),
{
    if before.cycled_by(mode, n + 1, after) {
        let mid = choose|mid: Run<H>| #[trigger]
            mid.cycled(mode, after) && before.cycled_by(mode, (n + 1 - 1) as nat, mid);
        let end = choose|end: Run<H>| #[trigger]
            mid.normalized(mode, end) && end.answered(mode, after);
        assert(before.cycled_by(mode, n, mid));
        assert(mid.normalized(mode, end) && end.answered(mode, after));
    }
}

/// Whether all requests can be answered depends on each of them alone.
pub proof fn all_requests_have_to_be_covered(runner: RunnerView, parsed: Seq<ParsedSource>)
    ensures
        runner.covered(parsed) <==> forall|i: int|
            0 <= i < runner.net.requests[runner.mailbox.index as int].len() ==> runner.covers(
                parsed,
                #[trigger] runner.net.requests[runner.mailbox.index as int][i],
            ),
        runner.answerable(parsed) <==> runner.covered(parsed) && runner.net.calls.len() == 0
            && runner.net.requests[runner.mailbox.index as int].len() > 0,
{
    let queue = runner.net.requests[runner.mailbox.index as int];
    assert(runner.pending() == queue);
    if runner.covered(parsed) {
        assert forall|i: int| 0 <= i < queue.len() implies runner.covers(
            parsed,
            #[trigger] queue[i],
        ) by {
            assert(runner.covers(parsed, runner.pending()[i]));
        }
    }
}

/// The texts that are awaited are those of the requests to parse, in their order.
pub proof fn texts_are_awaited_in_order(
    requests: Seq<DynamicProgramRequest>,
    request: DynamicProgramRequest,
)
    ensures
        RunnerView::sources(Seq::empty()).len() == 0,
        request matches DynamicProgramRequest::ParseIvy { source, output } ==> RunnerView::sources(
            requests.push(request),
        ) == RunnerView::sources(requests).push(source),
        request is Resolve ==> RunnerView::sources(requests.push(request)) == RunnerView::sources(
            requests,
        ),
{
    assert(requests.push(request).drop_last() =~= requests);
}

/// The answer to a request goes to the wire that it carries.
pub proof fn answers_go_to_the_wire_of_the_request(request: DynamicProgramRequest)
    ensures
        request matches DynamicProgramRequest::ParseIvy { source, output } ==> request.wire()
            == output,
        request matches DynamicProgramRequest::Resolve { module, entry, output } ==> request.wire()
            == output,
{
}

/// A request can be answered if it asks for an entry, or for a text of which it is known what
/// it stands for, and that can be compiled if it stands for nets.
pub proof fn known_texts_can_be_answered(
    runner: RunnerView,
    parsed: Seq<ParsedSource>,
    request: DynamicProgramRequest,
    i: int,
)
    requires
        0 <= i < parsed.len(),
        request matches DynamicProgramRequest::ParseIvy { source, output } ==> parsed[i].source@
            == source@ && (forall|j: int|
            0 <= j < i ==> (#[trigger] parsed[j]).source@ != source@),
    ensures
        request is Resolve ==> runner.covers(parsed, request),
        request is ParseIvy ==> (runner.covers(parsed, request) <==> (
        parsed[i].nets matches Ok(nets) ==> Program::encodable(
            nets@,
            runner.names,
            runner.net.host,
        ))),
{
    if let DynamicProgramRequest::ParseIvy { source, output } = request {
        ParsedSource::lemma_index(parsed, source@);
        assert(parsed[i].source@ == source@);
    }
}

/// A net can be compiled exactly if it has a free port, its agents are between wires that it
/// has, and all that they name is there.
pub proof fn nets_can_be_compiled_if_all_is_there(
    net: FlatNet,
    nets: Seq<(String, FlatNet)>,
    names: Seq<Seq<char>>,
    host: HostView,
)
    ensures
        net.encodable(nets, names, host) <==> {
            &&& net.wires > 0
            &&& forall|i: int|
                0 <= i < net.nodes@.len() ==> (match #[trigger] net.nodes@[i] {
                    FlatNode::Erase { port } => port < net.wires,
                    FlatNode::Value { value, port } => port < net.wires && value.in_arenas(
                        host.programs.len(),
                        host.grafts.len(),
                    ),
                    FlatNode::Global { path, port } => port < net.wires && (exists|j: int|
                        0 <= j < nets.len() && (#[trigger] nets[j]).0@ == path@),
                    FlatNode::Comb { label, principal, left, right } => principal < net.wires
                        && left < net.wires && right < net.wires,
                    FlatNode::ExtFn { path, principal, left, right } => principal < net.wires
                        && left < net.wires && right < net.wires && (exists|j: int|
                        0 <= j < host.fns.len() && (#[trigger] host.fns[j]).name.index
                            < names.len() && names[host.fns[j].name.index as int] == path@),
                })
        },
{
    assert forall|i: int| 0 <= i < net.nodes@.len() implies (
    #[trigger] net.nodes@[i]).encodable(net.wires, nets, names, host) == (match net.nodes@[i] {
        FlatNode::Erase { port } => port < net.wires,
        FlatNode::Value { value, port } => port < net.wires && value.in_arenas(
            host.programs.len(),
            host.grafts.len(),
        ),
        FlatNode::Global { path, port } => port < net.wires && (exists|j: int|
            0 <= j < nets.len() && (#[trigger] nets[j]).0@ == path@),
        FlatNode::Comb { label, principal, left, right } => principal < net.wires && left
            < net.wires && right < net.wires,
        FlatNode::ExtFn { path, principal, left, right } => principal < net.wires && left
            < net.wires && right < net.wires && (exists|j: int|
            0 <= j < host.fns.len() && (#[trigger] host.fns[j]).name.index < names.len()
                && names[host.fns[j].name.index as int] == path@),
    }) by {
        match net.nodes@[i] {
            FlatNode::Global { path, port } => {
                crate::program::lemma_net_index(nets, path@);
            },
            FlatNode::ExtFn { path, principal, left, right } => {
                if crate::program::fn_label(host.fns, names, path@) is Some {
                    crate::laws::programs::fns_are_found(host.fns, names, path@);
                } else {
                    crate::laws::programs::no_fn_is_found(host.fns, names, path@);
                }
            },
            _ => {},
        }
    }
}

/// Nets can be run exactly if each of them can be compiled, and one of them is the main net.
pub proof fn programs_can_be_run_if_they_have_a_main_net(
    host: HostView,
    names: Seq<Seq<char>>,
    nets: Seq<(String, FlatNet)>,
)
    ensures
        RunnerView::runnable(host, names, nets) <==> {
            &&& forall|i: int|
                0 <= i < nets.len() ==> (#[trigger] nets[i]).1.encodable(nets, names, host)
            &&& exists|i: int| 0 <= i < nets.len() && (#[trigger] nets[i]).0@ == "iv:main"@
        },
{
    crate::program::lemma_net_index(nets, "iv:main"@);
}

/// Everything that a run needs is registered: the types of the token and of the answers, the
/// functions of a mailbox of its own, and behind them those of the caller.
pub proof fn runs_have_what_they_need(
    host: HostView,
    names: Seq<Seq<char>>,
    extrinsics: Seq<Extrinsic>,
)
    requires
        names.no_duplicates(),
        host.tys.no_duplicates(),
        host.mailboxes < usize::MAX,
        RunnerView::prepared_names(host, names, extrinsics).len() <= usize::MAX,
    ensures
        ({
            let later = RunnerView::prepared_host(host, names, extrinsics);
            let known = RunnerView::prepared_names(host, names, extrinsics);
            let mailbox = DynamicProgramMailbox { index: host.mailboxes as usize };
            let first = host.fns.len() as int;
            &&& DynamicProgramService::mailbox(host) == mailbox
            &&& later.tys.contains(TyName::Io)
            &&& later.tys.contains(TyName::CompileResult)
            &&& later.tys.contains(TyName::ResolveResult)
            &&& later.tys.no_duplicates()
            &&& later.mailboxes == host.mailboxes + 1
            &&& later.fns.len() == first + 3 + extrinsics.len()
            &&& later.fns[first].kind == ExtFnKind::ParseIvy(mailbox)
            &&& known[later.fns[first].name.index as int] == "root:ivy:parse"@
            &&& later.fns[first + 1].kind == ExtFnKind::ResolveProgram(mailbox)
            &&& known[later.fns[first + 1].name.index as int] == "root:ivm:program:resolve"@
            &&& later.fns[first + 2].kind == ExtFnKind::InvokeGraft
            &&& known[later.fns[first + 2].name.index as int] == "root:ivm:graft:invoke"@
            &&& forall|i: int|
                0 <= i < extrinsics.len() ==> {
                    let function = later.fns[first + 3 + i];
                    &&& function.kind == (#[trigger] extrinsics[i]).kind
                    &&& function.name.index < known.len()
                    &&& known[function.name.index as int] == extrinsics[i].path@
                }
            &&& later.grafts == host.grafts
            &&& later.programs == host.programs
        }),
{
    let mailbox = DynamicProgramMailbox { index: host.mailboxes as usize };
    let first = host.fns.len() as int;
    let host1 = host.with_ty(TyName::Io);
    types_grow(host, TyName::Io);
    let host2 = host1.with_mailbox();
    let listing = mailbox.listing();
    let host3 = host2.registered(names, listing);
    let names1 = HostView::interned(names, listing);
    let list = Extrinsic::listed(extrinsics);
    let known = RunnerView::prepared_names(host, names, extrinsics);
    crate::laws::programs::interned_grows(names, listing);
    crate::laws::programs::interned_grows(names1, list);
    assert(names1.len() <= known.len());
    crate::laws::programs::functions_are_registered_in_order(host2, names, listing);
    registering_keeps_types(host2, names, listing);
    let host4 = host3.with_ty(TyName::CompileResult);
    types_grow(host3, TyName::CompileResult);
    let host5 = host4.with_ty(TyName::ResolveResult);
    types_grow(host4, TyName::ResolveResult);
    crate::laws::programs::functions_are_registered_in_order(host5, names1, list);
    registering_keeps_types(host5, names1, list);
    let later = RunnerView::prepared_host(host, names, extrinsics);
    assert(later == host5.registered(names1, list));
    assert(host2.tys.contains(TyName::Io));
    assert(host3.tys.contains(TyName::Io));
    assert(host4.tys.contains(TyName::Io));
    assert(host5.tys.contains(TyName::Io));
    assert(listing[0] == ("root:ivy:parse"@, ExtFnKind::ParseIvy(mailbox)));
    assert(listing[1] == ("root:ivm:program:resolve"@, ExtFnKind::ResolveProgram(mailbox)));
    assert(listing[2] == ("root:ivm:graft:invoke"@, ExtFnKind::InvokeGraft));
    assert(later.fns[first] == host3.fns[first]);
    assert(later.fns[first + 1] == host3.fns[first + 1]);
    assert(later.fns[first + 2] == host3.fns[first + 2]);
    assert forall|i: int| 0 <= i < 3 implies {
        &&& (#[trigger] host3.fns[first + i]).kind == listing[i].1
        &&& known[host3.fns[first + i].name.index as int] == listing[i].0
    } by {
        let function = host3.fns[host2.fns.len() + i];
        assert(function.kind == listing[i].1);
        assert(names1[function.name.index as int] == listing[i].0);
        assert(known[function.name.index as int] == names1[function.name.index as int]);
        assert(host3.fns[first + i] == function);
    }
    assert(host3.fns[first + 0].kind == listing[0].1);
    assert(host3.fns[first + 1].kind == listing[1].1);
    assert(host3.fns[first + 2].kind == listing[2].1);
    assert forall|i: int| 0 <= i < extrinsics.len() implies ({
        let function = later.fns[first + 3 + i];
        &&& function.kind == (#[trigger] extrinsics[i]).kind
        &&& function.name.index < known.len()
        &&& known[function.name.index as int] == extrinsics[i].path@
    }) by {
        assert(list[i] == (extrinsics[i].path@, extrinsics[i].kind));
        assert(later.fns[first + 3 + i] == later.fns[host5.fns.len() + i]);
    }
}

proof fn types_grow(host: HostView, name: TyName)
    requires
        host.tys.no_duplicates(),
    ensures
        host.with_ty(name).tys.contains(name),
        host.with_ty(name).tys.no_duplicates(),
        forall|other: TyName| #[trigger]
            host.tys.contains(other) ==> host.with_ty(name).tys.contains(other),
{
    let later = host.with_ty(name);
    if !host.tys.contains(name) {
        assert(later.tys[host.tys.len() as int] == name);
    }
    assert forall|other: TyName| #[trigger] host.tys.contains(other) implies later.tys.contains(
        other,
    ) by {
        let i = host.tys.index_of(other);
        assert(later.tys[i] == other);
    }
}

proof fn registering_keeps_types(
    host: HostView,
    names: Seq<Seq<char>>,
    extrinsics: Seq<(Seq<char>, ExtFnKind)>,
)
    requires
        host.tys.no_duplicates(),
    ensures
        host.registered(names, extrinsics).tys.no_duplicates(),
        host.registered(names, extrinsics).mailboxes == host.mailboxes,
        forall|name: TyName| #[trigger]
            host.tys.contains(name) ==> host.registered(names, extrinsics).tys.contains(name),
    decreases extrinsics.len(),
{
    if extrinsics.len() > 0 {
        registering_keeps_types(host, names, extrinsics.drop_last());
        let before = host.registered(names, extrinsics.drop_last());
        types_grow(before, TyName::Graft);
        let later = host.registered(names, extrinsics);
        assert forall|name: TyName| #[trigger] host.tys.contains(name) implies later.tys.contains(
            name,
        ) by {
            assert(before.tys.contains(name));
        }
    }
}

/// A runtime starts with an empty net: without wires, active pairs, requests, calls or errors,
/// and with nothing counted.
pub proof fn runtimes_start_empty(host: HostView)
    ensures
        ({
            let net = Net::initial(host);
            &&& net.cells.len() == 0
            &&& net.free.len() == 0
            &&& net.fast.len() == 0
            &&& net.slow.len() == 0
            &&& net.calls.len() == 0
            &&& net.requests.len() == host.mailboxes
            &&& forall|i: int|
                0 <= i < net.requests.len() ==> (#[trigger] net.requests[i]).len() == 0
            &&& net.host == host
            &&& !net.flags.ext_copy && !net.flags.ext_erase && !net.flags.ext_generic
            &&& !net.flags.no_io && !net.flags.vicious
            &&& net.stats.annihilate == 0 && net.stats.commute == 0 && net.stats.copy == 0
            &&& net.stats.erase == 0 && net.stats.expand == 0 && net.stats.call == 0
            &&& net.stats.depth == 0 && net.stats.mem_alloc == 0 && net.stats.mem_free == 0
            &&& net.stats.time_clock == 0
        }),
{
}

/// The handles in a value are those that it holds itself, and those in the parts of a pair.
pub proof fn handles_are_in_their_arenas(
    value: ExtVal,
    programs: nat,
    grafts: nat,
)
    ensures
        value.in_arenas(programs, grafts) <==> (match value.payload {
            Payload::Pair(first, second) => first.in_arenas(programs, grafts) && second.in_arenas(
                programs,
                grafts,
            ),
            Payload::Program(handle) => handle.index < programs,
            Payload::Graft(handle) => handle.graft.index < grafts,
            Payload::CompileResult(result) => result is Ok ==> result->Ok_0.index < programs,
            Payload::ResolveResult(result) => result is Ok ==> result->Ok_0.graft.index < grafts,
            Payload::Io => true,
            Payload::Text(_) => true,
            Payload::Opaque { bits, copy } => true,
        }),
{
}

/// A tag says which kind of node it is of.
pub proof fn tags_say_the_kind_of_a_node(tag: Tag, kind: NodeKind)
    ensures
        tag.is_binary() <==> tag == Tag::Comb || tag == Tag::ExtFn,
        tag.is_binary() ==> tag.node_kind().tag() == tag,
        kind.tag().node_kind() == kind,
        NodeKind::Comb.tag() == Tag::Comb,
        NodeKind::ExtFn.tag() == Tag::ExtFn,
{
}

/// Nets that are alike differ in what was counted only; those that count alike, in the time
/// that was measured only.
pub proof fn alike_nets_are_the_same_but_for_the_statistics(net: Net, other: Net)
    ensures
        net.alike(other) <==> {
            &&& net.cells == other.cells
            &&& net.free == other.free
            &&& net.fast == other.fast
            &&& net.slow == other.slow
            &&& net.requests == other.requests
            &&& net.calls == other.calls
            &&& net.flags == other.flags
            &&& net.host == other.host
        },
        net.counts_like(other) <==> {
            &&& net.stats.annihilate == other.stats.annihilate
            &&& net.stats.commute == other.stats.commute
            &&& net.stats.copy == other.stats.copy
            &&& net.stats.erase == other.stats.erase
            &&& net.stats.expand == other.stats.expand
            &&& net.stats.call == other.stats.call
            &&& net.stats.depth == other.stats.depth
            &&& net.stats.mem_alloc == other.stats.mem_alloc
            &&& net.stats.mem_free == other.stats.mem_free
        },
{
}

/// Adding time adds it to what was measured, and changes nothing that is counted.
pub proof fn time_is_added_to_what_was_measured(stats: Stats, nanos: u128)
    ensures
        stats.timed(nanos) == (Stats {
            time_clock: ((stats.time_clock + nanos) % (u128::MAX + 1)) as u128,
            ..stats
        }),
{
}

// ---- messages ----

/// Parts are put together in order, with a separator between each two, and nowhere else.
pub proof fn parts_are_put_together_in_order(
    parts: Seq<Seq<char>>,
    part: Seq<char>,
    separator: Seq<char>,
)
    ensures
        crate::text::joined(Seq::empty(), separator) == Seq::<char>::empty(),
        crate::text::joined(parts.push(part), separator) == (if parts.len() == 0 {
            part
        } else {
            crate::text::joined(parts, separator) + separator + part
        }),
{
    assert(parts.push(part).drop_last() =~= parts);
}

/// Each flag that is set has its message, in a fixed order, and no other flag has one. The one
/// about the token may be followed by a hint.
pub proof fn flags_have_their_messages(flags: Flags, debug_hint: bool)
    ensures
        ({
            let messages = flags.messages(debug_hint);
            let second = one(flags.ext_copy) as int;
            let third = second + one(flags.ext_erase);
            let fourth = third + one(flags.ext_generic);
            let fifth = fourth + one(flags.no_io) + one(flags.no_io && debug_hint);
            &&& messages.len() == fifth + one(flags.vicious)
            &&& flags.ext_copy ==> messages[0] == "Error: a linear extrinsic was copied"@
            &&& flags.ext_erase ==> messages[second] == "Error: a linear extrinsic was erased"@
            &&& flags.ext_generic ==> messages[third]
                == "Error: an extrinsic function encountered an unspecified error"@
            &&& flags.no_io ==> messages[fourth] == "Error: the net did not return its `IO` handle"@
            &&& flags.no_io && debug_hint ==> messages[fourth + 1]
                == "  hint: try running the program in `--debug` mode to see error messages"@
            &&& flags.vicious ==> messages[fifth] == "Error: the net created a vicious circle"@
        }),
{
}

/// The messages of a run are those of the programs that failed to load, in order, and behind
/// them, if there are any, those of the flags that are set.
pub proof fn runs_tell_all_errors(outcome: RunOutcome, debug_hint: bool, i: int)
    requires
        0 <= i < outcome.ivy_errors@.len(),
    ensures
        ({
            let messages = outcome.messages(debug_hint);
            let flags = crate::text::joined(outcome.flags.messages(debug_hint), "\n"@);
            let count = outcome.ivy_errors@.len() as int;
            &&& messages.len() == count + one(flags.len() > 0)
            &&& flags.len() > 0 ==> messages[count] == flags
            &&& outcome.ivy_errors@[i] matches CompileError::Parse { message } ==> messages[i]
                == "Error: dynamic Ivy load failed: "@ + message@
            &&& outcome.ivy_errors@[i] matches CompileError::Flatten { message } ==> messages[i]
                == "Error: dynamic Ivy load failed: "@ + message@
        }),
{
}

} // verus!
