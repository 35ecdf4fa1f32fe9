//! Running a program from start to end.
use vstd::prelude::*;

use crate::host::dynamic::{DynamicProgramMailbox, DynamicProgramRequest, DynamicProgramService};
use crate::host::loader::{DynamicProgramLoader, ParsedSource};
use crate::host::module::{CompileError, GraftHandle, ProgramHandle};
use crate::host::names::Table;
use crate::host::{Extrinsic, Host, HostView};
use crate::program::{FlatNet, Program};
use crate::runtime::ext::{ExtCall, ExtTy, ExtVal, Payload, TyName, IO};
use crate::runtime::flags::Flags;
use crate::runtime::graft::GraftId;
use crate::runtime::heap::Heap;
use crate::runtime::hooks::Watched;
use crate::runtime::net::Net;
use crate::runtime::port::{NodeKind, Port, Tag};
use crate::runtime::stats::Stats;
use crate::runtime::traversal::{OpenRound, Traversal, WatchedTraversal};
use crate::runtime::wire::Wire;
use crate::runtime::{Hooks, Runtime};
use crate::text::join;

verus! {

/// What a program printed.
#[derive(Debug)]
pub struct CaptureOutput {
    pub output: Vec<u8>,
}

impl Default for CaptureOutput {
    fn default() -> (capture: CaptureOutput)
        ensures
            capture.output@ == Seq::<u8>::empty(),
    {
        CaptureOutput { output: Vec::new() }
    }
}

impl CaptureOutput {
    /// Takes all of `buf`, and returns its length.
    pub fn write(&mut self, buf: &[u8]) -> (written: usize)
        ensures
            final(self).output@ == old(self).output@ + buf@,
            written == buf@.len(),
    {
        let mut i: usize = 0;
        while i < buf.len()
            invariant
                i <= buf@.len(),
                self.output@ =~= old(self).output@ + buf@.take(i as int),
            decreases buf@.len() - i,
        {
            self.output.push(buf[i]);
            i += 1;
        }
        assert(buf@.take(i as int) =~= buf@);
        buf.len()
    }

    /// All that was written.
    pub fn into_output(self) -> (output: Vec<u8>)
        ensures
            output@ == self.output@,
    {
        self.output
    }
}

/// How a run ended.
#[derive(Debug)]
pub struct RunOutcome {
    pub stats: Stats,
    pub flags: Flags,
    pub ivy_errors: Vec<CompileError>,
}

impl RunOutcome {
    /// The messages of all errors, those of loading programs first.
    pub open spec fn messages(self, debug_hint: bool) -> Seq<Seq<char>> {
        let runtime = crate::text::joined(self.flags.messages(debug_hint), "\n"@);
        let loading = Seq::new(
            self.ivy_errors@.len(),
            |i: int| "Error: dynamic Ivy load failed: "@ + self.ivy_errors@[i].text(),
        );
        if runtime.len() == 0 {
            loading
        } else {
            loading.push(runtime)
        }
    }

    /// Whether there was no error.
    pub fn success(&self) -> (success: bool)
        ensures
            success == (self.flags == Flags::none() && self.ivy_errors@.len() == 0),
    {
        self.flags.success() && self.ivy_errors.is_empty()
    }

    /// The messages of all errors, with an empty line between each two.
    pub fn error_message(&self, debug_hint: bool) -> (text: String)
        ensures
            text@ == crate::text::joined(self.messages(debug_hint), "\n\n"@),
    {
        let mut errors: Vec<String> = Vec::new();
        let mut i: usize = 0;
        while i < self.ivy_errors.len()
            invariant
                i <= self.ivy_errors@.len(),
                errors@.len() == i,
                forall|j: int|
                    0 <= j < i ==> (#[trigger] errors@[j])@ == "Error: dynamic Ivy load failed: "@
                        + self.ivy_errors@[j].text(),
            decreases self.ivy_errors@.len() - i,
        {
            let mut error = "Error: dynamic Ivy load failed: ".to_owned();
            let message = self.ivy_errors[i].message();
            error.append(message.as_str());
            errors.push(error);
            i += 1;
        }
        let runtime_errors = self.flags.error_message(debug_hint);
        if !runtime_errors.as_str().is_empty() {
            errors.push(runtime_errors);
        }
        assert(crate::text::texts(errors@) =~= self.messages(debug_hint));
        join(&errors, "\n\n")
    }
}

/// A program that is being run.
pub struct Runner {
    pub ivy_loader: DynamicProgramLoader,
    pub ivy_service: DynamicProgramService,
    pub ivy_errors: Vec<CompileError>,
    /// The type of the `IO` token.
    pub io: ExtTy,
    pub runtime: Runtime,
    /// The wire that the program leaves its `IO` token on.
    pub root: Wire,
}

/// The contents of a [`Runner`].
#[verifier::ext_equal]
pub struct RunnerView {
    pub net: Net,
    /// The names that the loader knows.
    pub names: Seq<Seq<char>>,
    pub errors: Seq<CompileError>,
    /// The mailbox of the service.
    pub mailbox: DynamicProgramMailbox,
    pub io: ExtTy,
    pub compile_ty: ExtTy,
    pub resolve_ty: ExtTy,
    pub root: Wire,
}

impl View for Runner {
    type V = RunnerView;

    open spec fn view(&self) -> RunnerView {
        RunnerView {
            net: self.runtime@,
            names: self.ivy_loader.table@,
            errors: self.ivy_errors@,
            mailbox: self.ivy_service.requests,
            io: self.io,
            compile_ty: self.ivy_service.compile_ty,
            resolve_ty: self.ivy_service.resolve_ty,
            root: self.root,
        }
    }
}

/// How a run goes on: in which order it is normalized, and what the texts that are asked
/// for stand for.
pub struct Mode {
    pub breadth_first: bool,
    pub workers: usize,
    pub parsed: Seq<ParsedSource>,
}

impl RunnerView {
    /// The net is well-formed, the loader knows the names of all extrinsics, and the root
    /// and the mailbox are those of the net.
    pub open spec fn wf(self) -> bool {
        &&& self.net.wf()
        &&& self.names.no_duplicates()
        &&& self.net.host.named(self.names)
        &&& self.net.has_wire(self.root)
        &&& self.mailbox.index < self.net.requests.len()
    }

    /// The host, once everything that a run needs is registered.
    pub open spec fn prepared_host(
        host: HostView,
        names: Seq<Seq<char>>,
        extrinsics: Seq<Extrinsic>,
    ) -> HostView {
        DynamicProgramService::hosted(host.with_ty(TyName::Io), names).registered(
            DynamicProgramService::interned(host.with_ty(TyName::Io), names),
            Extrinsic::listed(extrinsics),
        )
    }

    /// The names, once everything that a run needs is registered.
    pub open spec fn prepared_names(
        host: HostView,
        names: Seq<Seq<char>>,
        extrinsics: Seq<Extrinsic>,
    ) -> Seq<Seq<char>> {
        HostView::interned(
            DynamicProgramService::interned(host.with_ty(TyName::Io), names),
            Extrinsic::listed(extrinsics),
        )
    }

    /// Whether `nets` can be run once everything is registered: they can be compiled,
    /// and one of them is the main net.
    pub open spec fn runnable(
        host: HostView,
        names: Seq<Seq<char>>,
        nets: Seq<(String, FlatNet)>,
    ) -> bool {
        &&& Program::encodable(nets, names, host)
        &&& crate::program::net_index(nets, "iv:main"@) is Some
    }

    /// The first net of a run: the main graft faces a combinator that holds the `IO`
    /// token and the wire on which it is to come back.
    pub open spec fn first_net(host: HostView, main: GraftId, io: ExtTy) -> Net {
        let node = Net::initial(host).next_node(NodeKind::Comb, 0);
        Net::initial(host).with_node().linked(
            Port::Wire(node.left),
            Port::ExtVal(ExtVal { ty_id: io.ty_id, payload: Payload::Io }),
        ).linked(Port::Graft(main), Port::Node(node))
    }

    /// The start of a run of `nets` on a host with everything registered, whose service has
    /// the mailbox `mailbox`.
    pub open spec fn started(
        host: HostView,
        mailbox: DynamicProgramMailbox,
        names: Seq<Seq<char>>,
        nets: Seq<(String, FlatNet)>,
    ) -> RunnerView {
        let io = host.ty(TyName::Io);
        let hosted = Program::hosted(host, names, nets);
        let main = Program::graft_of(nets, host.grafts.len(), "iv:main"@)->0;
        RunnerView {
            net: RunnerView::first_net(hosted, main, io),
            names,
            errors: Seq::empty(),
            mailbox,
            io,
            compile_ty: host.ty(TyName::CompileResult),
            resolve_ty: host.ty(TyName::ResolveResult),
            root: Net::initial(hosted).next_node(NodeKind::Comb, 0).right,
        }
    }

    /// All requests that have not been answered, in the order in which they are.
    pub open spec fn pending(self) -> Seq<DynamicProgramRequest> {
        self.net.requests[self.mailbox.index as int]
    }

    /// The runner without its requests.
    pub open spec fn relieved(self) -> RunnerView {
        RunnerView {
            net: Net { requests: self.mailbox.drained(self.net.requests), ..self.net },
            ..self
        }
    }

    /// Whether `parsed` says of every text that is asked for what it stands for, and
    /// what it stands for can be compiled.
    pub open spec fn covered(self, parsed: Seq<ParsedSource>) -> bool {
        forall|i: int|
            0 <= i < self.pending().len() ==> self.covers(parsed, #[trigger] self.pending()[i])
    }

    /// The part of [`RunnerView::covered`] that is about one request.
    pub open spec fn covers(
        self,
        parsed: Seq<ParsedSource>,
        request: DynamicProgramRequest,
    ) -> bool {
        request matches DynamicProgramRequest::ParseIvy { source, output } ==> {
            &&& ParsedSource::index(parsed, source@) is Some
            &&& parsed[ParsedSource::index(parsed, source@)->0].nets matches Ok(nets)
                ==> Program::encodable(nets@, self.names, self.net.host)
        }
    }

    /// What is said of an entry that a program does not have.
    pub open spec fn missing_entry(entry: Seq<char>) -> Seq<char> {
        "missing Ivy entry '"@ + entry + "'"@
    }

    /// The runner after `request` was answered with `answer`.
    pub open spec fn replied(self, request: DynamicProgramRequest, answer: Port) -> RunnerView {
        RunnerView { net: self.net.linked(Port::Wire(request.wire()), answer), ..self }
    }

    /// Whether answering `request` takes `self` to `after`. A text that could be parsed
    /// is compiled, and answered with its program; an entry is answered with its graft.
    /// Otherwise the answer says why there is none.
    pub open spec fn answered(
        self,
        request: DynamicProgramRequest,
        parsed: Seq<ParsedSource>,
        after: RunnerView,
    ) -> bool {
        match request {
            DynamicProgramRequest::ParseIvy { source, output } => {
                match parsed[ParsedSource::index(parsed, source@)->0].nets {
                    Ok(nets) => {
                        let host = DynamicProgramLoader::loaded(
                            self.net.host,
                            self.names,
                            nets@,
                        );
                        let program = ProgramHandle {
                            index: self.net.host.programs.len() as usize,
                        };
                        after == RunnerView {
                            net: self.net.with_host(host),
                            names: Program::interned(self.names, nets@),
                            ..self
                        }.replied(
                            request,
                            DynamicProgramService::compile_answer(self.compile_ty, Ok(program)),
                        )
                    },
                    Err(error) => exists|text: String| #[trigger]
                        text@ == error.text() && after == self.replied(
                            request,
                            DynamicProgramService::compile_answer(self.compile_ty, Err(text)),
                        ),
                }
            },
            DynamicProgramRequest::Resolve { module, entry, output } => {
                let named = RunnerView {
                    names: Table::interned(self.names, entry@),
                    ..self
                };
                match DynamicProgramLoader::resolved(
                    self.net.host.programs[module.index as int],
                    self.names,
                    entry@,
                ) {
                    Some(graft) => after == named.replied(
                        request,
                        DynamicProgramService::resolve_answer(
                            self.resolve_ty,
                            Ok(GraftHandle { graft }),
                        ),
                    ),
                    None => exists|text: String| #[trigger]
                        text@ == RunnerView::missing_entry(entry@) && after == named.replied(
                            request,
                            DynamicProgramService::resolve_answer(self.resolve_ty, Err(text)),
                        ),
                }
            },
        }
    }

    /// Whether answering `requests` in order takes `self` to `after`.
    pub open spec fn serviced(
        self,
        requests: Seq<DynamicProgramRequest>,
        parsed: Seq<ParsedSource>,
        after: RunnerView,
    ) -> bool
        decreases requests.len(),
    {
        if requests.len() == 0 {
            after == self
        } else {
            exists|mid: RunnerView| #[trigger]
                mid.answered(requests.last(), parsed, after) && self.serviced(
                    requests.drop_last(),
                    parsed,
                    mid,
                )
        }
    }

    /// Whether what was there in `earlier` is there still: wires, names and everything
    /// compiled.
    pub open spec fn extends(self, earlier: RunnerView) -> bool {
        &&& self.net.cells.len() >= earlier.net.cells.len()
        &&& self.net.host.extends(earlier.net.host)
        &&& self.net.host.fns == earlier.net.host.fns
        &&& earlier.names.is_prefix_of(self.names)
    }

    pub(crate) proof fn lemma_extends_further(self, later: RunnerView, latest: RunnerView)
        requires
            later.extends(self),
            latest.extends(later),
        ensures
            latest.extends(self),
    {
        self.net.host.lemma_extends_further(later.net.host, latest.net.host);
        assert(self.names =~= latest.names.subrange(0, self.names.len() as int));
    }

    pub(crate) proof fn lemma_extends_self(self)
        ensures
            self.extends(self),
    {
        self.net.host.lemma_extends_self();
        assert(self.names =~= self.names.subrange(0, self.names.len() as int));
    }

    /// A request that can be answered can be answered later.
    pub(crate) proof fn lemma_request_later(
        self,
        later: RunnerView,
        parsed: Seq<ParsedSource>,
        request: DynamicProgramRequest,
    )
        requires
            self.wf(),
            later.extends(self),
            self.net.has_request(request),
            self.covers(parsed, request),
        ensures
            later.net.has_request(request),
            later.covers(parsed, request),
    {
        if let DynamicProgramRequest::ParseIvy { source, output } = request {
            if let Ok(nets) = parsed[ParsedSource::index(parsed, source@)->0].nets {
                Program::lemma_encodable_stable(
                    nets@,
                    self.names,
                    later.names,
                    self.net.host,
                    later.net.host,
                );
            }
        }
    }

    /// The texts that `requests` ask to be parsed, in order.
    pub open spec fn sources(requests: Seq<DynamicProgramRequest>) -> Seq<String>
        decreases requests.len(),
    {
        if requests.len() == 0 {
            Seq::empty()
        } else {
            let rest = RunnerView::sources(requests.drop_last());
            match requests.last() {
                DynamicProgramRequest::ParseIvy { source, output } => rest.push(source),
                DynamicProgramRequest::Resolve { module, entry, output } => rest,
            }
        }
    }

    /// Whether nothing is left to do: no program is asked for, and no function of the
    /// host was called.
    pub open spec fn settled(self) -> bool {
        self.pending().len() == 0 && self.net.calls.len() == 0
    }

    /// Whether programs are asked for, and `parsed` is all that it takes to answer.
    pub open spec fn answerable(self, parsed: Seq<ParsedSource>) -> bool {
        self.pending().len() > 0 && self.net.calls.len() == 0 && self.covered(parsed)
    }

    /// The net in which the result was looked at, and the result.
    pub open spec fn result(self) -> (Net, Port) {
        self.net.followed(Port::Wire(self.root))
    }

    /// The flags at the end of a run: the result has to be the `IO` token, and all wires
    /// have to be freed.
    pub open spec fn final_flags(self) -> Flags {
        let (net, port) = self.result();
        Flags {
            no_io: !(port matches Port::ExtVal(value) && value.ty_id == self.io.ty_id),
            vicious: net.stats.mem_free < net.stats.mem_alloc,
            ..net.flags
        }
    }

    /// Whether a run that ends here ends with `outcome`.
    pub open spec fn gives(self, outcome: RunOutcome) -> bool {
        &&& outcome.stats == self.result().0.stats
        &&& outcome.flags == self.final_flags()
        &&& outcome.ivy_errors@ == self.errors
    }
}

/// An epoch of a run, which may have been interrupted by a call for the host. The clock
/// readings are those that the epochs began with.
#[derive(Debug)]
pub enum Epoch<T> {
    /// No epoch has begun, or the last one is over.
    Closed,
    DepthFirst { start: T },
    BreadthFirst(OpenRound<T>),
    /// An epoch with workers.
    Unwatched,
}

/// The contents of an [`Epoch`].
pub enum EpochView<T> {
    Closed,
    DepthFirst { start: T },
    /// The work is what is left of the round, the next active pair first.
    BreadthFirst { start: T, work: Option<Seq<(Port, Port)>> },
    Unwatched,
}

impl<T> View for Epoch<T> {
    type V = EpochView<T>;

    open spec fn view(&self) -> EpochView<T> {
        match self {
            Epoch::Closed => EpochView::Closed,
            Epoch::DepthFirst { start } => EpochView::DepthFirst { start: *start },
            Epoch::BreadthFirst(round) => EpochView::BreadthFirst {
                start: round.start,
                work: OpenRound::<T>::reversed(round.rest),
            },
            Epoch::Unwatched => EpochView::Unwatched,
        }
    }
}

impl<T> EpochView<T> {
    /// The clock reading that the epoch began with.
    pub open spec fn reading(self) -> Option<T> {
        match self {
            EpochView::DepthFirst { start } => Some(start),
            EpochView::BreadthFirst { start, work } => Some(start),
            _ => None,
        }
    }

    /// What is left of the round.
    pub open spec fn work(self) -> Option<Seq<(Port, Port)>> {
        match self {
            EpochView::BreadthFirst { start, work } => work,
            _ => None,
        }
    }
}

/// A run, the hooks that watch it, and the epoch that it is in.
pub struct Run<H: Hooks> {
    pub runner: RunnerView,
    pub hooks: H,
    pub epoch: EpochView<H::Instant>,
}

impl<H: Hooks> Run<H> {
    /// The runner is well-formed, and what is left of the round is in its net.
    pub open spec fn wf(self) -> bool {
        &&& self.runner.wf()
        &&& self.epoch.work() matches Some(work) ==> self.runner.net.has_pairs(work)
    }

    /// The net, and what is left of the round.
    pub open spec fn traversal(self) -> Traversal {
        Traversal { net: self.runner.net, work: self.epoch.work() }
    }

    /// Whether the epoch that comes next, or is open, is a breadth-first one.
    pub open spec fn in_rounds(self, mode: Mode) -> bool {
        self.epoch is BreadthFirst || self.epoch is Closed && mode.breadth_first
    }

    /// Whether the epoch that comes next, or is open, is one with workers.
    pub open spec fn in_parallel(self, mode: Mode) -> bool {
        self.epoch is Unwatched || self.epoch is Closed && !mode.breadth_first && mode.workers > 0
    }

    /// Whether a breadth-first epoch takes `self` to `after`.
    pub open spec fn went_in_rounds(self, after: Run<H>) -> bool {
        &&& after.epoch is Closed || after.epoch is BreadthFirst
        &&& exists|n: nat|
            {
                &&& #[trigger] (WatchedTraversal {
                    hooks: self.hooks,
                    traversal: self.traversal(),
                }).went_on(
                    self.epoch.reading(),
                    n,
                    after.epoch.reading(),
                    WatchedTraversal { hooks: after.hooks, traversal: after.traversal() },
                )
                &&& self.traversal().stops_after(n)
            }
    }

    /// Whether an epoch with workers takes `self` to `after`.
    pub open spec fn went_in_parallel(self, after: Run<H>) -> bool {
        &&& after.epoch is Closed || after.epoch is Unwatched
        &&& after.hooks == self.hooks
        &&& exists|n: nat|
            after.runner.net == #[trigger] self.runner.net.steps(n)
                && self.runner.net.stops_after(n)
    }

    /// Whether an epoch without workers, and not breadth-first, takes `self` to `after`.
    pub open spec fn went_in_depth(self, after: Run<H>) -> bool {
        &&& after.epoch is Closed || after.epoch is DepthFirst
        &&& exists|n: nat|
            {
                &&& #[trigger] (Watched { hooks: self.hooks, net: self.runner.net }).went_on(
                    self.epoch.reading(),
                    n,
                    after.epoch.reading(),
                    Watched { hooks: after.hooks, net: after.runner.net },
                )
                &&& self.runner.net.stops_after(n)
            }
    }

    /// Whether `after` differs from `self` in the net, the hooks and the epoch at most, and
    /// the epoch is open exactly if a call waits for the host.
    pub open spec fn stopped(self, after: Run<H>) -> bool {
        &&& after.runner == RunnerView { net: after.runner.net, ..self.runner }
        &&& after.epoch is Closed <==> !after.runner.net.waits()
        &&& after.epoch is Closed ==> after.runner.net.quiescent()
    }

    /// Whether one epoch takes `self` to `after`, be it that it begins or that it was
    /// interrupted: it is over when no active pair is left, and is interrupted right after
    /// the interaction that leaves a call for the host. A breadth-first epoch and one
    /// without workers are watched by the hooks; one with workers is not.
    pub open spec fn normalized(self, mode: Mode, after: Run<H>) -> bool {
        &&& self.stopped(after)
        &&& if self.in_rounds(mode) {
            self.went_in_rounds(after)
        } else if self.in_parallel(mode) {
            self.went_in_parallel(after)
        } else {
            self.went_in_depth(after)
        }
    }

    /// Whether the epoch comes to an end, or to a call for the host.
    pub open spec fn pauses(self, mode: Mode) -> bool {
        if self.in_rounds(mode) {
            self.traversal().pauses()
        } else {
            self.runner.net.pauses()
        }
    }

    /// Whether the epoch is over, programs are asked for, and the parsed texts are all that
    /// it takes to answer.
    pub open spec fn answerable(self, mode: Mode) -> bool {
        self.epoch is Closed && self.runner.answerable(mode.parsed)
    }

    /// Whether answering all requests takes `self` to `after`.
    pub open spec fn answered(self, mode: Mode, after: Run<H>) -> bool {
        &&& self.answerable(mode)
        &&& self.runner.relieved().serviced(self.runner.pending(), mode.parsed, after.runner)
        &&& after.hooks == self.hooks
        &&& after.epoch is Closed
    }

    /// Whether one epoch, and answering the requests that it left, take `self` to `after`.
    pub open spec fn cycled(self, mode: Mode, after: Run<H>) -> bool {
        exists|mid: Run<H>| #[trigger] self.normalized(mode, mid) && mid.answered(mode, after)
    }

    /// Whether `n` epochs, each with its requests answered, take `self` to `after`.
    pub open spec fn cycled_by(self, mode: Mode, n: nat, after: Run<H>) -> bool
        decreases n,
    {
        if n == 0 {
            after == self
        } else {
            exists|mid: Run<H>| #[trigger]
                mid.cycled(mode, after) && self.cycled_by(mode, (n - 1) as nat, mid)
        }
    }

    /// Whether `self` comes to `after` by epochs with their requests answered, and a last
    /// epoch that is interrupted, or after which there is nothing to be answered that the
    /// parsed texts are enough for.
    pub open spec fn ran(self, mode: Mode, after: Run<H>) -> bool {
        &&& !after.answerable(mode)
        &&& exists|n: nat, last: Run<H>| #[trigger]
            self.cycled_by(mode, n, last) && last.normalized(mode, after)
    }

    /// Whether every epoch ends, or comes to a call for the host, and at most `bound` of them
    /// leave requests that can be answered.
    pub open spec fn ends_within(self, mode: Mode, bound: nat) -> bool
        decreases bound,
    {
        &&& self.pauses(mode)
        &&& forall|after: Run<H>| #[trigger]
            self.cycled(mode, after) ==> bound > 0 && after.ends_within(mode, (bound - 1) as nat)
    }

    /// Whether a run comes to an end, or to something that only the host can give.
    pub open spec fn ends(self, mode: Mode) -> bool {
        exists|bound: nat| #[trigger] self.ends_within(mode, bound)
    }
}

/// A run that needs something that only the host can give: the result of a call, or what a
/// text stands for.
pub struct Suspended<T> {
    pub runner: Runner,
    /// The epoch, if a call has interrupted it.
    pub epoch: Epoch<T>,
    pub breadth_first: bool,
    pub workers: usize,
}

/// How far a run has come.
pub enum RunProgress<T> {
    /// The run is over.
    Done(RunOutcome),
    /// The run cannot go on without the host.
    Suspended(Suspended<T>),
}

impl<T> Suspended<T> {
    /// The run, watched by `hooks`.
    pub open spec fn run<H: Hooks<Instant = T>>(self, hooks: H) -> Run<H> {
        Run { runner: self.runner@, hooks, epoch: self.epoch@ }
    }

    /// How the run goes on, if `parsed` says what texts stand for.
    pub open spec fn mode(self, parsed: Seq<ParsedSource>) -> Mode {
        Mode { breadth_first: self.breadth_first, workers: self.workers, parsed }
    }
}

impl<T> RunProgress<T> {
    /// Whether this is what a run that goes on in the mode `mode` came to, if `last` is where
    /// it stopped.
    pub open spec fn shows<H: Hooks<Instant = T>>(self, mode: Mode, last: Run<H>) -> bool {
        match self {
            RunProgress::Done(outcome) => last.runner.settled() && last.runner.gives(outcome),
            RunProgress::Suspended(suspended) => {
                &&& !last.runner.settled()
                &&& suspended.run(last.hooks) == last
                &&& suspended.mode(mode.parsed) == mode
            },
        }
    }
}

/// A host with everything registered that a run needs.
struct Prepared {
    host: Host,
    io: ExtTy,
    service: DynamicProgramService,
    loader: DynamicProgramLoader,
}

impl Prepared {
    /// The registered types are those of the host, and the loader knows all names.
    spec fn wf(&self, table: Table) -> bool {
        &&& self.host@.wf()
        &&& table.wf()
        &&& self.host@.named(table@)
        &&& self.io == self.host@.ty(TyName::Io)
        &&& self.host.mailboxes.are_empty()
        &&& self.service.requests.index < self.host@.mailboxes
        &&& self.service.compile_ty == self.host@.ty(TyName::CompileResult)
        &&& self.service.resolve_ty == self.host@.ty(TyName::ResolveResult)
        &&& self.loader.table@ == table@
    }

    /// Registers everything that a run needs.
    fn new(host: Host, extrinsics: Vec<Extrinsic>, table: &mut Table) -> (prepared: Prepared)
        requires
            host@.wf(),
            old(table).wf(),
            host@.named(old(table)@),
            host@.has_kinds(Extrinsic::listed(extrinsics@)),
            host.mailboxes.are_empty(),
        ensures
            prepared.host@ == RunnerView::prepared_host(host@, old(table)@, extrinsics@),
            final(table)@ == RunnerView::prepared_names(host@, old(table)@, extrinsics@),
            prepared.service.requests == DynamicProgramService::mailbox(host@),
            prepared.wf(*final(table)),
    {
        let mut host = host;
        let io = host.register_ext_ty(TyName::Io);
        let ghost host1 = host@;
        let service = DynamicProgramService::new(&mut host, table);
        let ghost host2 = host@;
        proof {
            host1.lemma_ty_later(host2, TyName::Io);
        }
        host.register(table, extrinsics);
        proof {
            host2.lemma_ty_later(host@, TyName::Io);
            host2.lemma_ty_later(host@, TyName::CompileResult);
            host2.lemma_ty_later(host@, TyName::ResolveResult);
        }
        let loader = DynamicProgramLoader::new(table);
        Prepared { host, io, service, loader }
    }

    /// Compiles `nets`, and links the main one.
    fn start(self, heap: Heap, table: &mut Table, nets: &Vec<(String, FlatNet)>) -> (
        runner: Runner)
        requires
            self.wf(*old(table)),
            RunnerView::runnable(self.host@, old(table)@, nets@),
        ensures
            runner@ == RunnerView::started(
                self.host@,
                self.service.requests,
                old(table)@,
                nets@,
            ),
            final(table)@ == Table::interned(
                Program::interned(old(table)@, nets@),
                "iv:main"@,
            ),
            runner@.wf(),
            final(table).wf(),
    {
        let Prepared { host, io, service, loader } = self;
        let mut host = host;
        let program = Program::new(&mut host, table, nets);
        let ghost names = table@;
        let main = table.add_path_name(&"iv:main".to_owned());
        proof {
            Table::lemma_interned(names, "iv:main"@);
            assert(table.paths.len() <= usize::MAX);
            Program::lemma_compiled_lookup(
                old(table)@,
                nets@,
                self.host@.grafts.len(),
                table@,
                "iv:main"@,
            );
            Program::lemma_lookup_member(program@, main);
        }
        let main = match program.graft(main) {
            Some(main) => main,
            None => {
                assert(false);
                GraftId { index: 0 }
            },
        };
        let mut runtime = host.init(heap);
        let node = runtime.new_node(Tag::Comb, 0);
        runtime.link_wire(node.1, Port::new_ext_val(io.wrap_static(IO)));
        runtime.link(Port::new_graft(main), node.0);
        Runner {
            ivy_loader: loader,
            ivy_service: service,
            ivy_errors: Vec::new(),
            io,
            runtime,
            root: node.2,
        }
    }
}

impl Runner {
    /// Registers what a run needs, and starts a run of `nets`, one of which is the main
    /// net.
    pub fn new(
        heap: Heap,
        host: Host,
        extrinsics: Vec<Extrinsic>,
        table: &mut Table,
        nets: &Vec<(String, FlatNet)>,
    ) -> (runner: Runner)
        requires
            host@.wf(),
            old(table).wf(),
            host@.named(old(table)@),
            host@.has_kinds(Extrinsic::listed(extrinsics@)),
            host.mailboxes.are_empty(),
            RunnerView::runnable(
                RunnerView::prepared_host(host@, old(table)@, extrinsics@),
                RunnerView::prepared_names(host@, old(table)@, extrinsics@),
                nets@,
            ),
        ensures
            runner@ == RunnerView::started(
                RunnerView::prepared_host(host@, old(table)@, extrinsics@),
                DynamicProgramService::mailbox(host@),
                RunnerView::prepared_names(host@, old(table)@, extrinsics@),
                nets@,
            ),
            final(table)@ == Table::interned(
                Program::interned(
                    RunnerView::prepared_names(host@, old(table)@, extrinsics@),
                    nets@,
                ),
                "iv:main"@,
            ),
            runner@.wf(),
            final(table).wf(),
    {
        Prepared::new(host, extrinsics, table).start(heap, table, nets)
    }

    /// Like [`Runner::new`], for nets of which it is not known whether they can be run:
    /// there is no runner if they cannot.
    pub fn try_new(
        heap: Heap,
        host: Host,
        extrinsics: Vec<Extrinsic>,
        table: &mut Table,
        nets: &Vec<(String, FlatNet)>,
    ) -> (runner: Option<Runner>)
        requires
            host@.wf(),
            old(table).wf(),
            host@.named(old(table)@),
            host@.has_kinds(Extrinsic::listed(extrinsics@)),
            host.mailboxes.are_empty(),
        ensures
            runner is Some <==> RunnerView::runnable(
                RunnerView::prepared_host(host@, old(table)@, extrinsics@),
                RunnerView::prepared_names(host@, old(table)@, extrinsics@),
                nets@,
            ),
            runner matches Some(runner) ==> {
                &&& runner@ == RunnerView::started(
                    RunnerView::prepared_host(host@, old(table)@, extrinsics@),
                    DynamicProgramService::mailbox(host@),
                    RunnerView::prepared_names(host@, old(table)@, extrinsics@),
                    nets@,
                )
                &&& runner@.wf()
            },
            final(table)@ == (if runner is Some {
                Table::interned(
                    Program::interned(
                        RunnerView::prepared_names(host@, old(table)@, extrinsics@),
                        nets@,
                    ),
                    "iv:main"@,
                )
            } else {
                RunnerView::prepared_names(host@, old(table)@, extrinsics@)
            }),
            final(table).wf(),
    {
        let prepared = Prepared::new(host, extrinsics, table);
        if Program::is_encodable(nets, table, &prepared.host) && Program::has_net(
            nets,
            &"iv:main".to_owned(),
        ) {
            Some(prepared.start(heap, table, nets))
        } else {
            None
        }
    }

    /// Runs the program to its end, or until it needs something that only the host can
    /// give. `parsed` says what texts stand for; requests that it is enough for are
    /// answered between the epochs.
    pub fn normalize<H: Hooks>(
        self,
        breadth_first: bool,
        workers: usize,
        hooks: &mut H,
        parsed: &Vec<ParsedSource>,
    ) -> (progress: RunProgress<H::Instant>)
        requires
            self@.wf(),
            (Run { runner: self@, hooks: *old(hooks), epoch: EpochView::Closed }).ends(
                Mode { breadth_first, workers, parsed: parsed@ },
            ),
        ensures
            exists|last: Run<H>|
                {
                    &&& #[trigger] (Run {
                        runner: self@,
                        hooks: *old(hooks),
                        epoch: EpochView::Closed,
                    }).ran(Mode { breadth_first, workers, parsed: parsed@ }, last)
                    &&& last.hooks == *final(hooks)
                    &&& progress.shows(Mode { breadth_first, workers, parsed: parsed@ }, last)
                },
            progress matches RunProgress::Suspended(suspended) ==> {
                &&& suspended.run(*final(hooks)).wf()
                &&& suspended.runner@.extends(self@)
            },
    {
        let suspended = Suspended { runner: self, epoch: Epoch::Closed, breadth_first, workers };
        suspended.go_on(hooks, parsed)
    }

    /// Whether nothing is left to do.
    fn is_settled(&self) -> (settled: bool)
        requires
            self@.wf(),
        ensures
            settled == self@.settled(),
    {
        let requests = &self.runtime.host.mailboxes.queues[self.ivy_service.requests.index];
        requests.is_empty() && self.runtime.calls.is_empty()
    }

    /// Whether programs are asked for, and `parsed` is all that it takes to answer.
    fn is_answerable(&self, parsed: &Vec<ParsedSource>) -> (answerable: bool)
        requires
            self@.wf(),
        ensures
            answerable == self@.answerable(parsed@),
    {
        let requests = &self.runtime.host.mailboxes.queues[self.ivy_service.requests.index];
        !requests.is_empty() && self.runtime.calls.is_empty() && self.is_covered(parsed)
    }

    /// Whether `parsed` is enough to answer all requests.
    fn is_covered(&self, parsed: &Vec<ParsedSource>) -> (covered: bool)
        requires
            self@.wf(),
        ensures
            covered == self@.covered(parsed@),
    {
        let requests = &self.runtime.host.mailboxes.queues[self.ivy_service.requests.index];
        let mut i: usize = 0;
        while i < requests.len()
            invariant
                self@.wf(),
                requests@ == self@.pending(),
                i <= requests@.len(),
                forall|j: int| 0 <= j < i ==> self@.covers(parsed@, #[trigger] requests@[j]),
            decreases requests@.len() - i,
        {
            let covered = match &requests[i] {
                DynamicProgramRequest::ParseIvy { source, output } => {
                    match ParsedSource::find(parsed, source) {
                        None => false,
                        Some(index) => match &parsed[index].nets {
                            Ok(nets) => Program::is_encodable(
                                nets,
                                &self.ivy_loader.table,
                                &self.runtime.host,
                            ),
                            Err(error) => true,
                        },
                    }
                },
                DynamicProgramRequest::Resolve { module, entry, output } => true,
            };
            if !covered {
                assert(!self@.covers(parsed@, self@.pending()[i as int]));
                return false;
            }
            i += 1;
        }
        true
    }

    /// Runs one epoch, or goes on with one that was interrupted: normalizes the net, until no
    /// active pair is left or a function of the host is called. In the latter case the
    /// epoch stays open, and can be gone on with once the host has taken the call and
    /// linked its outputs.
    pub fn run_epoch<H: Hooks>(
        &mut self,
        breadth_first: bool,
        workers: usize,
        hooks: &mut H,
        epoch: Epoch<H::Instant>,
    ) -> (still_open: Epoch<H::Instant>)
        requires
            (Run { runner: old(self)@, hooks: *old(hooks), epoch: epoch@ }).wf(),
            (Run { runner: old(self)@, hooks: *old(hooks), epoch: epoch@ }).pauses(
                Mode { breadth_first, workers, parsed: Seq::empty() },
            ),
        ensures
            (Run { runner: old(self)@, hooks: *old(hooks), epoch: epoch@ }).normalized(
                Mode { breadth_first, workers, parsed: Seq::empty() },
                Run { runner: final(self)@, hooks: *final(hooks), epoch: still_open@ },
            ),
            final(self)@.net.follows(old(self)@.net),
            final(self)@.extends(old(self)@),
            (Run { runner: final(self)@, hooks: *final(hooks), epoch: still_open@ }).wf(),
    {
        match epoch {
            Epoch::Closed => if breadth_first {
                self.run_in_rounds(None, hooks)
            } else if workers > 0 {
                self.run_in_parallel(hooks)
            } else {
                self.run_in_depth(None, hooks)
            },
            Epoch::DepthFirst { start } => self.run_in_depth(Some(start), hooks),
            Epoch::BreadthFirst(round) => self.run_in_rounds(Some(round), hooks),
            Epoch::Unwatched => self.run_in_parallel(hooks),
        }
    }

    /// An epoch without workers, and not breadth-first.
    fn run_in_depth<H: Hooks>(&mut self, open: Option<H::Instant>, hooks: &mut H) -> (epoch: Epoch<
        H::Instant,
    >)
        requires
            old(self)@.wf(),
            old(self)@.net.pauses(),
        ensures
            Runner::in_depth(old(self)@, *old(hooks), open).stopped(
                Run { runner: final(self)@, hooks: *final(hooks), epoch: epoch@ },
            ),
            Runner::in_depth(old(self)@, *old(hooks), open).went_in_depth(
                Run { runner: final(self)@, hooks: *final(hooks), epoch: epoch@ },
            ),
            final(self)@.net.follows(old(self)@.net),
            final(self)@.extends(old(self)@),
            final(self)@.wf(),
    {
        proof {
            old(self)@.lemma_extends_self();
        }
        let still_open = self.runtime.normalize_until_call(open, hooks);
        assert(self@ =~= RunnerView { net: self@.net, ..old(self)@ });
        let ghost to = still_open;
        let epoch = match still_open {
            Some(start) => Epoch::DepthFirst { start },
            None => Epoch::Closed,
        };
        assert(Runner::in_depth(old(self)@, *old(hooks), open).epoch.reading() == open);
        assert(epoch@.reading() == to);
        epoch
    }

    /// A run whose epoch is open if there is a clock reading.
    spec fn in_depth<H: Hooks>(runner: RunnerView, hooks: H, open: Option<H::Instant>) -> Run<H> {
        Run {
            runner,
            hooks,
            epoch: match open {
                Some(start) => EpochView::DepthFirst { start },
                None => EpochView::Closed,
            },
        }
    }

    /// A breadth-first epoch.
    fn run_in_rounds<H: Hooks>(
        &mut self,
        open: Option<OpenRound<H::Instant>>,
        hooks: &mut H,
    ) -> (epoch: Epoch<H::Instant>)
        requires
            Runner::in_rounds(old(self)@, *old(hooks), open).wf(),
            Runner::in_rounds(old(self)@, *old(hooks), open).traversal().pauses(),
        ensures
            Runner::in_rounds(old(self)@, *old(hooks), open).stopped(
                Run { runner: final(self)@, hooks: *final(hooks), epoch: epoch@ },
            ),
            Runner::in_rounds(old(self)@, *old(hooks), open).went_in_rounds(
                Run { runner: final(self)@, hooks: *final(hooks), epoch: epoch@ },
            ),
            final(self)@.net.follows(old(self)@.net),
            final(self)@.extends(old(self)@),
            (Run { runner: final(self)@, hooks: *final(hooks), epoch: epoch@ }).wf(),
    {
        proof {
            old(self)@.lemma_extends_self();
        }
        let still_open = self.runtime.normalize_breadth_first_until_call(open, hooks);
        assert(self@ =~= RunnerView { net: self@.net, ..old(self)@ });
        match still_open {
            Some(round) => Epoch::BreadthFirst(round),
            None => Epoch::Closed,
        }
    }

    /// A run whose epoch is open if there is an open round.
    spec fn in_rounds<H: Hooks>(
        runner: RunnerView,
        hooks: H,
        open: Option<OpenRound<H::Instant>>,
    ) -> Run<H> {
        Run {
            runner,
            hooks,
            epoch: match open {
                Some(round) => EpochView::BreadthFirst {
                    start: round.start,
                    work: OpenRound::<H::Instant>::reversed(round.rest),
                },
                None => EpochView::Closed,
            },
        }
    }

    /// An epoch with workers, which the hooks do not watch.
    fn run_in_parallel<H: Hooks>(&mut self, hooks: &mut H) -> (epoch: Epoch<H::Instant>)
        requires
            old(self)@.wf(),
            old(self)@.net.pauses(),
        ensures
            *final(hooks) == *old(hooks),
            final(self)@ == (RunnerView { net: final(self)@.net, ..old(self)@ }),
            exists|n: nat|
                final(self)@.net == #[trigger] old(self)@.net.steps(n)
                    && old(self)@.net.stops_after(n),
            final(self)@.net.stops(),
            epoch@ == (if final(self)@.net.waits() {
                EpochView::<H::Instant>::Unwatched
            } else {
                EpochView::<H::Instant>::Closed
            }),
            final(self)@.net.follows(old(self)@.net),
            final(self)@.extends(old(self)@),
            final(self)@.wf(),
    {
        proof {
            old(self)@.lemma_extends_self();
        }
        self.runtime.normalize_unwatched();
        assert(self@ =~= RunnerView { net: self@.net, ..old(self)@ });
        if self.runtime.calls.is_empty() {
            Epoch::Closed
        } else {
            Epoch::Unwatched
        }
    }

    /// Takes all requests.
    fn take_requests(&mut self) -> (requests: Vec<DynamicProgramRequest>)
        requires
            old(self)@.wf(),
        ensures
            requests@ == old(self)@.pending(),
            final(self)@ == old(self)@.relieved(),
            final(self)@.wf(),
            forall|i: int|
                0 <= i < requests@.len() ==> final(self)@.net.has_request(#[trigger] requests@[i]),
    {
        let requests = self.ivy_service.drain(&mut self.runtime.host.mailboxes);
        proof {
            assert(self@ =~= old(self)@.relieved());
            assert forall|i: int| 0 <= i < requests@.len() implies self@.net.has_request(
                #[trigger] requests@[i],
            ) by {
                assert(old(self)@.net.has_requests(old(self)@.pending()));
                assert(old(self)@.net.has_request(old(self)@.pending()[i]));
            }
        }
        requests
    }

    /// Answers one request.
    fn answer(&mut self, request: DynamicProgramRequest, parsed: &Vec<ParsedSource>)
        requires
            old(self)@.wf(),
            old(self)@.net.has_request(request),
            old(self)@.covers(parsed@, request),
        ensures
            old(self)@.answered(request, parsed@, final(self)@),
            final(self)@.pending() == old(self)@.pending(),
            final(self)@.net.calls == old(self)@.net.calls,
            final(self)@.wf(),
            final(self)@.extends(old(self)@),
    {
        let ghost before = self@;
        match request {
            DynamicProgramRequest::ParseIvy { source, output } => {
                let program = self.ivy_loader.parse_ivy(&mut self.runtime.host, &source, parsed);
                let result = match program {
                    Ok(program) => Ok(program),
                    Err(error) => Err(error.message()),
                };
                proof {
                    assert(self.runtime@ =~= before.net.with_host(self.runtime@.host));
                    before.net.lemma_hosted_wf(self.runtime@.host);
                }
                let ghost hosted = self.runtime@;
                self.ivy_service.write_compile_result(&mut self.runtime, output, result);
                proof {
                    hosted.lemma_linked_quiet(
                        Port::Wire(output),
                        DynamicProgramService::compile_answer(before.compile_ty, result),
                    );
                    if let Ok(nets) = parsed@[ParsedSource::index(parsed@, source@)->0].nets {
                    } else {
                        assert(before.net.with_host(before.net.host) =~= before.net);
                        assert(result is Err);
                        assert(result->Err_0@ == parsed@[ParsedSource::index(
                            parsed@,
                            source@,
                        )->0].nets->Err_0.text());
                    }
                    assert(before.answered(request, parsed@, self@));
                }
            },
            DynamicProgramRequest::Resolve { module, entry, output } => {
                let result = match self.ivy_loader.graft(&self.runtime.host, module, &entry) {
                    Some(graft) => Ok(GraftHandle::new(graft)),
                    None => {
                        let mut text = "missing Ivy entry '".to_owned();
                        text.append(entry.as_str());
                        text.append("'");
                        assert(text@ == RunnerView::missing_entry(entry@));
                        Err(text)
                    },
                };
                proof {
                    before.net.host.lemma_extends_self();
                }
                self.ivy_service.write_resolve_result(&mut self.runtime, output, result);
                proof {
                    before.net.lemma_linked_quiet(
                        Port::Wire(output),
                        DynamicProgramService::resolve_answer(before.resolve_ty, result),
                    );
                    if result is Err {
                        assert(result->Err_0@ == RunnerView::missing_entry(entry@));
                    }
                    assert(before.answered(request, parsed@, self@));
                }
            },
        }
    }

    /// The texts that the net has asked to be parsed, in order.
    pub fn awaited_sources(&self) -> (sources: Vec<String>)
        requires
            self@.wf(),
        ensures
            sources@ == RunnerView::sources(self@.pending()),
    {
        let requests = &self.runtime.host.mailboxes.queues[self.ivy_service.requests.index];
        let mut sources: Vec<String> = Vec::new();
        let mut i: usize = 0;
        while i < requests.len()
            invariant
                i <= requests@.len(),
                sources@ =~= RunnerView::sources(requests@.take(i as int)),
            decreases requests@.len() - i,
        {
            proof {
                assert(requests@.take(i + 1).drop_last() =~= requests@.take(i as int));
            }
            match &requests[i] {
                DynamicProgramRequest::ParseIvy { source, output } => {
                    sources.push(source.clone());
                },
                DynamicProgramRequest::Resolve { module, entry, output } => {},
            }
            i += 1;
        }
        assert(requests@.take(i as int) =~= requests@);
        sources
    }

    /// Answers all requests. `parsed` says what the texts that the net has asked for
    /// stand for. Returns whether there were any requests: their answers create new
    /// active work, so that another epoch has to be run.
    pub fn service_ivy_requests(&mut self, parsed: &Vec<ParsedSource>) -> (serviced: bool)
        requires
            old(self)@.wf(),
            old(self)@.covered(parsed@),
        ensures
            serviced == (old(self)@.pending().len() > 0),
            old(self)@.relieved().serviced(old(self)@.pending(), parsed@, final(self)@),
            final(self)@.pending().len() == 0,
            final(self)@.net.calls == old(self)@.net.calls,
            final(self)@.extends(old(self)@),
            final(self)@.wf(),
    {
        let requests = self.take_requests();
        let ghost pending = requests@;
        let ghost first = self@;
        proof {
            first.lemma_extends_self();
        }
        if requests.is_empty() {
            return false;
        }
        for request in iter: requests
            invariant
                iter.seq() == pending,
                self@.wf(),
                first.serviced(pending.take(iter.index() as int), parsed@, self@),
                first.wf(),
                self@.extends(first),
                self@.pending().len() == 0,
                self@.net.calls == old(self)@.net.calls,
                forall|i: int| 0 <= i < pending.len() ==> {
                    &&& first.net.has_request(#[trigger] pending[i])
                    &&& first.covers(parsed@, pending[i])
                },
        {
            let ghost before = self@;
            let ghost asked = request;
            proof {
                let n = iter.index() as int;
                assert(pending.take(n + 1).drop_last() =~= pending.take(n));
                assert(pending.take(n + 1).last() == request);
                first.lemma_request_later(before, parsed@, request);
            }
            self.answer(request, parsed);
            proof {
                assert(before.answered(asked, parsed@, self@));
                first.lemma_extends_further(before, self@);
            }
        }
        assert(pending.take(pending.len() as int) =~= pending);
        true
    }

    /// Takes the calls that the host has to carry out.
    pub fn take_calls(&mut self) -> (calls: Vec<ExtCall>)
        requires
            old(self)@.wf(),
        ensures
            calls@ == old(self)@.net.calls,
            final(self)@ == (RunnerView {
                net: Net { calls: Seq::empty(), ..old(self)@.net },
                ..old(self)@
            }),
            final(self)@.wf(),
    {
        let mut calls: Vec<ExtCall> = Vec::new();
        core::mem::swap(&mut calls, &mut self.runtime.calls);
        proof {
            assert(self@ =~= RunnerView {
                net: Net { calls: Seq::empty(), ..old(self)@.net },
                ..old(self)@
            });
        }
        calls
    }

    /// Ends the run: looks at the result, and counts the wires that were not freed.
    pub fn finish(self) -> (outcome: RunOutcome)
        requires
            self@.wf(),
        ensures
            self@.gives(outcome),
            !outcome.flags.no_io <==> {
                &&& self@.net.followed(Port::Wire(self@.root)).1 matches Port::ExtVal(value)
                &&& value.ty_id == self@.io.ty_id
            },
    {
        let Runner { ivy_loader, ivy_service, ivy_errors, io, runtime, root } = self;
        let mut runtime = runtime;
        let out = runtime.follow(Port::new_wire(root));
        runtime.flags.no_io = match &out {
            Port::ExtVal(value) => value.ty_id() != io.id(),
            _ => true,
        };
        runtime.flags.vicious = runtime.stats.mem_free < runtime.stats.mem_alloc;
        RunOutcome { stats: runtime.stats, flags: runtime.flags, ivy_errors }
    }
}

impl<T> Suspended<T> {
    /// Goes on with the run, once the host has given what it could: once calls have been
    /// taken and their outputs linked, or `parsed` says what more texts stand for. If the run
    /// waits for texts and `parsed` is not enough, nothing happens.
    pub fn resume<H: Hooks<Instant = T>>(self, hooks: &mut H, parsed: &Vec<ParsedSource>) -> (
        progress: RunProgress<T>)
        requires
            self.run(*old(hooks)).wf(),
            !(self.epoch@ is Closed) ==> self.run(*old(hooks)).ends(self.mode(parsed@)),
            forall|mid: Run<H>| #[trigger]
                self.run(*old(hooks)).answered(self.mode(parsed@), mid) ==> mid.ends(
                    self.mode(parsed@),
                ),
        ensures
            !(self.epoch@ is Closed) ==> exists|last: Run<H>|
                {
                    &&& #[trigger] self.run(*old(hooks)).ran(self.mode(parsed@), last)
                    &&& last.hooks == *final(hooks)
                    &&& progress.shows(self.mode(parsed@), last)
                },
            self.run(*old(hooks)).answerable(self.mode(parsed@)) ==> exists|
                mid: Run<H>,
                last: Run<H>,
            |
                {
                    &&& self.run(*old(hooks)).answered(self.mode(parsed@), mid)
                    &&& #[trigger] mid.ran(self.mode(parsed@), last)
                    &&& last.hooks == *final(hooks)
                    &&& progress.shows(self.mode(parsed@), last)
                },
            self.epoch@ is Closed && !self.run(*old(hooks)).answerable(self.mode(parsed@)) ==> {
                &&& progress == RunProgress::Suspended(self)
                &&& *final(hooks) == *old(hooks)
            },
            progress matches RunProgress::Suspended(suspended) ==> {
                &&& suspended.run(*final(hooks)).wf()
                &&& suspended.runner@.extends(self.runner@)
            },
    {
        let ghost before = self.run(*old(hooks));
        let ghost mode = self.mode(parsed@);
        let mut suspended = self;
        proof {
            before.runner.lemma_extends_self();
        }
        let closed = match &suspended.epoch {
            Epoch::Closed => true,
            _ => false,
        };
        if closed {
            if !suspended.runner.is_answerable(parsed) {
                return RunProgress::Suspended(suspended);
            }
            let serviced = suspended.runner.service_ivy_requests(parsed);
        }
        let ghost mid = suspended.run(*hooks);
        assert(closed ==> before.answered(mode, mid));
        let progress = suspended.go_on(hooks, parsed);
        proof {
            if progress is Suspended {
                before.runner.lemma_extends_further(
                    mid.runner,
                    progress->Suspended_0.runner@,
                );
            }
        }
        progress
    }

    /// Runs epochs, and answers requests, until the host is needed.
    fn go_on<H: Hooks<Instant = T>>(self, hooks: &mut H, parsed: &Vec<ParsedSource>) -> (
        progress: RunProgress<T>)
        requires
            self.run(*old(hooks)).wf(),
            self.run(*old(hooks)).ends(self.mode(parsed@)),
        ensures
            exists|last: Run<H>|
                {
                    &&& #[trigger] self.run(*old(hooks)).ran(self.mode(parsed@), last)
                    &&& last.hooks == *final(hooks)
                    &&& progress.shows(self.mode(parsed@), last)
                },
            progress matches RunProgress::Suspended(suspended) ==> {
                &&& suspended.run(*final(hooks)).wf()
                &&& suspended.runner@.extends(self.runner@)
            },
    {
        let ghost first = self.run(*old(hooks));
        let ghost mode = self.mode(parsed@);
        let ghost mut bound = choose|bound: nat| #[trigger] first.ends_within(mode, bound);
        let ghost mut n: nat = 0;
        let Suspended { runner, epoch, breadth_first, workers } = self;
        let mut runner = runner;
        let mut epoch = epoch;
        proof {
            first.runner.lemma_extends_self();
        }
        loop
            invariant
                mode == (Mode { breadth_first, workers, parsed: parsed@ }),
                first == self.run(*old(hooks)),
                mode == self.mode(parsed@),
                (Run { runner: runner@, hooks: *hooks, epoch: epoch@ }).wf(),
                runner@.extends(first.runner),
                first.cycled_by(
                    mode,
                    n,
                    Run { runner: runner@, hooks: *hooks, epoch: epoch@ },
                ),
                (Run { runner: runner@, hooks: *hooks, epoch: epoch@ }).ends_within(mode, bound),
            decreases bound,
        {
            let ghost before = Run { runner: runner@, hooks: *hooks, epoch: epoch@ };
            let open = runner.run_epoch(breadth_first, workers, hooks, epoch);
            let ghost mid = Run { runner: runner@, hooks: *hooks, epoch: open@ };
            proof {
                assert(before.normalized(mode, mid));
                first.runner.lemma_extends_further(before.runner, mid.runner);
            }
            if !runner.is_answerable(parsed) {
                assert(first.ran(mode, mid));
                if runner.is_settled() {
                    return RunProgress::Done(runner.finish());
                }
                let suspended = Suspended { runner, epoch: open, breadth_first, workers };
                assert(suspended.run(*hooks) == mid);
                return RunProgress::Suspended(suspended);
            }
            let serviced = runner.service_ivy_requests(parsed);
            epoch = Epoch::Closed;
            proof {
                let after = Run { runner: runner@, hooks: *hooks, epoch: epoch@ };
                first.runner.lemma_extends_further(mid.runner, runner@);
                assert(mid.answered(mode, after));
                assert(before.cycled(mode, after));
                bound = (bound - 1) as nat;
                n = n + 1;
            }
        }
    }
}

} // verus!
