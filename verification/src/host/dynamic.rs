//! Programs that are loaded while a net runs.
use vstd::prelude::*;

use crate::host::module::{GraftHandle, ProgramHandle};
use crate::host::names::Table;
use crate::host::{Extrinsic, Host, HostView};
use crate::runtime::ext::{ExtFnKind, ExtTy, ExtVal, Payload, TyName};
use crate::runtime::net::Queues;
use crate::runtime::port::Port;
use crate::runtime::wire::Wire;
use crate::runtime::Runtime;

verus! {

/// What a running net can ask of the host.
#[derive(Debug)]
pub enum DynamicProgramRequest {
    /// Parse and compile a text.
    ParseIvy { source: String, output: Wire },
    /// Find an entry of a compiled program.
    Resolve { module: ProgramHandle, entry: String, output: Wire },
}

impl DynamicProgramRequest {
    /// The wire that the answer goes to.
    pub open spec fn wire(self) -> Wire {
        match self {
            DynamicProgramRequest::ParseIvy { source, output } => output,
            DynamicProgramRequest::Resolve { module, entry, output } => output,
        }
    }
}

/// The requests that wait in the mailboxes of a host.
#[derive(Debug)]
pub struct Mailboxes {
    pub queues: Vec<Vec<DynamicProgramRequest>>,
}

impl View for Mailboxes {
    type V = Queues;

    open spec fn view(&self) -> Queues {
        Seq::new(self.queues@.len(), |i: int| self.queues@[i]@)
    }
}

impl Mailboxes {
    /// Whether no request waits.
    pub open spec fn are_empty(&self) -> bool {
        forall|i: int| 0 <= i < self@.len() ==> (#[trigger] self@[i]).len() == 0
    }

    /// No mailboxes.
    pub fn new() -> (mailboxes: Mailboxes)
        ensures
            mailboxes@ == Queues::empty(),
    {
        let mailboxes = Mailboxes { queues: Vec::new() };
        assert(mailboxes@ =~= Queues::empty());
        mailboxes
    }
}

/// A mailbox of a host. Its clones stand for the same mailbox.
#[derive(Debug, Clone, Copy, PartialEq, Eq, Structural)]
pub struct DynamicProgramMailbox {
    pub index: usize,
}

impl DynamicProgramMailbox {
    /// What the mailboxes hold after `request` was added to this one.
    pub open spec fn pushed(self, queues: Queues, request: DynamicProgramRequest) -> Queues {
        if self.index < queues.len() {
            queues.update(self.index as int, queues[self.index as int].push(request))
        } else {
            queues
        }
    }

    /// What the mailboxes hold after all requests were taken out of this one.
    pub open spec fn drained(self, queues: Queues) -> Queues {
        queues.update(self.index as int, Seq::empty())
    }

    /// Opens one more mailbox, in which nothing waits.
    pub fn new(mailboxes: &mut Mailboxes) -> (mailbox: DynamicProgramMailbox)
        ensures
            final(mailboxes)@ == old(mailboxes)@.push(Seq::empty()),
            mailbox.index == old(mailboxes)@.len(),
    {
        let index = mailboxes.queues.len();
        mailboxes.queues.push(Vec::new());
        assert(mailboxes@ =~= old(mailboxes)@.push(Seq::empty()));
        DynamicProgramMailbox { index }
    }

    /// Adds a request behind those that wait already.
    pub fn push(&self, mailboxes: &mut Mailboxes, request: DynamicProgramRequest)
        requires
            self.index < old(mailboxes)@.len(),
        ensures
            final(mailboxes)@ == self.pushed(old(mailboxes)@, request),
    {
        mailboxes.queues[self.index].push(request);
        assert(mailboxes@ =~= self.pushed(old(mailboxes)@, request));
    }

    /// Takes all requests out of the mailbox.
    pub fn drain(&self, mailboxes: &mut Mailboxes) -> (requests: Vec<DynamicProgramRequest>)
        requires
            self.index < old(mailboxes)@.len(),
        ensures
            requests@ == old(mailboxes)@[self.index as int],
            final(mailboxes)@ == self.drained(old(mailboxes)@),
    {
        let mut requests: Vec<DynamicProgramRequest> = Vec::new();
        core::mem::swap(&mut requests, &mut mailboxes.queues[self.index]);
        assert(mailboxes@ =~= self.drained(old(mailboxes)@));
        requests
    }

    /// The names and kinds of the functions by which a net loads and runs programs.
    pub open spec fn listing(self) -> Seq<(Seq<char>, ExtFnKind)> {
        seq![
            ("root:ivy:parse"@, ExtFnKind::ParseIvy(self)),
            ("root:ivm:program:resolve"@, ExtFnKind::ResolveProgram(self)),
            ("root:ivm:graft:invoke"@, ExtFnKind::InvokeGraft),
        ]
    }

    /// The functions by which a net loads and runs programs. The first two leave a
    /// request in this mailbox.
    pub fn extrinsics(&self) -> (extrinsics: Vec<Extrinsic>)
        ensures
            Extrinsic::listed(extrinsics@) == self.listing(),
    {
        let mut extrinsics: Vec<Extrinsic> = Vec::new();
        extrinsics.push(
            Extrinsic { path: "root:ivy:parse".to_owned(), kind: ExtFnKind::ParseIvy(*self) },
        );
        extrinsics.push(
            Extrinsic {
                path: "root:ivm:program:resolve".to_owned(),
                kind: ExtFnKind::ResolveProgram(*self),
            },
        );
        extrinsics.push(
            Extrinsic { path: "root:ivm:graft:invoke".to_owned(), kind: ExtFnKind::InvokeGraft },
        );
        assert(Extrinsic::listed(extrinsics@) =~= self.listing());
        extrinsics
    }
}

/// Takes the requests of a net, and puts the answers into it.
#[derive(Debug)]
pub struct DynamicProgramService {
    /// The mailbox that the functions of the service leave requests in.
    pub requests: DynamicProgramMailbox,
    /// The type of the answers to [`DynamicProgramRequest::ParseIvy`].
    pub compile_ty: ExtTy,
    /// The type of the answers to [`DynamicProgramRequest::Resolve`].
    pub resolve_ty: ExtTy,
}

impl DynamicProgramService {
    /// The mailbox of a service that is set up on `host`.
    pub open spec fn mailbox(host: HostView) -> DynamicProgramMailbox {
        DynamicProgramMailbox { index: host.mailboxes as usize }
    }

    /// The host after the service was set up.
    pub open spec fn hosted(host: HostView, names: Seq<Seq<char>>) -> HostView {
        host.with_mailbox().registered(
            names,
            DynamicProgramService::mailbox(host).listing(),
        ).with_ty(TyName::CompileResult).with_ty(TyName::ResolveResult)
    }

    /// The names after the service was set up on `host`.
    pub open spec fn interned(host: HostView, names: Seq<Seq<char>>) -> Seq<Seq<char>> {
        HostView::interned(names, DynamicProgramService::mailbox(host).listing())
    }

    /// Sets up the service: registers its functions with a mailbox of their own, and the
    /// types of its answers.
    pub fn new(host: &mut Host, table: &mut Table) -> (service: DynamicProgramService)
        requires
            old(host)@.wf(),
            old(table).wf(),
            old(host)@.named(old(table)@),
        ensures
            service.requests == DynamicProgramService::mailbox(old(host)@),
            service.requests.index == old(host)@.mailboxes,
            final(host).mailboxes@ == old(host).mailboxes@.push(Seq::empty()),
            final(table)@ == DynamicProgramService::interned(old(host)@, old(table)@),
            final(host)@ == DynamicProgramService::hosted(old(host)@, old(table)@),
            service.compile_ty == final(host)@.ty(TyName::CompileResult),
            service.resolve_ty == final(host)@.ty(TyName::ResolveResult),
            final(host)@.tys.contains(TyName::CompileResult),
            final(host)@.tys.contains(TyName::ResolveResult),
            final(host)@.wf(),
            final(table).wf(),
            final(host)@.named(final(table)@),
            final(host)@.extends(old(host)@),
            old(table)@.is_prefix_of(final(table)@),
    {
        let requests = DynamicProgramMailbox::new(&mut host.mailboxes);
        let ghost opened = host@;
        proof {
            assert(host.mailboxes.queues.len() <= usize::MAX);
            assert(opened =~= old(host)@.with_mailbox());
            old(host)@.lemma_extends_self();
            assert forall|i: int| 0 <= i < opened.fns.len() implies opened.has_kind(
                (#[trigger] opened.fns[i]).kind,
            ) by {
                assert(old(host)@.has_kind(old(host)@.fns[i].kind));
            }
            old(host)@.lemma_wf_registered(opened);
        }
        host.register(table, requests.extrinsics());
        let ghost registered = host@;
        let compile_ty = host.register_ext_ty(TyName::CompileResult);
        let ghost typed = host@;
        let resolve_ty = host.register_ext_ty(TyName::ResolveResult);
        proof {
            old(host)@.lemma_extends_further(opened, registered);
            old(host)@.lemma_extends_further(registered, typed);
            old(host)@.lemma_extends_further(typed, host@);
            assert(typed.tys =~= host@.tys.subrange(0, typed.tys.len() as int));
            assert(host@.tys[compile_ty.ty_id as int] == TyName::CompileResult);
        }
        DynamicProgramService { requests, compile_ty, resolve_ty }
    }

    /// Adds a request behind those that wait already, whether a net or a caller left them.
    pub fn push(&self, mailboxes: &mut Mailboxes, request: DynamicProgramRequest)
        requires
            self.requests.index < old(mailboxes)@.len(),
        ensures
            final(mailboxes)@ == self.requests.pushed(old(mailboxes)@, request),
    {
        self.requests.push(mailboxes, request);
    }

    /// Takes all requests that wait: those that a net has left by the functions of the
    /// service, and those that were pushed, the oldest first.
    pub fn drain(&self, mailboxes: &mut Mailboxes) -> (requests: Vec<DynamicProgramRequest>)
        requires
            self.requests.index < old(mailboxes)@.len(),
        ensures
            requests@ == old(mailboxes)@[self.requests.index as int],
            final(mailboxes)@ == self.requests.drained(old(mailboxes)@),
    {
        self.requests.drain(mailboxes)
    }

    /// The value of type `ty` that stands for the outcome of compiling a text.
    pub open spec fn compile_answer(ty: ExtTy, result: Result<ProgramHandle, String>) -> Port {
        Port::ExtVal(ExtVal { ty_id: ty.ty_id, payload: Payload::CompileResult(result) })
    }

    /// The value of type `ty` that stands for the outcome of finding an entry.
    pub open spec fn resolve_answer(ty: ExtTy, result: Result<GraftHandle, String>) -> Port {
        Port::ExtVal(ExtVal { ty_id: ty.ty_id, payload: Payload::ResolveResult(result) })
    }

    /// Answers a request to compile a text.
    pub fn write_compile_result(
        &self,
        runtime: &mut Runtime,
        output: Wire,
        result: Result<ProgramHandle, String>,
    )
        requires
            old(runtime).wf(),
            old(runtime)@.has_wire(output),
            result matches Ok(program) ==> program.index < old(runtime)@.host.programs.len(),
        ensures
            final(runtime)@ == old(runtime)@.linked(
                Port::Wire(output),
                DynamicProgramService::compile_answer(self.compile_ty, result),
            ),
            final(runtime).wf(),
            final(runtime)@.follows(old(runtime)@),
    {
        let value = ExtVal {
            ty_id: self.compile_ty.id(),
            payload: Payload::CompileResult(result),
        };
        runtime.link_wire(output, Port::new_ext_val(value));
    }

    /// Answers a request to find an entry.
    pub fn write_resolve_result(
        &self,
        runtime: &mut Runtime,
        output: Wire,
        result: Result<GraftHandle, String>,
    )
        requires
            old(runtime).wf(),
            old(runtime)@.has_wire(output),
            result matches Ok(graft) ==> graft.graft.index < old(runtime)@.host.grafts.len(),
        ensures
            final(runtime)@ == old(runtime)@.linked(
                Port::Wire(output),
                DynamicProgramService::resolve_answer(self.resolve_ty, result),
            ),
            final(runtime).wf(),
            final(runtime)@.follows(old(runtime)@),
    {
        let value = ExtVal {
            ty_id: self.resolve_ty.id(),
            payload: Payload::ResolveResult(result),
        };
        runtime.link_wire(output, Port::new_ext_val(value));
    }
}

} // verus!
