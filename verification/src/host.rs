//! The host side of the IVM: its arenas, and what is registered with it.
use vstd::prelude::*;

use crate::host::dynamic::Mailboxes;
use crate::host::names::{NameId, Table};
use crate::program::Program;
use crate::runtime::ext::{ExtFn, ExtFnKind, ExtTy, ExtVal, TyName};
use crate::runtime::graft::{Graft, GraftId, GraftView, Instruction, Nilary};
use crate::runtime::heap::Heap;
use crate::runtime::net::Net;
use crate::runtime::port::NodeKind;
use crate::runtime::Runtime;

pub mod dynamic;
pub mod loader;
pub mod module;
pub mod names;
pub mod runner;

verus! {

/// The arenas that own everything compiled. They only grow.
#[derive(Debug)]
pub struct IVM {
    pub grafts: Vec<Graft>,
    pub programs: Vec<Program>,
}

/// The host of a runtime.
#[derive(Debug)]
pub struct Host {
    pub ivm: IVM,
    /// The registered types of host values, by identifier.
    pub ext_tys: Vec<TyName>,
    /// The registered extrinsic functions, by label.
    pub ext_fns: Vec<ExtFn>,
    /// The requests that wait in the mailboxes of this host.
    pub mailboxes: Mailboxes,
}

/// What a [`Host`] has registered and compiled. What waits in its mailboxes belongs to the
/// net of a runtime, and is spoken of apart, as [`Host::mailboxes`].
#[verifier::ext_equal]
pub struct HostView {
    pub grafts: Seq<GraftView>,
    pub programs: Seq<Seq<(NameId, GraftId)>>,
    pub tys: Seq<TyName>,
    pub fns: Seq<ExtFn>,
    /// The number of mailboxes.
    pub mailboxes: nat,
}

impl View for Host {
    type V = HostView;

    open spec fn view(&self) -> HostView {
        HostView {
            grafts: Seq::new(self.ivm.grafts@.len(), |i: int| self.ivm.grafts@[i]@),
            programs: Seq::new(self.ivm.programs@.len(), |i: int| self.ivm.programs@[i]@),
            tys: self.ext_tys@,
            fns: self.ext_fns@,
            mailboxes: self.mailboxes@.len(),
        }
    }
}

impl HostView {
    /// Whether `value` holds handles of this host only.
    pub open spec fn has_value(self, value: ExtVal) -> bool {
        value.in_arenas(self.programs.len(), self.grafts.len())
    }

    /// Whether `label` is one that a node of kind `kind` can have here.
    pub open spec fn has_label(self, kind: NodeKind, label: usize) -> bool {
        kind == NodeKind::ExtFn ==> label < self.fns.len()
    }

    /// Whether `nilary` can be instantiated here.
    pub open spec fn has_nilary(self, nilary: Nilary) -> bool {
        match nilary {
            Nilary::Erase => true,
            Nilary::Graft(graft) => graft.index < self.grafts.len(),
            Nilary::Value(value) => self.has_value(value),
        }
    }

    /// Whether `instruction` can be executed here with this many registers.
    pub open spec fn has_instruction(self, instruction: Instruction, registers: usize) -> bool {
        match instruction {
            Instruction::Nilary { port, value } => {
                &&& port < registers
                &&& self.has_nilary(value)
            },
            Instruction::Binary { kind, label, principal, left, right } => {
                &&& principal < registers
                &&& left < registers
                &&& right < registers
                &&& self.has_label(kind, label)
            },
        }
    }

    /// Whether `graft` can be expanded here.
    pub open spec fn has_graft(self, graft: GraftView) -> bool {
        &&& graft.registers > 0
        &&& forall|i: int|
            0 <= i < graft.instructions.len() ==> self.has_instruction(
                #[trigger] graft.instructions[i],
                graft.registers,
            )
    }

    /// Whether the grafts of `program` are all here.
    pub open spec fn has_program(self, program: Seq<(NameId, GraftId)>) -> bool {
        forall|i: int|
            0 <= i < program.len() ==> (#[trigger] program[i]).1.index < self.grafts.len()
    }

    /// Whether the mailbox of a function of this kind is here.
    pub open spec fn has_kind(self, kind: ExtFnKind) -> bool {
        match kind {
            ExtFnKind::ParseIvy(mailbox) => mailbox.index < self.mailboxes,
            ExtFnKind::ResolveProgram(mailbox) => mailbox.index < self.mailboxes,
            _ => true,
        }
    }

    /// Whether the mailboxes of all of `extrinsics` are here.
    pub open spec fn has_kinds(self, extrinsics: Seq<(Seq<char>, ExtFnKind)>) -> bool {
        forall|i: int| 0 <= i < extrinsics.len() ==> self.has_kind((#[trigger] extrinsics[i]).1)
    }

    /// Whether everything compiled can be run, and every mailbox is there.
    pub open spec fn wf(self) -> bool {
        &&& self.tys.no_duplicates()
        &&& forall|i: int| 0 <= i < self.grafts.len() ==> self.has_graft(#[trigger] self.grafts[i])
        &&& forall|i: int|
            0 <= i < self.programs.len() ==> self.has_program(#[trigger] self.programs[i])
        &&& forall|i: int| 0 <= i < self.fns.len() ==> self.has_kind((#[trigger] self.fns[i]).kind)
    }

    /// Whether the names of all extrinsic functions are among `names`.
    pub open spec fn named(self, names: Seq<Seq<char>>) -> bool {
        forall|i: int| 0 <= i < self.fns.len() ==> (#[trigger] self.fns[i]).name.index < names.len()
    }

    /// A graft that can be expanded here can be expanded later.
    pub proof fn lemma_has_graft_later(self, later: HostView, graft: GraftView)
        requires
            self.has_graft(graft),
            later.extends(self),
        ensures
            later.has_graft(graft),
    {
        assert forall|i: int| 0 <= i < graft.instructions.len() implies later.has_instruction(
            #[trigger] graft.instructions[i],
            graft.registers,
        ) by {
            assert(self.has_instruction(graft.instructions[i], graft.registers));
            if let Instruction::Nilary { port, value: Nilary::Value(value) } =
                graft.instructions[i] {
                value.lemma_in_larger_arenas(
                    self.programs.len(),
                    self.grafts.len(),
                    later.programs.len(),
                    later.grafts.len(),
                );
            }
        }
    }

    /// Whether `self` came out of `earlier` by adding to it.
    pub open spec fn extends(self, earlier: HostView) -> bool {
        &&& earlier.grafts.is_prefix_of(self.grafts)
        &&& earlier.programs.is_prefix_of(self.programs)
        &&& earlier.tys.is_prefix_of(self.tys)
        &&& earlier.fns.is_prefix_of(self.fns)
        &&& earlier.mailboxes <= self.mailboxes
    }
}

/// An extrinsic function that is to be registered.
#[derive(Debug)]
pub struct Extrinsic {
    pub path: String,
    pub kind: ExtFnKind,
}

impl Extrinsic {
    /// The names and kinds of `extrinsics`.
    pub open spec fn listed(extrinsics: Seq<Extrinsic>) -> Seq<(Seq<char>, ExtFnKind)> {
        Seq::new(extrinsics.len(), |i: int| (extrinsics[i].path@, extrinsics[i].kind))
    }
}

impl HostView {
    /// A host with nothing registered and nothing compiled.
    pub open spec fn empty() -> HostView {
        HostView {
            grafts: Seq::empty(),
            programs: Seq::empty(),
            tys: Seq::empty(),
            fns: Seq::empty(),
            mailboxes: 0,
        }
    }

    /// The host that knows the type `name`.
    pub open spec fn with_ty(self, name: TyName) -> HostView {
        if self.tys.contains(name) {
            self
        } else {
            HostView { tys: self.tys.push(name), ..self }
        }
    }

    /// The identifier of the type `name`, which the host knows.
    pub open spec fn ty(self, name: TyName) -> ExtTy {
        ExtTy { ty_id: self.tys.index_of(name) as usize }
    }

    /// The host with one more mailbox.
    pub open spec fn with_mailbox(self) -> HostView {
        HostView { mailboxes: self.mailboxes + 1, ..self }
    }

    /// The host with one more extrinsic function. One that instantiates grafts brings
    /// the type of its input along.
    pub open spec fn with_fn(self, name: NameId, kind: ExtFnKind) -> HostView {
        let host = if kind == ExtFnKind::InvokeGraft {
            self.with_ty(TyName::Graft)
        } else {
            self
        };
        HostView { fns: host.fns.push(ExtFn { name, kind }), ..host }
    }

    /// The names after those of `extrinsics` were added.
    pub open spec fn interned(names: Seq<Seq<char>>, extrinsics: Seq<(Seq<char>, ExtFnKind)>) -> Seq<
        Seq<char>,
    >
        decreases extrinsics.len(),
    {
        if extrinsics.len() == 0 {
            names
        } else {
            Table::interned(
                HostView::interned(names, extrinsics.drop_last()),
                extrinsics.last().0,
            )
        }
    }

    /// The host after `extrinsics` were registered in order.
    pub open spec fn registered(
        self,
        names: Seq<Seq<char>>,
        extrinsics: Seq<(Seq<char>, ExtFnKind)>,
    ) -> HostView
        decreases extrinsics.len(),
    {
        if extrinsics.len() == 0 {
            self
        } else {
            self.registered(names, extrinsics.drop_last()).with_fn(
                Table::id(HostView::interned(names, extrinsics), extrinsics.last().0),
                extrinsics.last().1,
            )
        }
    }

    pub proof fn lemma_extends_self(self)
        ensures
            self.extends(self),
    {
        assert(self.grafts =~= self.grafts.subrange(0, self.grafts.len() as int));
        assert(self.programs =~= self.programs.subrange(0, self.programs.len() as int));
        assert(self.tys =~= self.tys.subrange(0, self.tys.len() as int));
        assert(self.fns =~= self.fns.subrange(0, self.fns.len() as int));
    }

    pub proof fn lemma_extends_further(self, later: HostView, latest: HostView)
        requires
            later.extends(self),
            latest.extends(later),
        ensures
            latest.extends(self),
    {
        assert(self.grafts =~= latest.grafts.subrange(0, self.grafts.len() as int));
        assert(self.programs =~= latest.programs.subrange(0, self.programs.len() as int));
        assert(self.tys =~= latest.tys.subrange(0, self.tys.len() as int));
        assert(self.fns =~= latest.fns.subrange(0, self.fns.len() as int));
    }

    /// A type keeps its identifier.
    pub proof fn lemma_ty_later(self, later: HostView, name: TyName)
        requires
            later.extends(self),
            later.tys.no_duplicates(),
            self.tys.contains(name),
        ensures
            later.ty(name) == self.ty(name),
            later.tys.contains(name),
    {
        let i = self.tys.index_of(name);
        assert(later.tys[i] == self.tys[i]);
    }

    /// One more program whose grafts are there.
    pub proof fn lemma_program_added(self, later: HostView, program: Seq<(NameId, GraftId)>)
        requires
            self.wf(),
            self.has_program(program),
            later == (HostView { programs: self.programs.push(program), ..self }),
        ensures
            later.wf(),
            later.extends(self),
    {
        self.lemma_extends_self();
        assert(self.programs =~= later.programs.subrange(0, self.programs.len() as int));
        assert forall|i: int| 0 <= i < later.grafts.len() implies later.has_graft(
            #[trigger] later.grafts[i],
        ) by {
            self.lemma_has_graft_later(later, self.grafts[i]);
        }
        assert forall|i: int| 0 <= i < later.programs.len() implies later.has_program(
            #[trigger] later.programs[i],
        ) by {
            if i < self.programs.len() {
                assert(self.has_program(self.programs[i]));
            }
        }
    }

    /// Registering leaves everything compiled as it was.
    pub(crate) proof fn lemma_wf_registered(self, later: HostView)
        requires
            self.wf(),
            later.grafts == self.grafts,
            later.programs == self.programs,
            self.tys.is_prefix_of(later.tys),
            self.fns.is_prefix_of(later.fns),
            later.tys.no_duplicates(),
            later.mailboxes >= self.mailboxes,
            forall|i: int| 0 <= i < later.fns.len() ==> later.has_kind(
                (#[trigger] later.fns[i]).kind,
            ),
        ensures
            later.wf(),
            later.extends(self),
    {
        assert(self.grafts =~= later.grafts.subrange(0, self.grafts.len() as int));
        assert(self.programs =~= later.programs.subrange(0, self.programs.len() as int));
        assert forall|i: int| 0 <= i < later.grafts.len() implies later.has_graft(
            #[trigger] later.grafts[i],
        ) by {
            self.lemma_has_graft_later(later, self.grafts[i]);
        }
        assert forall|i: int| 0 <= i < later.programs.len() implies later.has_program(
            #[trigger] later.programs[i],
        ) by {
            assert(self.has_program(self.programs[i]));
        }
    }
}

impl IVM {
    /// Arenas without contents.
    pub fn new() -> (ivm: IVM)
        ensures
            ivm.grafts@.len() == 0,
            ivm.programs@.len() == 0,
    {
        IVM { grafts: Vec::new(), programs: Vec::new() }
    }
}

impl Host {
    /// A host with nothing registered.
    pub fn new(ivm: IVM) -> (host: Host)
        ensures
            host.ivm == ivm,
            host@.tys == Seq::<TyName>::empty(),
            host@.fns == Seq::<ExtFn>::empty(),
            host.mailboxes@.len() == 0,
            ivm.grafts@.len() == 0 && ivm.programs@.len() == 0 ==> {
                &&& host@ == HostView::empty()
                &&& host@.wf()
            },
    {
        let host = Host {
            ivm,
            ext_tys: Vec::new(),
            ext_fns: Vec::new(),
            mailboxes: Mailboxes::new(),
        };
        proof {
            if ivm.grafts@.len() == 0 && ivm.programs@.len() == 0 {
                assert(host@ =~= HostView::empty());
            }
        }
        host
    }

    /// The registered type with the name `name`, which is registered if it is not yet.
    pub fn register_ext_ty(&mut self, name: TyName) -> (ty: ExtTy)
        requires
            old(self)@.wf(),
        ensures
            final(self)@ == old(self)@.with_ty(name),
            ty == final(self)@.ty(name),
            ty.ty_id < final(self)@.tys.len(),
            final(self)@.tys[ty.ty_id as int] == name,
            final(self).mailboxes == old(self).mailboxes,
            final(self)@.wf(),
            final(self)@.extends(old(self)@),
    {
        let mut i: usize = 0;
        while i < self.ext_tys.len()
            invariant
                *self == *old(self),
                self@.wf(),
                i <= self.ext_tys@.len(),
                forall|j: int| 0 <= j < i ==> #[trigger] self@.tys[j] != name,
            decreases self.ext_tys@.len() - i,
        {
            if self.ext_tys[i] == name {
                assert(self@.tys[i as int] == name);
                proof {
                    self@.lemma_wf_registered(self@);
                }
                return ExtTy { ty_id: i };
            }
            assert(self@.tys[i as int] != name);
            i += 1;
        }
        assert(!self@.tys.contains(name));
        self.ext_tys.push(name);
        proof {
            assert(self@ =~= old(self)@.with_ty(name));
            assert(self@.tys[i as int] == name);
            assert(old(self)@.tys =~= self@.tys.subrange(0, i as int));
            assert(old(self)@.fns =~= self@.fns.subrange(0, self@.fns.len() as int));
            old(self)@.lemma_wf_registered(self@);
        }
        ExtTy { ty_id: i }
    }

    /// Registers `extrinsics` in order; their labels continue those that are taken.
    pub fn register(&mut self, table: &mut Table, extrinsics: Vec<Extrinsic>)
        requires
            old(self)@.wf(),
            old(table).wf(),
            old(self)@.named(old(table)@),
            old(self)@.has_kinds(Extrinsic::listed(extrinsics@)),
        ensures
            final(table)@ == HostView::interned(old(table)@, Extrinsic::listed(extrinsics@)),
            final(self)@ == old(self)@.registered(old(table)@, Extrinsic::listed(extrinsics@)),
            final(self).mailboxes == old(self).mailboxes,
            final(self)@.wf(),
            final(table).wf(),
            final(self)@.named(final(table)@),
            final(self)@.extends(old(self)@),
            old(table)@.is_prefix_of(final(table)@),
    {
        proof {
            self@.lemma_wf_registered(self@);
        }
        let ghost list = Extrinsic::listed(extrinsics@);
        let mut i: usize = 0;
        while i < extrinsics.len()
            invariant
                list == Extrinsic::listed(extrinsics@),
                i <= extrinsics@.len(),
                table@ == HostView::interned(old(table)@, list.take(i as int)),
                self@ == old(self)@.registered(old(table)@, list.take(i as int)),
                self.mailboxes == old(self).mailboxes,
                old(self)@.has_kinds(list),
                self@.wf(),
                table.wf(),
                self@.named(table@),
                self@.extends(old(self)@),
                old(table)@.is_prefix_of(table@),
            decreases extrinsics@.len() - i,
        {
            let ghost before = self@;
            let ghost names = table@;
            proof {
                assert(list.take(i + 1).drop_last() =~= list.take(i as int));
                Table::lemma_interned(names, extrinsics@[i as int].path@);
            }
            let name = table.add_path_name(&extrinsics[i].path);
            if extrinsics[i].kind == ExtFnKind::InvokeGraft {
                let graft = self.register_ext_ty(TyName::Graft);
            }
            let ghost typed = self@;
            self.ext_fns.push(ExtFn { name, kind: extrinsics[i].kind });
            proof {
                assert(self@ =~= before.with_fn(name, extrinsics@[i as int].kind));
                assert(typed.fns =~= self@.fns.subrange(0, typed.fns.len() as int));
                assert(self@.has_kind(list[i as int].1));
                assert forall|j: int| 0 <= j < self@.fns.len() implies self@.has_kind(
                    (#[trigger] self@.fns[j]).kind,
                ) by {
                    if j < typed.fns.len() {
                        assert(typed.has_kind(typed.fns[j].kind));
                    }
                }
                typed.lemma_wf_registered(self@);
                assert(old(self)@.grafts =~= self@.grafts.subrange(
                    0,
                    old(self)@.grafts.len() as int,
                ));
            }
            i += 1;
        }
        assert(list.take(i as int) =~= list);
    }

    /// A runtime for this host. Its net has no wires yet, so that no request can wait for
    /// an answer on one of them.
    pub fn init(self, heap: Heap) -> (runtime: Runtime)
        requires
            self@.wf(),
            self.mailboxes.are_empty(),
        ensures
            runtime@ == Net::initial(self@),
            runtime.wf(),
    {
        Runtime::new(heap, self)
    }
}

} // verus!
