//! What becomes of programs: how they are compiled, loaded, resolved and run.
use vstd::prelude::*;

use crate::host::dynamic::{DynamicProgramMailbox, DynamicProgramRequest};
use crate::host::loader::{DynamicProgramLoader, ParsedSource};
use crate::host::module::{GraftHandle, ProgramHandle};
use crate::host::names::{NameId, Table};
use crate::host::runner::{RunOutcome, RunnerView};
use crate::host::HostView;
use crate::program::{FlatNet, FlatNode, Program};
use crate::runtime::ext::{ExtFn, ExtFnKind, ExtTy, ExtVal, Payload, TyName};
use crate::runtime::flags::Flags;
use crate::runtime::graft::{GraftId, GraftView, Instruction, Nilary};
use crate::runtime::meaning::Reading;
use crate::runtime::net::Net;
use crate::runtime::port::{NodeKind, Port};
use crate::runtime::wire::Wire;

verus! {

// ---- names ----

/// A name that is added is there, and stands for its path; those that were there before stay
/// where they are, and at most one is new.
pub proof fn names_stand_for_their_paths(names: Seq<Seq<char>>, path: Seq<char>)
    requires
        names.no_duplicates(),
        names.len() < usize::MAX,
    ensures
        ({
            let later = Table::interned(names, path);
            let id = Table::id(later, path);
            &&& id.index < later.len()
            &&& later[id.index as int] == path
            &&& later.no_duplicates()
            &&& names.len() <= later.len() <= names.len() + 1
            &&& forall|i: int| 0 <= i < names.len() ==> #[trigger] later[i] == names[i]
        }),
{
    Table::lemma_interned(names, path);
    let later = Table::interned(names, path);
    let i = later.index_of(path);
    assert(later.contains(path));
    Table::lemma_id(later, i);
}

/// Looking a name up finds the graft of the first entry with that name, and nothing if no
/// entry has it.
pub proof fn lookups_find_the_first_entry(
    entries: Seq<(NameId, GraftId)>,
    name: NameId,
    i: int,
)
    ensures
        0 <= i < entries.len() && entries[i].0 == name && (forall|j: int|
            0 <= j < i ==> (#[trigger] entries[j]).0 != name) ==> Program::lookup(entries, name)
            == Some(entries[i].1),
        (forall|j: int| 0 <= j < entries.len() ==> (#[trigger] entries[j]).0 != name)
            ==> Program::lookup(entries, name) is None,
    decreases entries.len(),
{
    if entries.len() > 0 {
        let rest = entries.drop_last();
        lookups_find_the_first_entry(rest, name, i);
        assert forall|j: int| 0 <= j < rest.len() implies #[trigger] rest[j] == entries[j] by {}
        if forall|j: int| 0 <= j < entries.len() ==> (#[trigger] entries[j]).0 != name {
            assert forall|j: int| 0 <= j < rest.len() implies (#[trigger] rest[j]).0 != name by {
                assert(entries[j].0 != name);
            }
            assert(entries[entries.len() - 1].0 != name);
        }
        if 0 <= i < entries.len() && entries[i].0 == name && (forall|j: int|
            0 <= j < i ==> (#[trigger] entries[j]).0 != name) {
            assert forall|j: int| 0 <= j < i implies (#[trigger] rest[j]).0 != name by {
                assert(entries[j].0 != name);
            }
            if i < rest.len() {
                assert(rest[i].0 == name);
            }
        }
    }
}

/// Whether entry `i` of a program is the first with the path `path`.
pub open spec fn is_entry(
    program: Seq<(NameId, GraftId)>,
    names: Seq<Seq<char>>,
    path: Seq<char>,
    i: int,
) -> bool {
    &&& 0 <= i < program.len()
    &&& names[program[i].0.index as int] == path
    &&& forall|j: int| 0 <= j < i ==> names[(#[trigger] program[j]).0.index as int] != path
}

/// Whether all names of a program are among `names`.
pub open spec fn is_named(program: Seq<(NameId, GraftId)>, names: Seq<Seq<char>>) -> bool {
    forall|i: int| 0 <= i < program.len() ==> (#[trigger] program[i]).0.index < names.len()
}

/// A path is resolved to the graft of the first entry with that path, and to nothing if there
/// is none.
pub proof fn paths_are_resolved_to_their_entries(
    program: Seq<(NameId, GraftId)>,
    names: Seq<Seq<char>>,
    path: Seq<char>,
    i: int,
)
    requires
        names.no_duplicates(),
        names.len() < usize::MAX,
        is_named(program, names),
    ensures
        is_entry(program, names, path, i) ==> DynamicProgramLoader::resolved(program, names, path)
            == Some(program[i].1),
        (forall|j: int|
            0 <= j < program.len() ==> names[(#[trigger] program[j]).0.index as int] != path)
            ==> DynamicProgramLoader::resolved(program, names, path) is None,
{
    let later = Table::interned(names, path);
    let id = Table::id(later, path);
    names_stand_for_their_paths(names, path);
    assert forall|j: int| 0 <= j < program.len() implies ((#[trigger] program[j]).0 == id
        <==> names[program[j].0.index as int] == path) by {
        assert(program[j].0.index < names.len());
        assert(later[program[j].0.index as int] == names[program[j].0.index as int]);
    }
    lookups_find_the_first_entry(program, id, i);
}

// ---- compiling ----

/// Whether net `i` is the first with the name `path`.
pub open spec fn is_net(nets: Seq<(String, FlatNet)>, path: Seq<char>, i: int) -> bool {
    &&& 0 <= i < nets.len()
    &&& nets[i].0@ == path
    &&& forall|j: int| 0 <= j < i ==> (#[trigger] nets[j]).0@ != path
}

/// Whether function `i` is the first with the name `path`.
pub open spec fn is_fn(
    fns: Seq<ExtFn>,
    names: Seq<Seq<char>>,
    path: Seq<char>,
    i: int,
) -> bool {
    &&& 0 <= i < fns.len()
    &&& fns[i].name.index < names.len()
    &&& names[fns[i].name.index as int] == path
    &&& forall|j: int|
        0 <= j < i && (#[trigger] fns[j]).name.index < names.len()
            ==> names[fns[j].name.index as int] != path
}

/// Whether an instruction instantiates the agent that `node` is, between the same wires: the
/// graft of the first net with its name, or a call of the first function with its name.
pub open spec fn is_agent(
    node: FlatNode,
    instruction: Instruction,
    nets: Seq<(String, FlatNet)>,
    names: Seq<Seq<char>>,
    fns: Seq<ExtFn>,
    base: nat,
) -> bool {
    match node {
        FlatNode::Erase { port } => instruction == Instruction::Nilary {
            port,
            value: Nilary::Erase,
        },
        FlatNode::Global { path, port } => {
            &&& instruction matches Instruction::Nilary { port: p, value: Nilary::Graft(graft) }
            &&& p == port
            &&& is_net(nets, path@, graft.index - base)
        },
        FlatNode::Value { value, port } => instruction == Instruction::Nilary {
            port,
            value: Nilary::Value(value),
        },
        FlatNode::Comb { label, principal, left, right } => instruction == Instruction::Binary {
            kind: NodeKind::Comb,
            label,
            principal,
            left,
            right,
        },
        FlatNode::ExtFn { path, principal, left, right } => {
            &&& instruction matches Instruction::Binary {
                kind,
                label,
                principal: p,
                left: l,
                right: r,
            }
            &&& kind == NodeKind::ExtFn
            &&& p == principal && l == left && r == right
            &&& is_fn(fns, names, path@, label as int)
        },
    }
}

/// Whether a graft has the wires and the agents of `net`.
pub open spec fn is_graft_of(
    net: FlatNet,
    graft: GraftView,
    nets: Seq<(String, FlatNet)>,
    names: Seq<Seq<char>>,
    fns: Seq<ExtFn>,
    base: nat,
) -> bool {
    &&& graft.registers == net.wires
    &&& graft.instructions.len() == net.nodes@.len()
    &&& forall|i: int|
        0 <= i < net.nodes@.len() ==> is_agent(
            #[trigger] net.nodes@[i],
            graft.instructions[i],
            nets,
            names,
            fns,
            base,
        )
}

/// Whether a program has an entry for every net, with its name and its graft, in their order.
pub open spec fn is_program_of(
    program: Seq<(NameId, GraftId)>,
    nets: Seq<(String, FlatNet)>,
    names: Seq<Seq<char>>,
    base: nat,
) -> bool {
    &&& program.len() == nets.len()
    &&& forall|i: int|
        0 <= i < nets.len() ==> {
            &&& (#[trigger] program[i]).0.index < names.len()
            &&& names[program[i].0.index as int] == nets[i].0@
            &&& program[i].1.index == base + i
        }
}

pub(crate) proof fn fns_are_found(fns: Seq<ExtFn>, names: Seq<Seq<char>>, path: Seq<char>)
    requires
        crate::program::fn_label(fns, names, path) is Some,
    ensures
        is_fn(fns, names, path, crate::program::fn_label(fns, names, path)->0),
    decreases fns.len(),
{
    let rest = fns.drop_last();
    assert forall|j: int| 0 <= j < rest.len() implies #[trigger] rest[j] == fns[j] by {}
    if crate::program::fn_label(rest, names, path) is Some {
        fns_are_found(rest, names, path);
        let label = crate::program::fn_label(rest, names, path)->0;
        assert forall|j: int|
            0 <= j < label && (#[trigger] fns[j]).name.index
                < names.len() implies names[fns[j].name.index as int] != path by {
            assert(rest[j] == fns[j]);
        }
        assert(rest[label] == fns[label]);
    } else {
        no_fn_is_found(rest, names, path);
        assert forall|j: int|
            0 <= j < fns.len() - 1 && (#[trigger] fns[j]).name.index
                < names.len() implies names[fns[j].name.index as int] != path by {
            assert(rest[j] == fns[j]);
        }
        assert(fns[fns.len() - 1] == fns.last());
    }
}

pub(crate) proof fn no_fn_is_found(fns: Seq<ExtFn>, names: Seq<Seq<char>>, path: Seq<char>)
    requires
        crate::program::fn_label(fns, names, path) is None,
    ensures
        forall|j: int|
            0 <= j < fns.len() && (#[trigger] fns[j]).name.index < names.len()
                ==> names[fns[j].name.index as int] != path,
    decreases fns.len(),
{
    if fns.len() > 0 {
        let rest = fns.drop_last();
        no_fn_is_found(rest, names, path);
        assert forall|j: int|
            0 <= j < fns.len() && (#[trigger] fns[j]).name.index
                < names.len() implies names[fns[j].name.index as int] != path by {
            if j < rest.len() {
                assert(rest[j] == fns[j]);
            } else {
                assert(fns[j] == fns.last());
            }
        }
    }
}

/// Compiling nets adds one graft for each of them, with the same wires and agents, and changes
/// nothing else of the host. The program lists them all by name.
pub proof fn nets_are_compiled_as_they_are(
    host: HostView,
    names: Seq<Seq<char>>,
    nets: Seq<(String, FlatNet)>,
)
    requires
        names.no_duplicates(),
        Program::encodable(nets, names, host),
        Program::interned(names, nets).len() <= usize::MAX,
        host.grafts.len() + nets.len() <= usize::MAX,
        host.fns.len() <= usize::MAX,
    ensures
        ({
            let later = Program::hosted(host, names, nets);
            let base = host.grafts.len();
            &&& later == HostView { grafts: later.grafts, ..host }
            &&& later.grafts.len() == base + nets.len()
            &&& forall|i: int| 0 <= i < base ==> #[trigger] later.grafts[i] == host.grafts[i]
            &&& forall|i: int|
                0 <= i < nets.len() ==> is_graft_of(
                    (#[trigger] nets[i]).1,
                    later.grafts[base + i],
                    nets,
                    names,
                    host.fns,
                    base,
                )
            &&& is_program_of(
                Program::compiled(names, nets, base),
                nets,
                Program::interned(names, nets),
                base,
            )
        }),
{
    let later = Program::hosted(host, names, nets);
    let base = host.grafts.len();
    let interned = Program::interned(names, nets);
    let program = Program::compiled(names, nets, base);
    Program::lemma_interned(names, nets);
    assert forall|i: int| 0 <= i < nets.len() implies is_graft_of(
        (#[trigger] nets[i]).1,
        later.grafts[base + i],
        nets,
        names,
        host.fns,
        base,
    ) by {
        let net = nets[i].1;
        let graft = later.grafts[base + i];
        assert(graft == net.encoded(nets, names, host.fns, base));
        assert(net.encodable(nets, names, host));
        assert forall|k: int| 0 <= k < net.nodes@.len() implies is_agent(
            #[trigger] net.nodes@[k],
            graft.instructions[k],
            nets,
            names,
            host.fns,
            base,
        ) by {
            let node = net.nodes@[k];
            assert(node.encodable(net.wires, nets, names, host));
            match node {
                FlatNode::Global { path, port } => {
                    crate::program::lemma_net_index(nets, path@);
                },
                FlatNode::ExtFn { path, principal, left, right } => {
                    fns_are_found(host.fns, names, path@);
                },
                _ => {},
            }
        }
    }
    assert forall|i: int| 0 <= i < nets.len() implies {
        &&& (#[trigger] program[i]).0.index < interned.len()
        &&& interned[program[i].0.index as int] == nets[i].0@
        &&& program[i].1.index == base + i
    } by {
        Program::lemma_interned_contains(names, nets, i);
        let k = interned.index_of(nets[i].0@);
        Table::lemma_id(interned, k);
    }
}

/// All names of nets that were compiled are among those that the loader knows then; it
/// knows those that it knew before, in the same places.
pub proof fn names_of_nets_are_added(
    names: Seq<Seq<char>>,
    nets: Seq<(String, FlatNet)>,
    i: int,
)
    requires
        names.no_duplicates(),
        0 <= i < nets.len(),
    ensures
        Program::interned(names, nets).contains(nets[i].0@),
        names.is_prefix_of(Program::interned(names, nets)),
        Program::interned(names, nets).no_duplicates(),
{
    Program::lemma_interned(names, nets);
    Program::lemma_interned_contains(names, nets, i);
}

// ---- answering ----

/// Whether `after` came out of `before` by linking `output` to a value of type `ty`, and by
/// what was compiled and named meanwhile.
pub open spec fn is_answered(
    before: RunnerView,
    after: RunnerView,
    output: Wire,
    ty: ExtTy,
    payload: Payload,
) -> bool {
    after == RunnerView {
        net: (Net { host: after.net.host, ..before.net }).linked(
            Port::Wire(output),
            Port::ExtVal(ExtVal { ty_id: ty.ty_id, payload }),
        ),
        names: after.names,
        ..before
    }
}

/// Whether entry `i` is the first that says what `source` stands for.
pub open spec fn is_parsed(parsed: Seq<ParsedSource>, source: Seq<char>, i: int) -> bool {
    &&& 0 <= i < parsed.len()
    &&& parsed[i].source@ == source
    &&& forall|j: int| 0 <= j < i ==> (#[trigger] parsed[j]).source@ != source
}

proof fn parsed_is_found(parsed: Seq<ParsedSource>, source: Seq<char>, i: int)
    requires
        is_parsed(parsed, source, i),
    ensures
        ParsedSource::index(parsed, source) == Some(i),
{
    ParsedSource::lemma_index(parsed, source);
    assert(parsed[i].source@ == source);
}

/// A request to parse a text is answered with a handle to the program that the nets of that
/// text were compiled to: in the host after the answer, the handle points to a program that
/// has exactly the nets of that text, by name. Everything that was compiled before stays,
/// and the answer has the type of such answers.
pub proof fn texts_are_answered_with_their_program(
    before: RunnerView,
    parsed: Seq<ParsedSource>,
    after: RunnerView,
    source: String,
    output: Wire,
    i: int,
    nets: Vec<(String, FlatNet)>,
)
    requires
        before.names.no_duplicates(),
        before.answered(DynamicProgramRequest::ParseIvy { source, output }, parsed, after),
        is_parsed(parsed, source@, i),
        parsed[i].nets == Ok::<Vec<(String, FlatNet)>, crate::host::module::CompileError>(nets),
        Program::encodable(nets@, before.names, before.net.host),
        Program::interned(before.names, nets@).len() <= usize::MAX,
        before.net.host.grafts.len() + nets@.len() <= usize::MAX,
        before.net.host.programs.len() < usize::MAX,
        before.net.host.fns.len() <= usize::MAX,
    ensures
        exists|program: ProgramHandle|
            {
                &&& #[trigger] is_answered(
                    before,
                    after,
                    output,
                    before.compile_ty,
                    Payload::CompileResult(Ok(program)),
                )
                &&& loads(before, after, program, nets@)
            },
{
    parsed_is_found(parsed, source@, i);
    let host = before.net.host;
    let program = ProgramHandle { index: host.programs.len() as usize };
    nets_are_compiled_as_they_are(host, before.names, nets@);
    Program::lemma_interned(before.names, nets@);
    let loaded = DynamicProgramLoader::loaded(host, before.names, nets@);
    let answer = Port::ExtVal(
        ExtVal {
            ty_id: before.compile_ty.ty_id,
            payload: Payload::CompileResult(Ok(program)),
        },
    );
    before.net.with_host(loaded).lemma_linked_quiet(Port::Wire(output), answer);
    assert(after.net.host == loaded);
    assert(before.net.with_host(loaded) == Net { host: loaded, ..before.net });
    assert(is_answered(
        before,
        after,
        output,
        before.compile_ty,
        Payload::CompileResult(Ok(program)),
    ));
}

/// Whether `program` is a handle to what `nets` were compiled to, as all that was added.
pub open spec fn loads(
    before: RunnerView,
    after: RunnerView,
    program: ProgramHandle,
    nets: Seq<(String, FlatNet)>,
) -> bool {
    let (host, later) = (before.net.host, after.net.host);
    let base = host.grafts.len();
    &&& program.index < later.programs.len()
    &&& is_program_of(later.programs[program.index as int], nets, after.names, base)
    &&& later.grafts.len() == base + nets.len()
    &&& forall|i: int|
        0 <= i < nets.len() ==> is_graft_of(
            (#[trigger] nets[i]).1,
            later.grafts[base + i],
            nets,
            before.names,
            host.fns,
            base,
        )
    &&& forall|i: int| 0 <= i < base ==> #[trigger] later.grafts[i] == host.grafts[i]
    &&& later.programs.len() == host.programs.len() + 1
    &&& forall|i: int|
        0 <= i < host.programs.len() ==> #[trigger] later.programs[i] == host.programs[i]
    &&& later.tys == host.tys
    &&& later.fns == host.fns
    &&& before.names.is_prefix_of(after.names)
    &&& after.names.no_duplicates()
}

/// A request to parse a text that stands for no nets is answered with the message that says
/// why; nothing is compiled or named.
pub proof fn broken_texts_are_answered_with_their_error(
    before: RunnerView,
    parsed: Seq<ParsedSource>,
    after: RunnerView,
    source: String,
    output: Wire,
    i: int,
    error: crate::host::module::CompileError,
)
    requires
        before.answered(DynamicProgramRequest::ParseIvy { source, output }, parsed, after),
        is_parsed(parsed, source@, i),
        parsed[i].nets == Err::<Vec<(String, FlatNet)>, crate::host::module::CompileError>(error),
    ensures
        exists|text: String|
            {
                &&& #[trigger] is_answered(
                    before,
                    after,
                    output,
                    before.compile_ty,
                    Payload::CompileResult(Err(text)),
                )
                &&& error matches crate::host::module::CompileError::Parse { message }
                    ==> text@ == message@
                &&& error matches crate::host::module::CompileError::Flatten { message }
                    ==> text@ == message@
            },
        after.net.host == before.net.host,
        after.names == before.names,
        after.errors == before.errors,
{
    parsed_is_found(parsed, source@, i);
    let text = choose|text: String| #[trigger]
        text@ == error.text() && after == before.replied(
            DynamicProgramRequest::ParseIvy { source, output },
            crate::host::dynamic::DynamicProgramService::compile_answer(
                before.compile_ty,
                Err(text),
            ),
        );
    let answer = Port::ExtVal(
        ExtVal { ty_id: before.compile_ty.ty_id, payload: Payload::CompileResult(Err(text)) },
    );
    before.net.lemma_linked_quiet(Port::Wire(output), answer);
    assert(Net { host: after.net.host, ..before.net } == before.net);
    assert(is_answered(
        before,
        after,
        output,
        before.compile_ty,
        Payload::CompileResult(Err(text)),
    ));
}

/// A request to resolve a path is answered with the graft of the first entry with that path of
/// the program that the request names, whatever other programs there are; and with an error
/// that names the path exactly if that program has no such entry.
pub proof fn entries_are_resolved_in_their_program(
    before: RunnerView,
    parsed: Seq<ParsedSource>,
    after: RunnerView,
    module: ProgramHandle,
    entry: String,
    output: Wire,
    i: int,
)
    requires
        before.names.no_duplicates(),
        before.names.len() < usize::MAX,
        module.index < before.net.host.programs.len(),
        is_named(before.net.host.programs[module.index as int], before.names),
        before.answered(DynamicProgramRequest::Resolve { module, entry, output }, parsed, after),
    ensures
        is_entry(
            before.net.host.programs[module.index as int],
            before.names,
            entry@,
            i,
        ) ==> is_answered(
            before,
            after,
            output,
            before.resolve_ty,
            Payload::ResolveResult(
                Ok(GraftHandle { graft: before.net.host.programs[module.index as int][i].1 }),
            ),
        ),
        (forall|j: int|
            0 <= j < before.net.host.programs[module.index as int].len() ==> before.names[(
            #[trigger] before.net.host.programs[module.index as int][j]).0.index as int] != entry@)
            ==> exists|text: String|
            {
                &&& #[trigger] is_answered(
                    before,
                    after,
                    output,
                    before.resolve_ty,
                    Payload::ResolveResult(Err(text)),
                )
                &&& text@ == "missing Ivy entry '"@ + entry@ + "'"@
            },
        after.net.host == before.net.host,
        before.names.is_prefix_of(after.names),
{
    let program = before.net.host.programs[module.index as int];
    let request = DynamicProgramRequest::Resolve { module, entry, output };
    paths_are_resolved_to_their_entries(program, before.names, entry@, i);
    Table::lemma_interned(before.names, entry@);
    match DynamicProgramLoader::resolved(program, before.names, entry@) {
        Some(graft) => {
            let answer = Port::ExtVal(
                ExtVal {
                    ty_id: before.resolve_ty.ty_id,
                    payload: Payload::ResolveResult(Ok(GraftHandle { graft })),
                },
            );
            before.net.lemma_linked_quiet(Port::Wire(output), answer);
        },
        None => {
            let named = RunnerView { names: Table::interned(before.names, entry@), ..before };
            let text = choose|text: String| #[trigger]
                text@ == RunnerView::missing_entry(entry@) && after == named.replied(
                    request,
                    crate::host::dynamic::DynamicProgramService::resolve_answer(
                        before.resolve_ty,
                        Err(text),
                    ),
                );
            let answer = Port::ExtVal(
                ExtVal {
                    ty_id: before.resolve_ty.ty_id,
                    payload: Payload::ResolveResult(Err(text)),
                },
            );
            before.net.lemma_linked_quiet(Port::Wire(output), answer);
            assert(Net { host: after.net.host, ..before.net } == before.net);
            assert(is_answered(
                before,
                after,
                output,
                before.resolve_ty,
                Payload::ResolveResult(Err(text)),
            ));
        },
    }
    assert(Net { host: after.net.host, ..before.net } == before.net);
}

/// What is resolved through the handle of a text is found in that text: once a text was
/// answered with a handle, a request to resolve a path of that program is answered with the
/// graft of the first net of the text with that name, and with an error exactly if there is
/// none, whatever was loaded and named before and in between.
pub proof fn handles_resolve_the_nets_of_their_text(
    before: RunnerView,
    mid: RunnerView,
    program: ProgramHandle,
    nets: Seq<(String, FlatNet)>,
    later: RunnerView,
    parsed: Seq<ParsedSource>,
    after: RunnerView,
    entry: String,
    output: Wire,
    i: int,
)
    requires
        loads(before, mid, program, nets),
        later.net.host.extends(mid.net.host),
        mid.names.is_prefix_of(later.names),
        later.names.no_duplicates(),
        later.names.len() < usize::MAX,
        before.net.host.grafts.len() + nets.len() <= usize::MAX,
        later.answered(
            DynamicProgramRequest::Resolve { module: program, entry, output },
            parsed,
            after,
        ),
    ensures
        is_net(nets, entry@, i) ==> is_answered(
            later,
            after,
            output,
            later.resolve_ty,
            Payload::ResolveResult(
                Ok(
                    GraftHandle {
                        graft: GraftId { index: (before.net.host.grafts.len() + i) as usize },
                    },
                ),
            ),
        ),
        (forall|j: int| 0 <= j < nets.len() ==> (#[trigger] nets[j]).0@ != entry@) ==> exists|
            text: String,
        | #[trigger]
            is_answered(
                later,
                after,
                output,
                later.resolve_ty,
                Payload::ResolveResult(Err(text)),
            ),
{
    let entries = mid.net.host.programs[program.index as int];
    assert(later.net.host.programs[program.index as int] == entries);
    assert forall|j: int| 0 <= j < entries.len() implies {
        &&& (#[trigger] entries[j]).0.index < later.names.len()
        &&& later.names[entries[j].0.index as int] == nets[j].0@
    } by {
        assert(later.names[entries[j].0.index as int] == mid.names[entries[j].0.index as int]);
    }
    entries_are_resolved_in_their_program(later, parsed, after, program, entry, output, i);
    if is_net(nets, entry@, i) {
        assert(is_entry(entries, later.names, entry@, i)) by {
            assert forall|j: int| 0 <= j < i implies later.names[(
            #[trigger] entries[j]).0.index as int] != entry@ by {
                assert(nets[j].0@ != entry@);
            }
        }
        assert(entries[i].1 == GraftId { index: (before.net.host.grafts.len() + i) as usize });
    }
}

/// Requests are answered one by one, in the order in which they were left.
pub proof fn requests_are_answered_in_order(
    runner: RunnerView,
    first: Seq<DynamicProgramRequest>,
    request: DynamicProgramRequest,
    parsed: Seq<ParsedSource>,
    after: RunnerView,
)
    ensures
        runner.serviced(Seq::empty(), parsed, after) <==> after == runner,
        runner.serviced(first.push(request), parsed, after) <==> exists|mid: RunnerView|
            runner.serviced(first, parsed, mid) && #[trigger] mid.answered(
                request,
                parsed,
                after,
            ),
{
    let all = first.push(request);
    assert(all.drop_last() =~= first);
    assert(all.last() == request);
    if runner.serviced(all, parsed, after) {
        let mid = choose|mid: RunnerView| #[trigger]
            mid.answered(all.last(), parsed, after) && runner.serviced(
                all.drop_last(),
                parsed,
                mid,
            );
        assert(runner.serviced(first, parsed, mid) && mid.answered(request, parsed, after));
    }
    if exists|mid: RunnerView|
        runner.serviced(first, parsed, mid) && #[trigger] mid.answered(request, parsed, after) {
        let mid = choose|mid: RunnerView|
            runner.serviced(first, parsed, mid) && #[trigger] mid.answered(request, parsed, after);
        assert(mid.answered(all.last(), parsed, after) && runner.serviced(
            all.drop_last(),
            parsed,
            mid,
        ));
    }
}

/// The requests of a run are those in the mailbox of its service, the oldest first; when they
/// are taken, that mailbox is empty, and all else stays.
pub proof fn requests_come_out_of_the_mailbox(runner: RunnerView)
    requires
        runner.mailbox.index < runner.net.requests.len(),
    ensures
        runner.pending() == runner.net.requests[runner.mailbox.index as int],
        runner.relieved() == (RunnerView {
            net: Net {
                requests: runner.net.requests.update(
                    runner.mailbox.index as int,
                    Seq::empty(),
                ),
                ..runner.net
            },
            ..runner
        }),
        runner.settled() <==> runner.net.requests[runner.mailbox.index as int].len() == 0
            && runner.net.calls.len() == 0,
{
}

// ---- running ----

/// A run starts with the main graft facing a pair of the `IO` token and the root; there is
/// nothing else in its net. The main graft is that of the first net with the name `iv:main`,
/// and the token has the type that is registered for `IO`.
pub proof fn runs_start_with_the_token(
    host: HostView,
    mailbox: DynamicProgramMailbox,
    names: Seq<Seq<char>>,
    nets: Seq<(String, FlatNet)>,
    main: int,
    reading: Reading,
)
    requires
        host.wf(),
        host.tys.contains(TyName::Io),
        host.tys.len() <= usize::MAX,
        host.grafts.len() + nets.len() <= usize::MAX,
        is_net(nets, "iv:main"@, main),
    ensures
        ({
            let runner = RunnerView::started(host, mailbox, names, nets);
            let token = ExtVal { ty_id: runner.io.ty_id, payload: Payload::Io };
            let graft = GraftId { index: (host.grafts.len() + main) as usize };
            &&& host.tys.contains(TyName::CompileResult)
                ==> host.tys[runner.compile_ty.ty_id as int] == TyName::CompileResult
            &&& host.tys.contains(TyName::ResolveResult)
                ==> host.tys[runner.resolve_ty.ty_id as int] == TyName::ResolveResult
            &&& runner.io.ty_id < host.tys.len()
            &&& host.tys[runner.io.ty_id as int] == TyName::Io
            &&& runner.net.means(reading) ==> (reading.graft)(graft) == reading.made(
                NodeKind::Comb,
                0,
                (reading.value)(token),
                reading.at(runner.root),
            )
            &&& runner.net.fast.len() == 0
            &&& runner.net.slow.len() == 1
            &&& runner.net.slow[0].0 == Port::Graft(graft)
            &&& runner.net.calls.len() == 0
            &&& runner.net.flags == Flags::none()
            &&& runner.net.cells.len() == 2
            &&& runner.mailbox == mailbox
            &&& runner.names == names
            &&& runner.errors.len() == 0
            &&& runner.net.host == Program::hosted(host, names, nets)
        }),
{
    let runner = RunnerView::started(host, mailbox, names, nets);
    crate::program::lemma_net_index(nets, "iv:main"@);
    assert(nets[main].0@ == "iv:main"@);
    assert(crate::program::net_index(nets, "iv:main"@) == Some(main));
    let token = ExtVal { ty_id: runner.io.ty_id, payload: Payload::Io };
    let graft = GraftId { index: (host.grafts.len() + main) as usize };
    let first = Net::initial(Program::hosted(host, names, nets));
    let node = first.next_node(NodeKind::Comb, 0);
    assert(first.with_node().cells =~= seq![None::<Port>, None]);
    let stored = first.with_node().linked(Port::Wire(node.left), Port::ExtVal(token));
    assert(stored.cells =~= seq![Some(Port::ExtVal(token)), None]);
    assert(runner.net.slow =~= seq![(Port::Graft(graft), Port::Node(node))]);
    assert(runner.net.cells[0] == Some(Port::ExtVal(token)));
    assert(runner.net.slow[0] == (Port::Graft(graft), Port::Node(node)));
}

/// A run ends with `no_io` unset exactly if what is at the end of its root is a value whose
/// type is that of the `IO` token; a run whose root ends in anything else is not successful.
/// It ends with `vicious` set exactly if fewer wires were freed than allocated. All other
/// flags are those of its net, and so are the statistics; the errors are those of loading.
pub proof fn runs_end_with_the_token(runner: RunnerView, outcome: RunOutcome)
    requires
        runner.gives(outcome),
    ensures
        ({
            let (net, end) = runner.net.followed(Port::Wire(runner.root));
            &&& !outcome.flags.no_io <==> end is ExtVal && end->ExtVal_0.ty_id == runner.io.ty_id
            &&& outcome.flags.vicious <==> net.stats.mem_free < net.stats.mem_alloc
            &&& outcome.flags.ext_copy == runner.net.flags.ext_copy
            &&& outcome.flags.ext_erase == runner.net.flags.ext_erase
            &&& outcome.flags.ext_generic == runner.net.flags.ext_generic
            &&& outcome.stats == net.stats
            &&& outcome.ivy_errors@ == runner.errors
        }),
        !(runner.net.followed(Port::Wire(runner.root)).1 matches Port::ExtVal(value)
            && value.ty_id == runner.io.ty_id) ==> outcome.flags != Flags::none(),
        forall|i: int|
            0 <= i < runner.net.cells.len() && i == runner.root.cell ==> (
            #[trigger] runner.net.cells[i] matches Some(Port::ExtVal(value)) ==> (
            outcome.flags.no_io <==> value.ty_id != runner.io.ty_id)),
        runner.root.cell < runner.net.cells.len()
            && runner.net.cells[runner.root.cell as int] is None ==> outcome.flags.no_io,
{
    following_keeps_flags(runner.net, Port::Wire(runner.root));
    if runner.root.cell < runner.net.cells.len() {
        if let Some(port) = runner.net.cells[runner.root.cell as int] {
            if port is ExtVal {
                assert(runner.net.freed(runner.root).followed(port).1 == port);
                assert(runner.net.followed(Port::Wire(runner.root)).1 == port);
            }
        }
    }
}

proof fn following_keeps_flags(net: Net, port: Port)
    ensures
        net.followed(port).0.books(net),
    decreases Net::occupied(net.cells),
{
    if let Port::Wire(wire) = port {
        if let Some(other) = net.content(wire) {
            Net::lemma_occupied_update(net.cells, wire.cell as int, None);
            following_keeps_flags(net.freed(wire), other);
        }
    }
}

/// A run without errors is one in which no flag is set, and no program failed to load.
pub proof fn no_flag_is_set_without_error(flags: Flags)
    ensures
        flags == Flags::none() <==> !flags.ext_copy && !flags.ext_erase && !flags.ext_generic
            && !flags.no_io && !flags.vicious,
{
}

// ---- registering ----

/// A type that is registered has an identifier of its own, and keeps it: the types that were
/// registered before stay, and at most one is new.
pub proof fn types_have_identifiers_of_their_own(host: HostView, name: TyName, other: TyName)
    requires
        host.tys.no_duplicates(),
        host.tys.len() < usize::MAX,
    ensures
        ({
            let later = host.with_ty(name);
            let id = later.ty(name).ty_id;
            &&& id < later.tys.len()
            &&& later.tys[id as int] == name
            &&& later.tys.no_duplicates()
            &&& later == HostView { tys: later.tys, ..host }
            &&& host.tys.len() <= later.tys.len() <= host.tys.len() + 1
            &&& forall|i: int| 0 <= i < host.tys.len() ==> #[trigger] later.tys[i] == host.tys[i]
            &&& host.tys.contains(other) && other != name ==> later.ty(other).ty_id != id
        }),
{
    let later = host.with_ty(name);
    if !host.tys.contains(name) {
        assert(later.tys[host.tys.len() as int] == name);
    }
    assert(later.tys.contains(name));
    let i = later.tys.index_of(name);
    assert(later.tys[i] == name);
    if host.tys.contains(other) {
        let j = host.tys.index_of(other);
        assert(later.tys[j] == other);
        assert(later.tys.contains(other));
        assert(later.tys[later.tys.index_of(other)] == other);
    }
}

/// Functions are registered in order behind those that are there already, each with its own
/// name and kind.
pub proof fn functions_are_registered_in_order(
    host: HostView,
    names: Seq<Seq<char>>,
    extrinsics: Seq<(Seq<char>, ExtFnKind)>,
)
    requires
        names.no_duplicates(),
        HostView::interned(names, extrinsics).len() <= usize::MAX,
    ensures
        ({
            let later = host.registered(names, extrinsics);
            let known = HostView::interned(names, extrinsics);
            &&& later.fns.len() == host.fns.len() + extrinsics.len()
            &&& forall|i: int| 0 <= i < host.fns.len() ==> #[trigger] later.fns[i] == host.fns[i]
            &&& forall|i: int|
                0 <= i < extrinsics.len() ==> {
                    let function = later.fns[host.fns.len() + i];
                    &&& function.kind == (#[trigger] extrinsics[i]).1
                    &&& function.name.index < known.len()
                    &&& known[function.name.index as int] == extrinsics[i].0
                }
            &&& later.grafts == host.grafts
            &&& later.programs == host.programs
            &&& known.no_duplicates()
            &&& names.is_prefix_of(known)
        }),
    decreases extrinsics.len(),
{
    if extrinsics.len() > 0 {
        let rest = extrinsics.drop_last();
        let earlier = HostView::interned(names, rest);
        let known = HostView::interned(names, extrinsics);
        interned_grows(names, rest);
        Table::lemma_interned(earlier, extrinsics.last().0);
        assert(earlier.len() <= known.len());
        functions_are_registered_in_order(host, names, rest);
        let before = host.registered(names, rest);
        let later = host.registered(names, extrinsics);
        let id = Table::id(known, extrinsics.last().0);
        let k = known.index_of(extrinsics.last().0);
        Table::lemma_id(known, k);
        assert(later.fns == before.fns.push(ExtFn { name: id, kind: extrinsics.last().1 }));
        assert forall|i: int| 0 <= i < extrinsics.len() implies ({
            let function = later.fns[host.fns.len() + i];
            &&& function.kind == (#[trigger] extrinsics[i]).1
            &&& function.name.index < known.len()
            &&& known[function.name.index as int] == extrinsics[i].0
        }) by {
            if i < rest.len() {
                assert(rest[i] == extrinsics[i]);
                let function = before.fns[host.fns.len() + i];
                assert(later.fns[host.fns.len() + i] == function);
                assert(known[function.name.index as int] == earlier[function.name.index as int]);
            }
        }
        assert forall|i: int| 0 <= i < host.fns.len() implies #[trigger] later.fns[i]
            == host.fns[i] by {
            assert(later.fns[i] == before.fns[i]);
        }
    }
}

pub(crate) proof fn interned_grows(names: Seq<Seq<char>>, extrinsics: Seq<(Seq<char>, ExtFnKind)>)
    requires
        names.no_duplicates(),
    ensures
        HostView::interned(names, extrinsics).no_duplicates(),
        names.is_prefix_of(HostView::interned(names, extrinsics)),
    decreases extrinsics.len(),
{
    if extrinsics.len() > 0 {
        interned_grows(names, extrinsics.drop_last());
        Table::lemma_interned(
            HostView::interned(names, extrinsics.drop_last()),
            extrinsics.last().0,
        );
    }
}

/// A function that invokes grafts brings their type along; no other function brings a type.
pub proof fn invoking_takes_the_type_of_grafts(host: HostView, name: NameId, kind: ExtFnKind)
    ensures
        kind is InvokeGraft ==> host.with_fn(name, kind).tys == host.with_ty(TyName::Graft).tys
            && host.with_fn(name, kind).tys.contains(TyName::Graft),
        !(kind is InvokeGraft) ==> host.with_fn(name, kind).tys == host.tys,
{
    if !host.tys.contains(TyName::Graft) {
        assert(host.with_ty(TyName::Graft).tys[host.tys.len() as int] == TyName::Graft);
    }
}

/// The functions of a mailbox are those by which a net asks for texts to be parsed and entries
/// to be resolved, both in this mailbox, and by which it invokes a graft.
pub proof fn mailboxes_have_three_functions(mailbox: DynamicProgramMailbox)
    ensures
        mailbox.listing().len() == 3,
        mailbox.listing()[0] == ("root:ivy:parse"@, ExtFnKind::ParseIvy(mailbox)),
        mailbox.listing()[1] == ("root:ivm:program:resolve"@, ExtFnKind::ResolveProgram(mailbox)),
        mailbox.listing()[2] == ("root:ivm:graft:invoke"@, ExtFnKind::InvokeGraft),
{
}

} // verus!
