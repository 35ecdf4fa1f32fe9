//! Compiling programs while a net runs.
use vstd::prelude::*;

use crate::host::module::{CompileError, IvyModule, ProgramHandle};
use crate::host::names::{NameId, Table};
use crate::host::{Host, HostView};
use crate::program::{FlatNet, Program};
use crate::runtime::graft::GraftId;

verus! {

/// The nets that a text stands for, or why it stands for none.
#[derive(Debug)]
pub struct ParsedSource {
    pub source: String,
    pub nets: Result<Vec<(String, FlatNet)>, CompileError>,
}

impl ParsedSource {
    /// The first of `parsed` that is about the text `source`.
    pub open spec fn index(parsed: Seq<ParsedSource>, source: Seq<char>) -> Option<int>
        decreases parsed.len(),
    {
        if parsed.len() == 0 {
            None
        } else {
            match ParsedSource::index(parsed.drop_last(), source) {
                Some(i) => Some(i),
                None => if parsed.last().source@ == source {
                    Some(parsed.len() - 1)
                } else {
                    None
                },
            }
        }
    }

    pub proof fn lemma_index(parsed: Seq<ParsedSource>, source: Seq<char>)
        ensures
            ParsedSource::index(parsed, source) matches Some(i) ==> {
                &&& 0 <= i < parsed.len()
                &&& parsed[i].source@ == source
                &&& forall|j: int| 0 <= j < i ==> (#[trigger] parsed[j]).source@ != source
            },
            ParsedSource::index(parsed, source) is None ==> forall|j: int|
                0 <= j < parsed.len() ==> (#[trigger] parsed[j]).source@ != source,
        decreases parsed.len(),
    {
        if parsed.len() > 0 {
            ParsedSource::lemma_index(parsed.drop_last(), source);
            assert forall|j: int| 0 <= j < parsed.len() - 1 implies #[trigger] parsed[j]
                == parsed.drop_last()[j] by {}
        }
    }

    /// The first of `parsed` that is about the text `source`.
    pub(crate) fn find(parsed: &Vec<ParsedSource>, source: &String) -> (index: Option<usize>)
        ensures
            match index {
                Some(i) => ParsedSource::index(parsed@, source@) == Some(i as int) && i
                    < parsed@.len(),
                None => ParsedSource::index(parsed@, source@) is None,
            },
    {
        proof {
            ParsedSource::lemma_index(parsed@, source@);
        }
        let mut i: usize = 0;
        while i < parsed.len()
            invariant
                i <= parsed@.len(),
                forall|j: int| 0 <= j < i ==> (#[trigger] parsed@[j]).source@ != source@,
            decreases parsed@.len() - i,
        {
            if parsed[i].source.eq(source) {
                proof {
                    ParsedSource::lemma_index(parsed@, source@);
                    assert(parsed@[i as int].source@ == source@);
                }
                return Some(i);
            }
            i += 1;
        }
        None
    }
}

/// Compiles parsed programs, and finds entries in them.
#[derive(Debug)]
pub struct DynamicProgramLoader {
    pub table: Table,
}

impl DynamicProgramLoader {
    /// The host after `nets` were compiled to a program of their own.
    pub open spec fn loaded(
        host: HostView,
        names: Seq<Seq<char>>,
        nets: Seq<(String, FlatNet)>,
    ) -> HostView {
        HostView {
            programs: host.programs.push(Program::compiled(names, nets, host.grafts.len())),
            ..Program::hosted(host, names, nets)
        }
    }

    /// What the name `path` stands for in a program, once it is among `names`.
    pub open spec fn resolved(
        program: Seq<(NameId, GraftId)>,
        names: Seq<Seq<char>>,
        path: Seq<char>,
    ) -> Option<GraftId> {
        Program::lookup(program, Table::id(Table::interned(names, path), path))
    }

    /// Creates a loader from the name table used to register the host's extrinsics.
    /// All extrinsics must be registered before this call.
    pub fn new(table: &Table) -> (loader: DynamicProgramLoader)
        ensures
            loader.table@ == table@,
    {
        DynamicProgramLoader { table: table.duplicate() }
    }

    /// Compiles what the text `src` was parsed to. The compiled program can be run:
    /// the text refers to registered extrinsics and to its own nets only, and the
    /// wires of its nets are there.
    pub fn parse_ivy(&mut self, host: &mut Host, src: &String, parsed: &Vec<ParsedSource>) -> (
        program: Result<ProgramHandle, CompileError>)
        requires
            old(self).table.wf(),
            old(host)@.wf(),
            old(host)@.named(old(self).table@),
            ParsedSource::index(parsed@, src@) is Some,
            parsed@[ParsedSource::index(parsed@, src@)->0].nets matches Ok(nets)
                ==> Program::encodable(nets@, old(self).table@, old(host)@),
        ensures
            match parsed@[ParsedSource::index(parsed@, src@)->0].nets {
                Ok(nets) => {
                    &&& program == Ok::<_, CompileError>(
                        ProgramHandle { index: old(host)@.programs.len() as usize },
                    )
                    &&& final(self).table@ == Program::interned(old(self).table@, nets@)
                    &&& final(host)@ == DynamicProgramLoader::loaded(
                        old(host)@,
                        old(self).table@,
                        nets@,
                    )
                },
                Err(error) => {
                    &&& program == Err::<ProgramHandle, _>(error)
                    &&& final(self).table@ == old(self).table@
                    &&& final(host)@ == old(host)@
                },
            },
            program matches Ok(program) ==> program.index < final(host)@.programs.len(),
            final(self).table.wf(),
            final(host)@.wf(),
            final(host)@.named(final(self).table@),
            final(host)@.extends(old(host)@),
            final(host)@.fns == old(host)@.fns,
            final(host).mailboxes == old(host).mailboxes,
            old(self).table@.is_prefix_of(final(self).table@),
    {
        let index = match ParsedSource::find(parsed, src) {
            Some(index) => index,
            None => {
                assert(false);
                0
            },
        };
        match &parsed[index].nets {
            Ok(nets) => {
                let program = Program::new(host, &mut self.table, nets);
                let handle = ProgramHandle { index: host.ivm.programs.len() };
                let ghost compiled = host@;
                host.ivm.programs.push(program);
                proof {
                    assert(host@ =~= DynamicProgramLoader::loaded(
                        old(host)@,
                        old(self).table@,
                        nets@,
                    ));
                    compiled.lemma_program_added(host@, program@);
                    Program::lemma_interned(old(self).table@, nets@);
                }
                Ok(handle)
            },
            Err(error) => {
                proof {
                    host@.lemma_extends_self();
                }
                Err(error.duplicate())
            },
        }
    }

    /// The graft of the entry `path` of a program.
    pub fn graft(&mut self, host: &Host, module: ProgramHandle, path: &String) -> (graft: Option<
        GraftId,
    >)
        requires
            old(self).table.wf(),
            host@.wf(),
            module.index < host@.programs.len(),
        ensures
            final(self).table@ == Table::interned(old(self).table@, path@),
            graft == DynamicProgramLoader::resolved(
                host@.programs[module.index as int],
                old(self).table@,
                path@,
            ),
            graft matches Some(graft) ==> graft.index < host@.grafts.len(),
            final(self).table.wf(),
            old(self).table@.is_prefix_of(final(self).table@),
    {
        proof {
            Table::lemma_interned(self.table@, path@);
        }
        let name = self.table.add_path_name(path);
        let graft = IvyModule::new(&host.ivm.programs[module.index]).graft(name);
        proof {
            let program = host@.programs[module.index as int];
            assert(host@.has_program(program));
            Program::lemma_lookup_member(program, name);
        }
        graft
    }
}

} // verus!
