//! Programs: named nets, compiled to grafts.
use vstd::prelude::*;

use crate::host::names::{NameId, Table};
use crate::host::{Host, HostView};
use crate::runtime::ext::{ExtFn, ExtVal};
use crate::runtime::graft::{Graft, GraftId, GraftView, Instruction, Nilary};
use crate::runtime::port::NodeKind;

verus! {

/// An agent of a flat net, between the wires of that net.
#[derive(Debug)]
pub enum FlatNode {
    Erase { port: usize },
    /// The net with the name `path`.
    Global { path: String, port: usize },
    Value { value: ExtVal, port: usize },
    Comb { label: usize, principal: usize, left: usize, right: usize },
    /// A call of the extrinsic function with the name `path`.
    ExtFn { path: String, principal: usize, left: usize, right: usize },
}

/// A net without nesting. Wire zero is its free port.
#[derive(Debug)]
pub struct FlatNet {
    /// The number of wires.
    pub wires: usize,
    pub nodes: Vec<FlatNode>,
}

/// The grafts of a program, by name.
#[derive(Debug)]
pub struct Program {
    pub entries: Vec<(NameId, GraftId)>,
}

impl View for Program {
    type V = Seq<(NameId, GraftId)>;

    open spec fn view(&self) -> Seq<(NameId, GraftId)> {
        self.entries@
    }
}

/// The first of `nets` with the name `path`.
pub open spec fn net_index(nets: Seq<(String, FlatNet)>, path: Seq<char>) -> Option<int>
    decreases nets.len(),
{
    if nets.len() == 0 {
        None
    } else {
        match net_index(nets.drop_last(), path) {
            Some(i) => Some(i),
            None => if nets.last().0@ == path {
                Some(nets.len() - 1)
            } else {
                None
            },
        }
    }
}

/// The label of the first of `fns` whose name is `path`.
pub open spec fn fn_label(fns: Seq<ExtFn>, names: Seq<Seq<char>>, path: Seq<char>) -> Option<int>
    decreases fns.len(),
{
    if fns.len() == 0 {
        None
    } else {
        match fn_label(fns.drop_last(), names, path) {
            Some(label) => Some(label),
            None => {
                let name = fns.last().name.index;
                if name < names.len() && names[name as int] == path {
                    Some(fns.len() - 1)
                } else {
                    None
                }
            },
        }
    }
}

pub proof fn lemma_net_index(nets: Seq<(String, FlatNet)>, path: Seq<char>)
    ensures
        net_index(nets, path) matches Some(i) ==> {
            &&& 0 <= i < nets.len()
            &&& nets[i].0@ == path
            &&& forall|j: int| 0 <= j < i ==> (#[trigger] nets[j]).0@ != path
        },
        net_index(nets, path) is None ==> forall|j: int|
            0 <= j < nets.len() ==> (#[trigger] nets[j]).0@ != path,
    decreases nets.len(),
{
    if nets.len() > 0 {
        lemma_net_index(nets.drop_last(), path);
        assert forall|j: int| 0 <= j < nets.len() - 1 implies #[trigger] nets[j]
            == nets.drop_last()[j] by {}
    }
}

proof fn lemma_fn_label(fns: Seq<ExtFn>, names: Seq<Seq<char>>, path: Seq<char>)
    ensures
        fn_label(fns, names, path) matches Some(label) ==> {
            &&& 0 <= label < fns.len()
            &&& fns[label].name.index < names.len()
            &&& names[fns[label].name.index as int] == path
        },
    decreases fns.len(),
{
    if fns.len() > 0 {
        lemma_fn_label(fns.drop_last(), names, path);
    }
}

pub proof fn lemma_fn_label_stable(
    fns: Seq<ExtFn>,
    earlier: Seq<Seq<char>>,
    later: Seq<Seq<char>>,
    path: Seq<char>,
)
    requires
        earlier.is_prefix_of(later),
        forall|i: int| 0 <= i < fns.len() ==> (#[trigger] fns[i]).name.index < earlier.len(),
    ensures
        fn_label(fns, earlier, path) == fn_label(fns, later, path),
    decreases fns.len(),
{
    if fns.len() > 0 {
        assert forall|i: int| 0 <= i < fns.drop_last().len() implies (
            #[trigger] fns.drop_last()[i]).name.index < earlier.len() by {
            assert(fns.drop_last()[i] == fns[i]);
        }
        lemma_fn_label_stable(fns.drop_last(), earlier, later, path);
        assert(fns[fns.len() - 1].name.index < earlier.len());
    }
}

/// The first of `nets` with the name `path`.
fn find_net(nets: &Vec<(String, FlatNet)>, path: &String) -> (index: Option<usize>)
    ensures
        match index {
            Some(i) => net_index(nets@, path@) == Some(i as int),
            None => net_index(nets@, path@) is None,
        },
{
    let mut i: usize = 0;
    proof {
        lemma_net_index(nets@, path@);
    }
    while i < nets.len()
        invariant
            i <= nets@.len(),
            forall|j: int| 0 <= j < i ==> (#[trigger] nets@[j]).0@ != path@,
        decreases nets@.len() - i,
    {
        if nets[i].0.eq(path) {
            proof {
                lemma_net_index(nets@, path@);
                assert(nets@[i as int].0@ == path@);
            }
            return Some(i);
        }
        i += 1;
    }
    None
}

/// The label of the first of `fns` whose name is `path`.
fn find_fn(fns: &Vec<ExtFn>, table: &Table, path: &String) -> (label: Option<usize>)
    requires
        table.wf(),
    ensures
        match label {
            Some(label) => fn_label(fns@, table@, path@) == Some(label as int),
            None => fn_label(fns@, table@, path@) is None,
        },
{
    let name = match table.find(path) {
        Some(name) => name,
        None => {
            proof {
                lemma_fn_label(fns@, table@, path@);
            }
            return None;
        },
    };
    let mut i: usize = 0;
    while i < fns.len()
        invariant
            table.wf(),
            name.index < table@.len(),
            table@[name.index as int] == path@,
            i <= fns@.len(),
            fn_label(fns@.take(i as int), table@, path@) is None,
        decreases fns@.len() - i,
    {
        proof {
            assert(fns@.take(i + 1).drop_last() =~= fns@.take(i as int));
        }
        if fns[i].name == name {
            proof {
                lemma_fn_label_prefix(fns@, i + 1, table@, path@);
            }
            return Some(i);
        }
        i += 1;
    }
    assert(fns@.take(i as int) =~= fns@);
    None
}

proof fn lemma_fn_label_prefix(
    fns: Seq<ExtFn>,
    n: int,
    names: Seq<Seq<char>>,
    path: Seq<char>,
)
    requires
        0 <= n <= fns.len(),
        fn_label(fns.take(n), names, path) is Some,
    ensures
        fn_label(fns, names, path) == fn_label(fns.take(n), names, path),
    decreases fns.len(),
{
    if n == fns.len() {
        assert(fns.take(n) =~= fns);
    } else {
        assert(fns.drop_last().take(n) =~= fns.take(n));
        lemma_fn_label_prefix(fns.drop_last(), n, names, path);
    }
}

impl FlatNode {
    /// Whether the node can be an instruction of a graft: its wires are there, and so
    /// is what it names.
    pub open spec fn encodable(
        self,
        wires: usize,
        nets: Seq<(String, FlatNet)>,
        names: Seq<Seq<char>>,
        host: HostView,
    ) -> bool {
        match self {
            FlatNode::Erase { port } => port < wires,
            FlatNode::Global { path, port } => port < wires && net_index(nets, path@) is Some,
            FlatNode::Value { value, port } => port < wires && host.has_value(value),
            FlatNode::Comb { label, principal, left, right } => {
                principal < wires && left < wires && right < wires
            },
            FlatNode::ExtFn { path, principal, left, right } => {
                &&& principal < wires && left < wires && right < wires
                &&& fn_label(host.fns, names, path@) is Some
            },
        }
    }

    /// The instruction that the node becomes; the grafts of `nets` start at `base`.
    pub open spec fn encoded(
        self,
        nets: Seq<(String, FlatNet)>,
        names: Seq<Seq<char>>,
        fns: Seq<ExtFn>,
        base: nat,
    ) -> Instruction {
        match self {
            FlatNode::Erase { port } => Instruction::Nilary { port, value: Nilary::Erase },
            FlatNode::Global { path, port } => Instruction::Nilary {
                port,
                value: Nilary::Graft(
                    GraftId { index: (base + net_index(nets, path@)->0) as usize },
                ),
            },
            FlatNode::Value { value, port } => Instruction::Nilary {
                port,
                value: Nilary::Value(value),
            },
            FlatNode::Comb { label, principal, left, right } => Instruction::Binary {
                kind: NodeKind::Comb,
                label,
                principal,
                left,
                right,
            },
            FlatNode::ExtFn { path, principal, left, right } => Instruction::Binary {
                kind: NodeKind::ExtFn,
                label: fn_label(fns, names, path@)->0 as usize,
                principal,
                left,
                right,
            },
        }
    }
}

impl FlatNode {
    /// The instruction that the node becomes.
    fn encode(
        &self,
        wires: usize,
        nets: &Vec<(String, FlatNet)>,
        table: &Table,
        host: &Host,
        base: usize,
    ) -> (instruction: Instruction)
        requires
            table.wf(),
            base + nets@.len() <= usize::MAX,
            self.encodable(wires, nets@, table@, host@),
        ensures
            instruction == self.encoded(nets@, table@, host@.fns, base as nat),
    {
        match self {
            FlatNode::Erase { port } => Instruction::Nilary { port: *port, value: Nilary::Erase },
            FlatNode::Global { path, port } => {
                proof {
                    lemma_net_index(nets@, path@);
                }
                let index = match find_net(nets, path) {
                    Some(i) => base + i,
                    None => base,
                };
                Instruction::Nilary { port: *port, value: Nilary::Graft(GraftId { index }) }
            },
            FlatNode::Value { value, port } => Instruction::Nilary {
                port: *port,
                value: Nilary::Value(value.duplicate()),
            },
            FlatNode::Comb { label, principal, left, right } => Instruction::Binary {
                kind: NodeKind::Comb,
                label: *label,
                principal: *principal,
                left: *left,
                right: *right,
            },
            FlatNode::ExtFn { path, principal, left, right } => {
                let label = match find_fn(&host.ext_fns, table, path) {
                    Some(label) => label,
                    None => 0,
                };
                Instruction::Binary {
                    kind: NodeKind::ExtFn,
                    label,
                    principal: *principal,
                    left: *left,
                    right: *right,
                }
            },
        }
    }

    /// Whether the node can be an instruction of a graft.
    fn is_encodable(
        &self,
        wires: usize,
        nets: &Vec<(String, FlatNet)>,
        table: &Table,
        host: &Host,
    ) -> (encodable: bool)
        requires
            table.wf(),
        ensures
            encodable == self.encodable(wires, nets@, table@, host@),
    {
        match self {
            FlatNode::Erase { port } => *port < wires,
            FlatNode::Global { path, port } => *port < wires && find_net(nets, path).is_some(),
            FlatNode::Value { value, port } => *port < wires && value.is_in_arenas(
                host.ivm.programs.len(),
                host.ivm.grafts.len(),
            ),
            FlatNode::Comb { label, principal, left, right } => {
                *principal < wires && *left < wires && *right < wires
            },
            FlatNode::ExtFn { path, principal, left, right } => {
                *principal < wires && *left < wires && *right < wires && find_fn(
                    &host.ext_fns,
                    table,
                    path,
                ).is_some()
            },
        }
    }
}

impl FlatNet {
    proof fn lemma_encoded_stable(
        self,
        nets: Seq<(String, FlatNet)>,
        earlier: Seq<Seq<char>>,
        later: Seq<Seq<char>>,
        host: HostView,
        base: nat,
    )
        requires
            earlier.is_prefix_of(later),
            host.named(earlier),
        ensures
            self.encoded(nets, earlier, host.fns, base) == self.encoded(
                nets,
                later,
                host.fns,
                base,
            ),
    {
        assert forall|j: int| 0 <= j < self.nodes@.len() implies (#[trigger] self.nodes@[j]).encoded(
            nets,
            earlier,
            host.fns,
            base,
        ) == self.nodes@[j].encoded(nets, later, host.fns, base) by {
            if let FlatNode::ExtFn { path, principal, left, right } = self.nodes@[j] {
                lemma_fn_label_stable(host.fns, earlier, later, path@);
            }
        }
        assert(self.encoded(nets, earlier, host.fns, base) =~= self.encoded(
            nets,
            later,
            host.fns,
            base,
        ));
    }

    /// The graft that the net becomes.
    fn encode(
        &self,
        nets: &Vec<(String, FlatNet)>,
        table: &Table,
        host: &Host,
        base: usize,
    ) -> (graft: Graft)
        requires
            table.wf(),
            base + nets@.len() <= usize::MAX,
            self.encodable(nets@, table@, host@),
        ensures
            graft@ == self.encoded(nets@, table@, host@.fns, base as nat),
    {
        let mut instructions: Vec<Instruction> = Vec::new();
        let mut i: usize = 0;
        while i < self.nodes.len()
            invariant
                table.wf(),
                base + nets@.len() <= usize::MAX,
                self.encodable(nets@, table@, host@),
                i <= self.nodes@.len(),
                instructions@.len() == i,
                forall|j: int|
                    0 <= j < i ==> #[trigger] instructions@[j] == self.nodes@[j].encoded(
                        nets@,
                        table@,
                        host@.fns,
                        base as nat,
                    ),
            decreases self.nodes@.len() - i,
        {
            let instruction = self.nodes[i].encode(self.wires, nets, table, host, base);
            instructions.push(instruction);
            i += 1;
        }
        let graft = Graft { registers: self.wires, instructions };
        assert(graft@ =~= self.encoded(nets@, table@, host@.fns, base as nat));
        graft
    }

    /// Whether the net can be a graft.
    fn is_encodable(&self, nets: &Vec<(String, FlatNet)>, table: &Table, host: &Host) -> (
        encodable: bool)
        requires
            table.wf(),
        ensures
            encodable == self.encodable(nets@, table@, host@),
    {
        if self.wires == 0 {
            return false;
        }
        let mut i: usize = 0;
        while i < self.nodes.len()
            invariant
                table.wf(),
                i <= self.nodes@.len(),
                forall|j: int|
                    0 <= j < i ==> (#[trigger] self.nodes@[j]).encodable(
                        self.wires,
                        nets@,
                        table@,
                        host@,
                    ),
            decreases self.nodes@.len() - i,
        {
            if !self.nodes[i].is_encodable(self.wires, nets, table, host) {
                return false;
            }
            i += 1;
        }
        true
    }

    /// Whether the net can be a graft.
    pub open spec fn encodable(
        self,
        nets: Seq<(String, FlatNet)>,
        names: Seq<Seq<char>>,
        host: HostView,
    ) -> bool {
        &&& self.wires > 0
        &&& forall|i: int|
            0 <= i < self.nodes@.len() ==> (#[trigger] self.nodes@[i]).encodable(
                self.wires,
                nets,
                names,
                host,
            )
    }

    /// The graft that the net becomes.
    pub open spec fn encoded(
        self,
        nets: Seq<(String, FlatNet)>,
        names: Seq<Seq<char>>,
        fns: Seq<ExtFn>,
        base: nat,
    ) -> GraftView {
        GraftView {
            registers: self.wires,
            instructions: Seq::new(
                self.nodes@.len(),
                |i: int| self.nodes@[i].encoded(nets, names, fns, base),
            ),
        }
    }
}

impl Program {
    /// Whether all of `nets` can be grafts.
    pub open spec fn encodable(
        nets: Seq<(String, FlatNet)>,
        names: Seq<Seq<char>>,
        host: HostView,
    ) -> bool {
        forall|i: int|
            0 <= i < nets.len() ==> (#[trigger] nets[i]).1.encodable(nets, names, host)
    }

    /// The names after those of `nets` were added.
    pub open spec fn interned(names: Seq<Seq<char>>, nets: Seq<(String, FlatNet)>) -> Seq<
        Seq<char>,
    >
        decreases nets.len(),
    {
        if nets.len() == 0 {
            names
        } else {
            Table::interned(Program::interned(names, nets.drop_last()), nets.last().0@)
        }
    }

    /// The host after `nets` were compiled.
    pub open spec fn hosted(
        host: HostView,
        names: Seq<Seq<char>>,
        nets: Seq<(String, FlatNet)>,
    ) -> HostView {
        HostView {
            grafts: host.grafts + Seq::new(
                nets.len(),
                |i: int| nets[i].1.encoded(nets, names, host.fns, host.grafts.len()),
            ),
            ..host
        }
    }

    /// The program that `nets` become: the names are those that were added, the grafts
    /// start at `base`.
    pub open spec fn compiled(
        names: Seq<Seq<char>>,
        nets: Seq<(String, FlatNet)>,
        base: nat,
    ) -> Seq<(NameId, GraftId)> {
        let interned = Program::interned(names, nets);
        Seq::new(
            nets.len(),
            |i: int| (Table::id(interned, nets[i].0@), GraftId { index: (base + i) as usize }),
        )
    }

    /// Compiles `nets` to grafts of `host`.
    pub fn new(host: &mut Host, table: &mut Table, nets: &Vec<(String, FlatNet)>) -> (
        program: Program)
        requires
            old(table).wf(),
            old(host)@.wf(),
            old(host)@.named(old(table)@),
            Program::encodable(nets@, old(table)@, old(host)@),
        ensures
            final(table)@ == Program::interned(old(table)@, nets@),
            final(host)@ == Program::hosted(old(host)@, old(table)@, nets@),
            program@ == Program::compiled(old(table)@, nets@, old(host)@.grafts.len()),
            final(host).mailboxes == old(host).mailboxes,
            final(table).wf(),
            final(host)@.wf(),
            final(host)@.named(final(table)@),
            final(host)@.extends(old(host)@),
            final(host)@.has_program(program@),
    {
        let ghost names = table@;
        let ghost view = host@;
        let base = host.ivm.grafts.len();
        let mut entries: Vec<(NameId, GraftId)> = Vec::new();
        let mut i: usize = 0;
        while i < nets.len()
            invariant
                i <= nets@.len(),
                table.wf(),
                table@ == Program::interned(names, nets@.take(i as int)),
                base == old(host).ivm.grafts@.len(),
                host.ivm.grafts@.len() == base + i,
                forall|j: int|
                    0 <= j < base ==> #[trigger] host.ivm.grafts@[j] == old(host).ivm.grafts@[j],
                host.ivm.programs == old(host).ivm.programs,
                host.ext_tys == old(host).ext_tys,
                host.ext_fns == old(host).ext_fns,
                host.mailboxes == old(host).mailboxes,
                entries@.len() == i,
                forall|j: int|
                    0 <= j < i ==> {
                        &&& (#[trigger] entries@[j]).1 == GraftId { index: (base + j) as usize }
                        &&& entries@[j].0.index < table@.len()
                        &&& table@[entries@[j].0.index as int] == nets@[j].0@
                    },
            decreases nets@.len() - i,
        {
            let ghost before = table@;
            proof {
                assert(nets@.take(i + 1).drop_last() =~= nets@.take(i as int));
                Table::lemma_interned(before, nets@[i as int].0@);
            }
            let name = table.add_path_name(&nets[i].0);
            entries.push((name, GraftId { index: host.ivm.grafts.len() }));
            host.ivm.grafts.push(Graft { registers: 1, instructions: Vec::new() });
            i += 1;
        }
        assert(nets@.take(i as int) =~= nets@);
        proof {
            Program::lemma_interned(names, nets@);
            Program::lemma_encodable_stable(nets@, names, table@, view, host@);
            assert(host.ivm.grafts.len() <= usize::MAX);
        }
        let mut k: usize = 0;
        while k < nets.len()
            invariant
                k <= nets@.len(),
                table.wf(),
                base + nets@.len() <= usize::MAX,
                host.ivm.grafts@.len() == base + nets@.len(),
                Program::encodable(nets@, table@, host@),
                forall|j: int|
                    0 <= j < base ==> #[trigger] host.ivm.grafts@[j] == old(host).ivm.grafts@[j],
                forall|j: int|
                    0 <= j < k ==> (#[trigger] host.ivm.grafts@[base + j])@
                        == nets@[j].1.encoded(nets@, table@, host@.fns, base as nat),
                host.ivm.programs == old(host).ivm.programs,
                host.ext_tys == old(host).ext_tys,
                host.ext_fns == old(host).ext_fns,
                host.mailboxes == old(host).mailboxes,
            decreases nets@.len() - k,
        {
            let ghost before = host@;
            let graft = nets[k].1.encode(nets, table, host, base);
            host.ivm.grafts[base + k] = graft;
            proof {
                Program::lemma_encodable_same(nets@, table@, before, host@);
            }
            k += 1;
        }
        let program = Program { entries };
        proof {
            assert forall|j: int| 0 <= j < nets@.len() implies (#[trigger] nets@[j]).1.encoded(
                nets@,
                table@,
                host@.fns,
                base as nat,
            ) == nets@[j].1.encoded(nets@, names, host@.fns, base as nat) by {
                nets@[j].1.lemma_encoded_stable(nets@, names, table@, view, base as nat);
            }
            let goal = Program::hosted(view, names, nets@);
            assert forall|j: int| 0 <= j < goal.grafts.len() implies #[trigger] host@.grafts[j]
                == goal.grafts[j] by {
                if j >= base {
                    assert(host.ivm.grafts@[base + (j - base)]@ == host@.grafts[j]);
                }
            }
            assert(host@.grafts =~= goal.grafts);
            assert(host@ =~= goal);
            assert forall|j: int| 0 <= j < nets@.len() implies #[trigger] program@[j]
                == Program::compiled(names, nets@, base as nat)[j] by {
                assert(table.paths.len() <= usize::MAX);
                Table::lemma_id(table@, program@[j].0.index as int);
            }
            assert(program@ =~= Program::compiled(names, nets@, base as nat));
            Program::lemma_hosted_wf(view, names, nets@);
        }
        program
    }

    /// Whether all of `nets` can be grafts.
    pub fn is_encodable(nets: &Vec<(String, FlatNet)>, table: &Table, host: &Host) -> (
        encodable: bool)
        requires
            table.wf(),
        ensures
            encodable == Program::encodable(nets@, table@, host@),
    {
        let mut i: usize = 0;
        while i < nets.len()
            invariant
                table.wf(),
                i <= nets@.len(),
                forall|j: int|
                    0 <= j < i ==> (#[trigger] nets@[j]).1.encodable(nets@, table@, host@),
            decreases nets@.len() - i,
        {
            if !nets[i].1.is_encodable(nets, table, host) {
                return false;
            }
            i += 1;
        }
        true
    }

    pub proof fn lemma_interned(names: Seq<Seq<char>>, nets: Seq<(String, FlatNet)>)
        requires
            names.no_duplicates(),
        ensures
            Program::interned(names, nets).no_duplicates(),
            names.is_prefix_of(Program::interned(names, nets)),
        decreases nets.len(),
    {
        if nets.len() > 0 {
            Program::lemma_interned(names, nets.drop_last());
            Table::lemma_interned(
                Program::interned(names, nets.drop_last()),
                nets.last().0@,
            );
        }
    }

    /// Whether one of `nets` has the name `path`.
    pub fn has_net(nets: &Vec<(String, FlatNet)>, path: &String) -> (found: bool)
        ensures
            found == (net_index(nets@, path@) is Some),
    {
        find_net(nets, path).is_some()
    }

    proof fn lemma_encodable_same(
        nets: Seq<(String, FlatNet)>,
        names: Seq<Seq<char>>,
        host: HostView,
        other: HostView,
    )
        requires
            Program::encodable(nets, names, host),
            other.fns == host.fns,
            other.grafts.len() == host.grafts.len(),
            other.programs.len() == host.programs.len(),
        ensures
            Program::encodable(nets, names, other),
    {
        assert forall|i: int| 0 <= i < nets.len() implies (#[trigger] nets[i]).1.encodable(
            nets,
            names,
            other,
        ) by {
            let net = nets[i].1;
            assert(net.encodable(nets, names, host));
            assert forall|j: int| 0 <= j < net.nodes@.len() implies (
                #[trigger] net.nodes@[j]).encodable(net.wires, nets, names, other) by {
                assert(net.nodes@[j].encodable(net.wires, nets, names, host));
            }
        }
    }

    /// The new grafts can be expanded, and the old ones still can.
    proof fn lemma_hosted_wf(
        host: HostView,
        names: Seq<Seq<char>>,
        nets: Seq<(String, FlatNet)>,
    )
        requires
            host.wf(),
            Program::encodable(nets, names, host),
            host.grafts.len() + nets.len() <= usize::MAX,
        ensures
            Program::hosted(host, names, nets).wf(),
            Program::hosted(host, names, nets).extends(host),
    {
        let later = Program::hosted(host, names, nets);
        let base = host.grafts.len();
        assert(host.grafts =~= later.grafts.subrange(0, base as int));
        assert(host.programs =~= later.programs.subrange(0, host.programs.len() as int));
        assert(host.tys =~= later.tys.subrange(0, host.tys.len() as int));
        assert(host.fns =~= later.fns.subrange(0, host.fns.len() as int));
        assert forall|g: int| 0 <= g < later.grafts.len() implies later.has_graft(
            #[trigger] later.grafts[g],
        ) by {
            if g < base {
                assert(later.grafts[g] == host.grafts[g]);
                host.lemma_has_graft_later(later, host.grafts[g]);
            } else {
                let net = nets[g - base].1;
                assert(later.grafts[g] == net.encoded(nets, names, host.fns, base));
                assert(net.encodable(nets, names, host));
                assert forall|j: int| 0 <= j < net.nodes@.len() implies later.has_instruction(
                    #[trigger] later.grafts[g].instructions[j],
                    net.wires,
                ) by {
                    let node = net.nodes@[j];
                    assert(node.encodable(net.wires, nets, names, host));
                    match node {
                        FlatNode::Global { path, port } => lemma_net_index(nets, path@),
                        FlatNode::ExtFn { path, principal, left, right } => lemma_fn_label(
                            host.fns,
                            names,
                            path@,
                        ),
                        FlatNode::Value { value, port } => value.lemma_in_larger_arenas(
                            host.programs.len(),
                            host.grafts.len(),
                            later.programs.len(),
                            later.grafts.len(),
                        ),
                        _ => {},
                    }
                }
            }
        }
        assert forall|p: int| 0 <= p < later.programs.len() implies later.has_program(
            #[trigger] later.programs[p],
        ) by {
            assert(host.has_program(host.programs[p]));
        }
    }

    pub proof fn lemma_encodable_stable(
        nets: Seq<(String, FlatNet)>,
        earlier: Seq<Seq<char>>,
        later: Seq<Seq<char>>,
        host: HostView,
        later_host: HostView,
    )
        requires
            Program::encodable(nets, earlier, host),
            earlier.is_prefix_of(later),
            host.named(earlier),
            later_host.fns == host.fns,
            later_host.grafts.len() >= host.grafts.len(),
            later_host.programs.len() >= host.programs.len(),
        ensures
            Program::encodable(nets, later, later_host),
    {
        assert forall|i: int| 0 <= i < nets.len() implies (#[trigger] nets[i]).1.encodable(
            nets,
            later,
            later_host,
        ) by {
            let net = nets[i].1;
            assert(net.encodable(nets, earlier, host));
            assert forall|j: int| 0 <= j < net.nodes@.len() implies (
                #[trigger] net.nodes@[j]).encodable(net.wires, nets, later, later_host) by {
                let node = net.nodes@[j];
                assert(node.encodable(net.wires, nets, earlier, host));
                match node {
                    FlatNode::ExtFn { path, principal, left, right } => {
                        lemma_fn_label_stable(host.fns, earlier, later, path@);
                    },
                    FlatNode::Value { value, port } => {
                        value.lemma_in_larger_arenas(
                            host.programs.len(),
                            host.grafts.len(),
                            later_host.programs.len(),
                            later_host.grafts.len(),
                        );
                    },
                    _ => {},
                }
            }
        }
    }

    /// The graft of the first of `nets` with the name `path`; the grafts start at `base`.
    pub open spec fn graft_of(nets: Seq<(String, FlatNet)>, base: nat, path: Seq<char>) -> Option<
        GraftId,
    > {
        match net_index(nets, path) {
            Some(i) => Some(GraftId { index: (base + i) as usize }),
            None => None,
        }
    }

    /// The first graft in `entries` that has the name `name`.
    pub open spec fn lookup(entries: Seq<(NameId, GraftId)>, name: NameId) -> Option<GraftId>
        decreases entries.len(),
    {
        if entries.len() == 0 {
            None
        } else {
            match Program::lookup(entries.drop_last(), name) {
                Some(graft) => Some(graft),
                None => if entries.last().0 == name {
                    Some(entries.last().1)
                } else {
                    None
                },
            }
        }
    }

    /// The graft of the name `name`.
    pub fn graft(&self, name: NameId) -> (graft: Option<GraftId>)
        ensures
            graft == Program::lookup(self@, name),
    {
        let mut i: usize = 0;
        while i < self.entries.len()
            invariant
                i <= self.entries@.len(),
                Program::lookup(self.entries@.take(i as int), name) is None,
            decreases self.entries@.len() - i,
        {
            proof {
                assert(self.entries@.take(i + 1).drop_last() =~= self.entries@.take(i as int));
            }
            if self.entries[i].0 == name {
                proof {
                    Program::lemma_lookup_prefix(self.entries@, i + 1, name);
                }
                return Some(self.entries[i].1);
            }
            i += 1;
        }
        proof {
            assert(self.entries@.take(i as int) =~= self.entries@);
        }
        None
    }

    /// A name that is found among the first entries is found with the same graft
    /// among all of them.
    proof fn lemma_lookup_prefix(entries: Seq<(NameId, GraftId)>, n: int, name: NameId)
        requires
            0 <= n <= entries.len(),
            Program::lookup(entries.take(n), name) is Some,
        ensures
            Program::lookup(entries, name) == Program::lookup(entries.take(n), name),
        decreases entries.len(),
    {
        if n == entries.len() {
            assert(entries.take(n) =~= entries);
        } else {
            assert(entries.drop_last().take(n) =~= entries.take(n));
            Program::lemma_lookup_prefix(entries.drop_last(), n, name);
        }
    }

    /// Once a name is in the table, looking it up in a compiled program finds the graft
    /// of the first net with that name, and nothing if no net has it.
    pub proof fn lemma_compiled_lookup(
        names: Seq<Seq<char>>,
        nets: Seq<(String, FlatNet)>,
        base: nat,
        later: Seq<Seq<char>>,
        path: Seq<char>,
    )
        requires
            names.no_duplicates(),
            later.no_duplicates(),
            Program::interned(names, nets).is_prefix_of(later),
            later.contains(path),
            later.len() <= usize::MAX,
        ensures
            Program::lookup(Program::compiled(names, nets, base), Table::id(later, path))
                == Program::graft_of(nets, base, path),
    {
        Program::lemma_compiled_lookup_prefix(names, nets, base, later, path, nets.len() as int);
        let entries = Program::compiled(names, nets, base);
        assert(entries.take(nets.len() as int) =~= entries);
        assert(nets.take(nets.len() as int) =~= nets);
    }

    proof fn lemma_compiled_lookup_prefix(
        names: Seq<Seq<char>>,
        nets: Seq<(String, FlatNet)>,
        base: nat,
        later: Seq<Seq<char>>,
        path: Seq<char>,
        n: int,
    )
        requires
            names.no_duplicates(),
            later.no_duplicates(),
            Program::interned(names, nets).is_prefix_of(later),
            later.contains(path),
            later.len() <= usize::MAX,
            0 <= n <= nets.len(),
        ensures
            Program::lookup(
                Program::compiled(names, nets, base).take(n),
                Table::id(later, path),
            ) == Program::graft_of(nets.take(n), base, path),
        decreases n,
    {
        if n > 0 {
            Program::lemma_compiled_lookup_prefix(names, nets, base, later, path, n - 1);
            let entries = Program::compiled(names, nets, base);
            assert(entries.take(n).drop_last() =~= entries.take(n - 1));
            assert(nets.take(n).drop_last() =~= nets.take(n - 1));
            Program::lemma_interned(names, nets);
            Program::lemma_interned_contains(names, nets, n - 1);
            let interned = Program::interned(names, nets);
            let i = choose|i: int| 0 <= i < interned.len() && interned[i] == nets[n - 1].0@;
            assert(later[i] == interned[i]);
            Table::lemma_id(interned, i);
            let j = choose|j: int| 0 <= j < later.len() && later[j] == path;
            Table::lemma_id(later, j);
            assert(i == j <==> nets[n - 1].0@ == path);
            assert(entries.take(n).last() == entries[n - 1]);
        }
    }

    pub(crate) proof fn lemma_interned_contains(
        names: Seq<Seq<char>>,
        nets: Seq<(String, FlatNet)>,
        i: int,
    )
        requires
            names.no_duplicates(),
            0 <= i < nets.len(),
        ensures
            Program::interned(names, nets).contains(nets[i].0@),
        decreases nets.len(),
    {
        let rest = nets.drop_last();
        Program::lemma_interned(names, rest);
        Table::lemma_interned(Program::interned(names, rest), nets.last().0@);
        if i < nets.len() - 1 {
            Program::lemma_interned_contains(names, rest, i);
            let earlier = Program::interned(names, rest);
            let k = choose|k: int| 0 <= k < earlier.len() && earlier[k] == rest[i].0@;
            assert(Program::interned(names, nets)[k] == earlier[k]);
        }
    }

    /// What is looked up is one of the entries.
    pub proof fn lemma_lookup_member(entries: Seq<(NameId, GraftId)>, name: NameId)
        ensures
            Program::lookup(entries, name) matches Some(graft) ==> exists|i: int|
                0 <= i < entries.len() && #[trigger] entries[i] == (name, graft),
            Program::lookup(entries, name) is None ==> forall|i: int|
                0 <= i < entries.len() ==> (#[trigger] entries[i]).0 != name,
        decreases entries.len(),
    {
        if entries.len() > 0 {
            Program::lemma_lookup_member(entries.drop_last(), name);
            if let Some(graft) = Program::lookup(entries.drop_last(), name) {
                let i = choose|i: int|
                    0 <= i < entries.drop_last().len() && #[trigger] entries.drop_last()[i] == (
                        name,
                        graft,
                    );
                assert(entries[i] == (name, graft));
            } else {
                assert forall|i: int|
                    0 <= i < entries.len() - 1 implies (#[trigger] entries[i]).0 != name by {
                    assert(entries.drop_last()[i] == entries[i]);
                }
                assert(entries[entries.len() - 1] == entries.last());
            }
        }
    }
}

} // verus!
