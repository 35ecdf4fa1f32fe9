//! Nets as mathematical objects, and how they change.
use vstd::prelude::*;

use crate::host::dynamic::{DynamicProgramMailbox, DynamicProgramRequest};
use crate::host::HostView;
use crate::runtime::ext::{ExtCall, ExtFnKind, ExtVal, Payload};
use crate::runtime::flags::Flags;
use crate::runtime::graft::{GraftId, Instruction, Nilary};
use crate::runtime::port::{Node, NodeKind, Port};
use crate::runtime::stats::Stats;
use crate::runtime::wire::Wire;

verus! {

/// The state of a runtime.
#[verifier::ext_equal]
pub struct Net {
    /// What the first linked end of each wire was linked to.
    pub cells: Seq<Option<Port>>,
    /// Cells that no wire uses, the next to be used last.
    pub free: Seq<usize>,
    /// Active pairs whose interaction does not allocate.
    pub fast: Seq<(Port, Port)>,
    /// Active pairs whose interaction may allocate.
    pub slow: Seq<(Port, Port)>,
    /// Requests to the host, by mailbox.
    pub requests: Queues,
    /// Calls that the host has to carry out.
    pub calls: Seq<ExtCall>,
    pub flags: Flags,
    pub stats: Stats,
    pub host: HostView,
}

/// The requests in each mailbox, the oldest first.
pub type Queues = Seq<Seq<DynamicProgramRequest>>;

/// A sequence of optional ports: the cells of a heap, or the registers of a graft.
pub type Slots = Seq<Option<Port>>;

impl Net {
    /// The number of slots that hold a port.
    pub open spec fn occupied(slots: Slots) -> nat
        decreases slots.len(),
    {
        if slots.len() == 0 {
            0
        } else {
            Net::occupied(slots.drop_last()) + (if slots.last() is Some {
                1nat
            } else {
                0
            })
        }
    }

    pub proof fn lemma_occupied_update(slots: Slots, i: int, slot: Option<Port>)
        requires
            0 <= i < slots.len(),
        ensures
            Net::occupied(slots.update(i, slot)) == Net::occupied(slots) + (if slot is Some {
                1int
            } else {
                0
            }) - (if slots[i] is Some {
                1int
            } else {
                0
            }),
        decreases slots.len(),
    {
        if i == slots.len() - 1 {
            assert(slots.update(i, slot).drop_last() =~= slots.drop_last());
        } else {
            assert(slots.update(i, slot).drop_last() =~= slots.drop_last().update(i, slot));
            Net::lemma_occupied_update(slots.drop_last(), i, slot);
        }
    }

    /// The same net with other statistics.
    pub open spec fn with_stats(self, stats: Stats) -> Net {
        Net { stats, ..self }
    }

    /// The same net with other flags.
    pub open spec fn with_flags(self, flags: Flags) -> Net {
        Net { flags, ..self }
    }

    /// Whether two nets differ in their statistics at most.
    pub open spec fn alike(self, other: Net) -> bool {
        self.with_stats(other.stats) == other
    }

    /// Whether the statistics of two nets differ in the time that was measured at most.
    pub open spec fn counts_like(self, other: Net) -> bool {
        self.stats.counts_like(other.stats)
    }

    /// Whether two nets differ in the time that was measured at most.
    pub open spec fn same_but_time(self, other: Net) -> bool {
        self.alike(other) && self.counts_like(other)
    }

    /// The same net with another host.
    pub open spec fn with_host(self, host: HostView) -> Net {
        Net { host, ..self }
    }

    /// A net without agents.
    pub open spec fn initial(host: HostView) -> Net {
        Net {
            cells: Seq::empty(),
            free: Seq::empty(),
            fast: Seq::empty(),
            slow: Seq::empty(),
            requests: Seq::new(host.mailboxes, |i: int| Seq::empty()),
            calls: Seq::empty(),
            flags: Flags::none(),
            stats: Stats::zero(),
            host,
        }
    }

    /// Whether no active pair is left.
    pub open spec fn quiescent(self) -> bool {
        self.fast.len() == 0 && self.slow.len() == 0
    }

    /// Whether a call waits for the host.
    pub open spec fn waits(self) -> bool {
        self.calls.len() > 0
    }

    /// Whether nothing can be done without the host: a call waits for it, or no active pair
    /// is left.
    pub open spec fn stops(self) -> bool {
        self.waits() || self.quiescent()
    }

    /// Whether nothing is left to do: no active pair, and no call.
    pub open spec fn rests(self) -> bool {
        self.quiescent() && !self.waits()
    }

    // ---- well-formedness ----

    /// Whether `wire` is a wire of this net.
    pub open spec fn has_wire(self, wire: Wire) -> bool {
        wire.cell < self.cells.len()
    }

    /// Whether `port` may occur in this net.
    pub open spec fn has_port(self, port: Port) -> bool {
        match port {
            Port::Wire(wire) => self.has_wire(wire),
            Port::Erase => true,
            Port::Graft(graft) => graft.index < self.host.grafts.len(),
            Port::ExtVal(value) => self.host.has_value(value),
            Port::Node(node) => self.has_node(node),
        }
    }

    /// Whether `node` may occur in this net.
    pub open spec fn has_node(self, node: Node) -> bool {
        &&& self.has_wire(node.left)
        &&& self.has_wire(node.right)
        &&& self.host.has_label(node.kind, node.label)
    }

    /// Whether all ports in `slots` may occur in this net.
    pub open spec fn has_slots(self, slots: Slots) -> bool {
        forall|i: int|
            0 <= i < slots.len() ==> (#[trigger] slots[i] matches Some(port) ==> self.has_port(
                port,
            ))
    }

    /// Whether `a` and `b` may be an active pair of this net.
    pub open spec fn has_pair(self, a: Port, b: Port) -> bool {
        &&& self.has_port(a)
        &&& self.has_port(b)
        &&& !(a is Wire)
        &&& !(b is Wire)
    }

    /// Whether all of `pairs` may be active pairs of this net.
    pub open spec fn has_pairs(self, pairs: Seq<(Port, Port)>) -> bool {
        forall|i: int|
            0 <= i < pairs.len() ==> self.has_pair((#[trigger] pairs[i]).0, pairs[i].1)
    }

    /// Whether `request` may come from this net.
    pub open spec fn has_request(self, request: DynamicProgramRequest) -> bool {
        &&& self.has_wire(request.wire())
        &&& request matches DynamicProgramRequest::Resolve { module, entry, output }
            ==> module.index < self.host.programs.len()
    }

    /// Whether all of `requests` may come from this net.
    pub open spec fn has_requests(self, requests: Seq<DynamicProgramRequest>) -> bool {
        forall|i: int| 0 <= i < requests.len() ==> self.has_request(#[trigger] requests[i])
    }

    /// Whether `call` may come from this net.
    pub open spec fn has_call(self, call: ExtCall) -> bool {
        &&& self.has_wire(call.left)
        &&& self.has_wire(call.right)
        &&& self.host.has_value(call.input)
        &&& call.label < self.host.fns.len()
    }

    /// Everything that the net refers to is there, and the active pairs are in the
    /// queues where they belong.
    pub open spec fn wf(self) -> bool {
        &&& self.host.wf()
        &&& forall|i: int| 0 <= i < self.free.len() ==> (#[trigger] self.free[i]) < self.cells.len()
        &&& self.has_slots(self.cells)
        &&& self.has_pairs(self.fast)
        &&& self.has_pairs(self.slow)
        &&& forall|i: int|
            0 <= i < self.fast.len() ==> Net::is_fast((#[trigger] self.fast[i]).0, self.fast[i].1)
        &&& forall|i: int|
            0 <= i < self.slow.len() ==> !Net::is_fast((#[trigger] self.slow[i]).0, self.slow[i].1)
        &&& self.requests.len() == self.host.mailboxes
        &&& forall|i: int|
            0 <= i < self.requests.len() ==> self.has_requests(#[trigger] self.requests[i])
        &&& forall|i: int| 0 <= i < self.calls.len() ==> self.has_call(#[trigger] self.calls[i])
    }

    /// Whether the wires and handles of `earlier` are still those of `self`.
    pub open spec fn follows(self, earlier: Net) -> bool {
        &&& self.cells.len() >= earlier.cells.len()
        &&& self.host == earlier.host
    }

    // ---- linking ----

    /// What `wire` holds.
    pub open spec fn content(self, wire: Wire) -> Option<Port> {
        if wire.cell < self.cells.len() {
            self.cells[wire.cell as int]
        } else {
            None
        }
    }

    /// The cells after what cell `cell` holds was replaced.
    pub open spec fn put(cells: Slots, cell: usize, slot: Option<Port>) -> Slots {
        if cell < cells.len() {
            cells.update(cell as int, slot)
        } else {
            cells
        }
    }

    /// The net in which `wire` holds `port`.
    pub open spec fn stored(self, wire: Wire, port: Port) -> Net {
        Net { cells: Net::put(self.cells, wire.cell, Some(port)), ..self }
    }

    /// The net without `wire`.
    pub open spec fn freed(self, wire: Wire) -> Net {
        Net {
            cells: Net::put(self.cells, wire.cell, None),
            free: self.free.push(wire.cell),
            stats: self.stats.freed(),
            ..self
        }
    }

    /// Whether the interaction of two ports does without new wires.
    pub open spec fn is_fast(a: Port, b: Port) -> bool {
        match (a, b) {
            (Port::Graft(_), Port::Erase) => true,
            (Port::Erase, Port::Graft(_)) => true,
            (Port::Graft(_), _) => false,
            (_, Port::Graft(_)) => false,
            (Port::Node(a), Port::Node(b)) => Net::same_comb(a, b),
            (Port::ExtVal(_), Port::Node(node)) => node.kind == NodeKind::Comb,
            (Port::Node(node), Port::ExtVal(_)) => node.kind == NodeKind::Comb,
            _ => true,
        }
    }

    /// Whether two nodes annihilate each other.
    pub open spec fn same_comb(a: Node, b: Node) -> bool {
        a.kind == NodeKind::Comb && b.kind == NodeKind::Comb && a.label == b.label
    }

    /// The net with one more active pair.
    pub open spec fn enqueued(self, a: Port, b: Port) -> Net {
        if Net::is_fast(a, b) {
            Net { fast: self.fast.push((a, b)), ..self }
        } else {
            Net { slow: self.slow.push((a, b)), ..self }
        }
    }

    /// The net in which `a` and `b` are linked. A wire keeps the first port that it
    /// is linked to; the second one meets it, and the wire is gone. Two agents that
    /// meet become an active pair.
    pub open spec fn linked(self, a: Port, b: Port) -> Net
        decreases Net::occupied(self.cells),
    {
        match (a, b) {
            (Port::Wire(wire), port) => match self.content(wire) {
                None => self.stored(wire, port),
                Some(other) => {
                    proof {
                        Net::lemma_occupied_update(self.cells, wire.cell as int, None);
                    }
                    self.freed(wire).linked(other, port)
                },
            },
            (port, Port::Wire(wire)) => match self.content(wire) {
                None => self.stored(wire, port),
                Some(other) => {
                    proof {
                        Net::lemma_occupied_update(self.cells, wire.cell as int, None);
                    }
                    self.freed(wire).linked(other, port)
                },
            },
            _ => self.enqueued(a, b),
        }
    }

    /// The net in which two ends of wires are linked.
    pub open spec fn wired(self, a: Wire, b: Wire) -> Net {
        self.linked(Port::Wire(a), Port::Wire(b))
    }

    /// What is at the end of the wires that start at `port`; those wires are gone.
    pub open spec fn followed(self, port: Port) -> (Net, Port)
        decreases Net::occupied(self.cells),
    {
        match port {
            Port::Wire(wire) => match self.content(wire) {
                None => (self, port),
                Some(other) => {
                    proof {
                        Net::lemma_occupied_update(self.cells, wire.cell as int, None);
                    }
                    self.freed(wire).followed(other)
                },
            },
            _ => (self, port),
        }
    }

    // ---- allocating ----

    /// The next wire to be allocated.
    pub open spec fn next_wire(self) -> Wire {
        if self.free.len() > 0 {
            Wire { cell: self.free.last() }
        } else {
            Wire { cell: self.cells.len() as usize }
        }
    }

    /// The net in which the next wire is allocated.
    pub open spec fn allocated(self) -> Net {
        if self.free.len() > 0 {
            Net {
                cells: Net::put(self.cells, self.free.last(), None),
                free: self.free.drop_last(),
                stats: self.stats.allocated(),
                ..self
            }
        } else {
            Net { cells: self.cells.push(None), stats: self.stats.allocated(), ..self }
        }
    }

    /// The next node to be allocated.
    pub open spec fn next_node(self, kind: NodeKind, label: usize) -> Node {
        Node { kind, label, left: self.next_wire(), right: self.allocated().next_wire() }
    }

    /// The net in which the wires of the next node are allocated.
    pub open spec fn with_node(self) -> Net {
        self.allocated().allocated()
    }

    // ---- interacting ----

    /// Two equal combinators: their auxiliary ports are linked pairwise.
    pub open spec fn annihilated(self, a: Node, b: Node) -> Net {
        self.with_stats(self.stats.annihilated()).wired(a.left, b.left).wired(a.right, b.right)
    }

    /// Two different nodes: each passes through the other and is duplicated.
    pub open spec fn commuted(self, a: Node, b: Node) -> Net {
        let net0 = self.with_stats(self.stats.commuted());
        let a1 = net0.next_node(a.kind, a.label);
        let net1 = net0.with_node();
        let a2 = net1.next_node(a.kind, a.label);
        let net2 = net1.with_node();
        let b1 = net2.next_node(b.kind, b.label);
        let net3 = net2.with_node();
        let b2 = net3.next_node(b.kind, b.label);
        let net4 = net3.with_node();
        net4.wired(a1.left, b1.left).wired(a1.right, b2.left).wired(a2.left, b1.right).wired(
            a2.right,
            b2.right,
        ).linked(Port::Wire(a.left), Port::Node(b1)).linked(
            Port::Wire(a.right),
            Port::Node(b2),
        ).linked(Port::Wire(b.left), Port::Node(a1)).linked(Port::Wire(b.right), Port::Node(a2))
    }

    /// A value and a combinator: both auxiliary ports get the value. Of a linear
    /// value there is only one; the other port gets an eraser.
    pub open spec fn copied(self, value: ExtVal, node: Node) -> Net {
        let net = self.with_stats(self.stats.copied());
        if value.is_copy() {
            net.linked(Port::Wire(node.left), Port::ExtVal(value)).linked(
                Port::Wire(node.right),
                Port::ExtVal(value),
            )
        } else {
            net.with_flags(Flags { ext_copy: true, ..net.flags }).linked(
                Port::Wire(node.left),
                Port::ExtVal(value),
            ).linked(Port::Wire(node.right), Port::Erase)
        }
    }

    /// Both auxiliary ports of a node get an eraser.
    pub open spec fn pruned(self, left: Wire, right: Wire) -> Net {
        self.linked(Port::Wire(left), Port::Erase).linked(Port::Wire(right), Port::Erase)
    }

    /// An eraser and a node.
    pub open spec fn erased(self, node: Node) -> Net {
        self.with_stats(self.stats.erased()).pruned(node.left, node.right)
    }

    /// Whether dropping `port` loses a linear value.
    pub open spec fn is_linear(port: Port) -> bool {
        port matches Port::ExtVal(value) && !value.is_copy()
    }

    /// Two ports without auxiliary ports: both are dropped.
    pub open spec fn dropped(self, a: Port, b: Port) -> Net {
        self.with_stats(self.stats.erased()).with_flags(
            Flags {
                ext_erase: self.flags.ext_erase || Net::is_linear(a) || Net::is_linear(b),
                ..self.flags
            },
        )
    }

    /// A graft is instantiated between its inputs and outputs: behind a combinator
    /// whose auxiliary ports are linked to `input` and `output`.
    pub open spec fn invoked(self, graft: GraftId, input: Wire, output: Wire) -> Net {
        let boundary = self.next_node(NodeKind::Comb, 0);
        self.with_node().wired(boundary.left, input).wired(boundary.right, output).linked(
            Port::Graft(graft),
            Port::Node(boundary),
        )
    }

    /// An extrinsic function was given a value that it does not take.
    pub open spec fn refused(self, left: Wire, right: Wire) -> Net {
        self.with_flags(Flags { ext_generic: true, ..self.flags }).pruned(left, right)
    }

    /// The net with one more request behind those in `mailbox`.
    pub open spec fn posted(
        self,
        mailbox: DynamicProgramMailbox,
        request: DynamicProgramRequest,
    ) -> Net {
        Net { requests: mailbox.pushed(self.requests, request), ..self }
    }

    /// One more request, whose answer goes to the left output.
    pub open spec fn requested(
        self,
        mailbox: DynamicProgramMailbox,
        request: DynamicProgramRequest,
        right: Wire,
    ) -> Net {
        self.posted(mailbox, request).linked(Port::Wire(right), Port::Erase)
    }

    /// A value and a call of an extrinsic function.
    pub open spec fn called(self, value: ExtVal, node: Node) -> Net {
        let net = self.with_stats(self.stats.called());
        match self.host.fns[node.label as int].kind {
            ExtFnKind::ParseIvy(mailbox) => match value.payload {
                Payload::Text(source) => net.requested(
                    mailbox,
                    DynamicProgramRequest::ParseIvy { source, output: node.left },
                    node.right,
                ),
                _ => net.refused(node.left, node.right),
            },
            ExtFnKind::ResolveProgram(mailbox) => match value.payload {
                Payload::Pair(first, second) => match (first.payload, second.payload) {
                    (Payload::Program(module), Payload::Text(entry)) => net.requested(
                        mailbox,
                        DynamicProgramRequest::Resolve { module, entry, output: node.left },
                        node.right,
                    ),
                    _ => net.refused(node.left, node.right),
                },
                _ => net.refused(node.left, node.right),
            },
            ExtFnKind::InvokeGraft => match value.payload {
                Payload::Graft(handle) => net.invoked(handle.graft, node.left, node.right),
                _ => net.refused(node.left, node.right),
            },
            ExtFnKind::Host => Net {
                calls: self.calls.push(
                    ExtCall {
                        label: node.label,
                        input: value,
                        left: node.left,
                        right: node.right,
                    },
                ),
                ..net
            },
        }
    }

    /// A register is linked to `port`: like a wire, it keeps the first port, and the
    /// second one meets it.
    pub open spec fn registered(self, registers: Slots, register: usize, port: Port) -> (
        Net,
        Slots,
    ) {
        match registers[register as int] {
            None => (self, registers.update(register as int, Some(port))),
            Some(other) => (self.linked(other, port), registers.update(register as int, None)),
        }
    }

    /// The port that a nilary agent of a graft becomes.
    pub open spec fn nilary_port(nilary: Nilary) -> Port {
        match nilary {
            Nilary::Erase => Port::Erase,
            Nilary::Graft(graft) => Port::Graft(graft),
            Nilary::Value(value) => Port::ExtVal(value),
        }
    }

    /// One agent of a graft is instantiated.
    pub open spec fn performed(self, registers: Slots, instruction: Instruction) -> (Net, Slots) {
        match instruction {
            Instruction::Nilary { port, value } => self.registered(
                registers,
                port,
                Net::nilary_port(value),
            ),
            Instruction::Binary { kind, label, principal, left, right } => {
                let node = self.next_node(kind, label);
                let (net1, registers1) = self.with_node().registered(
                    registers,
                    principal,
                    Port::Node(node),
                );
                let (net2, registers2) = net1.registered(registers1, left, Port::Wire(node.left));
                net2.registered(registers2, right, Port::Wire(node.right))
            },
        }
    }

    /// The agents of a graft are instantiated in turn.
    pub open spec fn executed(self, registers: Slots, instructions: Seq<Instruction>) -> (
        Net,
        Slots,
    )
        decreases instructions.len(),
    {
        if instructions.len() == 0 {
            (self, registers)
        } else {
            let (net, rest) = self.executed(registers, instructions.drop_last());
            net.performed(rest, instructions.last())
        }
    }

    /// A graft is replaced by its net, whose free port is linked to `port`.
    pub open spec fn expanded(self, graft: GraftId, port: Port) -> Net {
        let body = self.host.grafts[graft.index as int];
        let registers = Seq::new(body.registers as nat, |i: int| None::<Port>).update(
            0,
            Some(port),
        );
        self.with_stats(self.stats.expanded()).executed(registers, body.instructions).0
    }

    /// A port without auxiliary ports and a node.
    pub open spec fn applied(self, port: Port, node: Node) -> Net {
        match port {
            Port::ExtVal(value) => match node.kind {
                NodeKind::Comb => self.copied(value, node),
                NodeKind::ExtFn => self.called(value, node),
            },
            _ => self.erased(node),
        }
    }

    /// The net after the interaction of an active pair.
    pub open spec fn interacted(self, a: Port, b: Port) -> Net {
        match (a, b) {
            (Port::Graft(_), Port::Erase) => self.dropped(a, b),
            (Port::Erase, Port::Graft(_)) => self.dropped(a, b),
            (Port::Graft(graft), port) => self.expanded(graft, port),
            (port, Port::Graft(graft)) => self.expanded(graft, port),
            (Port::Node(a), Port::Node(b)) => if Net::same_comb(a, b) {
                self.annihilated(a, b)
            } else {
                self.commuted(a, b)
            },
            (port, Port::Node(node)) => self.applied(port, node),
            (Port::Node(node), port) => self.applied(port, node),
            _ => self.dropped(a, b),
        }
    }

    /// What the interaction of an active pair asks of the host, and the mailbox in which it
    /// asks.
    pub open spec fn asked(self, a: Port, b: Port) -> Option<
        (DynamicProgramMailbox, DynamicProgramRequest),
    > {
        match (a, b) {
            (Port::ExtVal(value), Port::Node(node)) => self.asked_of(value, node),
            (Port::Node(node), Port::ExtVal(value)) => self.asked_of(value, node),
            _ => None,
        }
    }

    /// The part of [`Net::asked`] that is about a value and a node.
    pub open spec fn asked_of(self, value: ExtVal, node: Node) -> Option<
        (DynamicProgramMailbox, DynamicProgramRequest),
    > {
        match (node.kind, self.host.fns[node.label as int].kind, value.payload) {
            (NodeKind::ExtFn, ExtFnKind::ParseIvy(mailbox), Payload::Text(source)) => Some(
                (mailbox, DynamicProgramRequest::ParseIvy { source, output: node.left }),
            ),
            (NodeKind::ExtFn, ExtFnKind::ResolveProgram(mailbox), Payload::Pair(first, second)) => {
                match (first.payload, second.payload) {
                    (Payload::Program(module), Payload::Text(entry)) => Some(
                        (
                            mailbox,
                            DynamicProgramRequest::Resolve { module, entry, output: node.left },
                        ),
                    ),
                    _ => None,
                }
            },
            _ => None,
        }
    }

    /// What the next reduction asks of the host, and the mailbox in which it asks.
    pub open spec fn next_asked(self) -> Option<(DynamicProgramMailbox, DynamicProgramRequest)> {
        if self.quiescent() {
            None
        } else {
            self.asked(self.next_pair().0, self.next_pair().1)
        }
    }

    // ---- reducing ----

    /// The net without the active pair that is next in turn.
    pub open spec fn popped(self) -> Net {
        if self.fast.len() > 0 {
            Net { fast: self.fast.drop_last(), ..self }
        } else {
            Net { slow: self.slow.drop_last(), ..self }
        }
    }

    /// The active pair that is next in turn: the newest fast one, or the newest slow
    /// one if none is fast.
    pub open spec fn next_pair(self) -> (Port, Port) {
        if self.fast.len() > 0 {
            self.fast.last()
        } else {
            self.slow.last()
        }
    }

    /// The net after one reduction; a quiescent net stays as it is.
    pub open spec fn step(self) -> Net {
        if self.quiescent() {
            self
        } else {
            self.popped().interacted(self.next_pair().0, self.next_pair().1)
        }
    }

    /// The net after `n` reductions.
    pub open spec fn steps(self, n: nat) -> Net
        decreases n,
    {
        if n == 0 {
            self
        } else {
            self.steps((n - 1) as nat).step()
        }
    }

    /// A quiescent net does not change any more.
    pub proof fn lemma_steps_settled(self, n: nat, m: nat)
        requires
            self.steps(n).quiescent(),
            n <= m,
        ensures
            self.steps(m) == self.steps(n),
        decreases m,
    {
        if n < m {
            self.lemma_steps_settled(n, (m - 1) as nat);
        }
    }

    /// Whether finitely many reductions leave nothing to do.
    pub open spec fn normalizes(self) -> bool {
        exists|n: nat| #[trigger] self.steps(n).rests()
    }

    /// Whether none of the first `n` reductions comes after a stop.
    pub open spec fn goes_on(self, n: nat) -> bool
        decreases n,
    {
        n > 0 ==> {
            &&& self.goes_on((n - 1) as nat)
            &&& !self.steps((n - 1) as nat).stops()
        }
    }

    /// Whether `n` reductions, and no fewer, leave nothing that can be done without the
    /// host.
    pub open spec fn stops_after(self, n: nat) -> bool {
        &&& self.steps(n).stops()
        &&& self.goes_on(n)
    }

    /// Whether finitely many reductions leave nothing that can be done without the host.
    pub open spec fn pauses(self) -> bool {
        exists|n: nat| #[trigger] self.steps(n).stops()
    }

    /// No reduction comes after a stop.
    pub proof fn lemma_goes_on(self, i: nat, n: nat)
        requires
            i < n,
            self.goes_on(n),
        ensures
            !self.steps(i).stops(),
        decreases n,
    {
        if i + 1 < n {
            self.lemma_goes_on(i, (n - 1) as nat);
        }
    }

    /// The active pairs in `pairs` interact in turn.
    pub open spec fn swept(self, pairs: Seq<(Port, Port)>) -> Net
        decreases pairs.len(),
    {
        if pairs.len() == 0 {
            self
        } else {
            self.swept(pairs.drop_last()).interacted(pairs.last().0, pairs.last().1)
        }
    }

    /// The net after all its active pairs have interacted, the fast ones first; those
    /// that arise meanwhile wait. A quiescent net stays as it is.
    pub open spec fn round(self) -> Net {
        if self.quiescent() {
            self
        } else {
            let net = Net { fast: Seq::empty(), slow: Seq::empty(), ..self }.swept(
                self.fast + self.slow,
            );
            net.with_stats(net.stats.deepened())
        }
    }

    /// The net after `n` rounds.
    pub open spec fn rounds(self, n: nat) -> Net
        decreases n,
    {
        if n == 0 {
            self
        } else {
            self.rounds((n - 1) as nat).round()
        }
    }

    /// Whether each of the first `n` rounds finds an active pair.
    pub open spec fn goes_on_in_rounds(self, n: nat) -> bool
        decreases n,
    {
        n > 0 ==> {
            &&& self.goes_on_in_rounds((n - 1) as nat)
            &&& !self.rounds((n - 1) as nat).quiescent()
        }
    }

    /// Whether finitely many rounds leave nothing to do.
    pub open spec fn normalizes_in_rounds(self) -> bool {
        exists|n: nat| #[trigger] self.rounds(n).rests()
    }

    /// A quiescent net does not change any more.
    pub proof fn lemma_rounds_settled(self, n: nat, m: nat)
        requires
            self.rounds(n).quiescent(),
            n <= m,
        ensures
            self.rounds(m) == self.rounds(n),
        decreases m,
    {
        if n < m {
            self.lemma_rounds_settled(n, (m - 1) as nat);
        }
    }
}

} // verus!
