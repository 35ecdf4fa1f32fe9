//! What interactions leave as it is.
use vstd::prelude::*;

use crate::host::dynamic::{DynamicProgramMailbox, DynamicProgramRequest};
use crate::runtime::ext::{ExtFnKind, ExtVal, Payload};
use crate::runtime::flags::Flags;
use crate::runtime::graft::{GraftId, Instruction};
use crate::runtime::net::{Net, Queues, Slots};
use crate::runtime::port::{Node, NodeKind, Port};
use crate::runtime::wire::Wire;

verus! {

/// Whether `long` starts with `short`.
pub open spec fn begins<A>(long: Seq<A>, short: Seq<A>) -> bool {
    &&& short.len() <= long.len()
    &&& forall|i: int| 0 <= i < short.len() ==> #[trigger] long[i] == short[i]
}

impl Net {
    /// The number of cells that a wire uses.
    pub open spec fn in_use(self) -> int {
        self.cells.len() - self.free.len()
    }

    /// By how much the counters of wires are off, modulo their range.
    pub open spec fn drift(self) -> int {
        (self.stats.mem_free + self.in_use() - self.stats.mem_alloc) % 0x1_0000_0000_0000_0000
    }

    /// Whether all that waits in `earlier` waits in `self` too, in the same places: active
    /// pairs, requests and calls. Flags that are set stay set, no cell goes away, the
    /// host is the same, only whole rounds count as depth, and the counters of wires are
    /// right if they were.
    pub open spec fn keeps(self, earlier: Net) -> bool {
        &&& begins(self.fast, earlier.fast)
        &&& begins(self.slow, earlier.slow)
        &&& self.requests.len() == earlier.requests.len()
        &&& forall|i: int|
            0 <= i < earlier.requests.len() ==> begins(
                #[trigger] self.requests[i],
                earlier.requests[i],
            )
        &&& begins(self.calls, earlier.calls)
        &&& self.cells.len() >= earlier.cells.len()
        &&& self.host == earlier.host
        &&& self.stats.depth == earlier.stats.depth
        &&& self.drift() == earlier.drift()
        &&& earlier.flags.ext_copy ==> self.flags.ext_copy
        &&& earlier.flags.ext_erase ==> self.flags.ext_erase
        &&& earlier.flags.ext_generic ==> self.flags.ext_generic
    }

    /// What the mailboxes hold after something was asked.
    pub open spec fn with_asked(
        self,
        asked: Option<(DynamicProgramMailbox, DynamicProgramRequest)>,
    ) -> Queues {
        match asked {
            Some((mailbox, request)) => mailbox.pushed(self.requests, request),
            None => self.requests,
        }
    }

    /// Whether `self` came out of `earlier` without a wire being allocated, a message to
    /// the host, or an error.
    pub open spec fn quiet(self, earlier: Net) -> bool {
        &&& self.keeps(earlier)
        &&& self.cells.len() == earlier.cells.len()
        &&& self.stats.mem_alloc == earlier.stats.mem_alloc
        &&& self.requests == earlier.requests
        &&& self.calls == earlier.calls
        &&& self.flags == earlier.flags
    }

    pub proof fn lemma_linked_quiet(self, a: Port, b: Port)
        ensures
            self.linked(a, b).quiet(self),
        decreases Net::occupied(self.cells),
    {
        match (a, b) {
            (Port::Wire(wire), port) => {
                if let Some(other) = self.content(wire) {
                    Net::lemma_occupied_update(self.cells, wire.cell as int, None);
                    self.freed(wire).lemma_linked_quiet(other, port);
                }
            },
            (port, Port::Wire(wire)) => {
                if let Some(other) = self.content(wire) {
                    Net::lemma_occupied_update(self.cells, wire.cell as int, None);
                    self.freed(wire).lemma_linked_quiet(other, port);
                }
            },
            _ => {},
        }
    }

    pub(crate) proof fn lemma_linked_twice_quiet(self, a: Port, b: Port, c: Port, d: Port)
        ensures
            self.linked(a, b).linked(c, d).quiet(self),
    {
        self.lemma_linked_quiet(a, b);
        self.linked(a, b).lemma_linked_quiet(c, d);
    }

    proof fn lemma_with_node_keeps(self)
        ensures
            self.with_node().keeps(self),
    {
    }

    proof fn lemma_commuted_keeps(self, a: Node, b: Node)
        ensures
            self.commuted(a, b).keeps(self),
            self.commuted(a, b).requests == self.requests,
    {
        let net0 = self.with_stats(self.stats.commuted());
        let a1 = net0.next_node(a.kind, a.label);
        let net1 = net0.with_node();
        let a2 = net1.next_node(a.kind, a.label);
        let net2 = net1.with_node();
        let b1 = net2.next_node(b.kind, b.label);
        let net3 = net2.with_node();
        let b2 = net3.next_node(b.kind, b.label);
        let net4 = net3.with_node();
        net0.lemma_with_node_keeps();
        net1.lemma_with_node_keeps();
        net2.lemma_with_node_keeps();
        net3.lemma_with_node_keeps();
        net4.lemma_linked_twice_quiet(
            Port::Wire(a1.left),
            Port::Wire(b1.left),
            Port::Wire(a1.right),
            Port::Wire(b2.left),
        );
        let net6 = net4.wired(a1.left, b1.left).wired(a1.right, b2.left);
        net6.lemma_linked_twice_quiet(
            Port::Wire(a2.left),
            Port::Wire(b1.right),
            Port::Wire(a2.right),
            Port::Wire(b2.right),
        );
        let net8 = net6.wired(a2.left, b1.right).wired(a2.right, b2.right);
        net8.lemma_linked_twice_quiet(
            Port::Wire(a.left),
            Port::Node(b1),
            Port::Wire(a.right),
            Port::Node(b2),
        );
        let net10 = net8.linked(Port::Wire(a.left), Port::Node(b1)).linked(
            Port::Wire(a.right),
            Port::Node(b2),
        );
        net10.lemma_linked_twice_quiet(
            Port::Wire(b.left),
            Port::Node(a1),
            Port::Wire(b.right),
            Port::Node(a2),
        );
        assert(net4.keeps(self));
        assert(net8.keeps(self));
    }

    proof fn lemma_copied_keeps(self, value: ExtVal, node: Node)
        ensures
            self.copied(value, node).keeps(self),
            self.copied(value, node).requests == self.requests,
            self.copied(value, node).cells.len() == self.cells.len(),
            self.copied(value, node).stats.mem_alloc == self.stats.mem_alloc,
    {
        let net = self.with_stats(self.stats.copied());
        let (left, right) = (Port::Wire(node.left), Port::Wire(node.right));
        net.lemma_linked_twice_quiet(left, Port::ExtVal(value), right, Port::ExtVal(value));
        net.with_flags(Flags { ext_copy: true, ..net.flags }).lemma_linked_twice_quiet(
            left,
            Port::ExtVal(value),
            right,
            Port::Erase,
        );
    }

    proof fn lemma_erased_keeps(self, node: Node)
        ensures
            self.erased(node).keeps(self),
            self.erased(node).requests == self.requests,
            self.erased(node).cells.len() == self.cells.len(),
            self.erased(node).stats.mem_alloc == self.stats.mem_alloc,
    {
        self.with_stats(self.stats.erased()).lemma_linked_twice_quiet(
            Port::Wire(node.left),
            Port::Erase,
            Port::Wire(node.right),
            Port::Erase,
        );
    }

    proof fn lemma_annihilated_keeps(self, a: Node, b: Node)
        ensures
            self.annihilated(a, b).keeps(self),
            self.annihilated(a, b).requests == self.requests,
            self.annihilated(a, b).cells.len() == self.cells.len(),
            self.annihilated(a, b).stats.mem_alloc == self.stats.mem_alloc,
    {
        self.with_stats(self.stats.annihilated()).lemma_linked_twice_quiet(
            Port::Wire(a.left),
            Port::Wire(b.left),
            Port::Wire(a.right),
            Port::Wire(b.right),
        );
    }

    proof fn lemma_requested_keeps(
        self,
        mailbox: DynamicProgramMailbox,
        request: DynamicProgramRequest,
        right: Wire,
    )
        ensures
            self.requested(mailbox, request, right).keeps(self),
            self.requested(mailbox, request, right).requests == mailbox.pushed(
                self.requests,
                request,
            ),
    {
        self.posted(mailbox, request).lemma_linked_quiet(Port::Wire(right), Port::Erase);
    }

    proof fn lemma_called_keeps(self, value: ExtVal, node: Node)
        ensures
            self.called(value, node).keeps(self),
            node.kind == NodeKind::ExtFn ==> self.called(value, node).requests == self.with_asked(
                self.asked_of(value, node),
            ),
    {
        let net = self.with_stats(self.stats.called());
        net.with_flags(Flags { ext_generic: true, ..net.flags }).lemma_linked_twice_quiet(
            Port::Wire(node.left),
            Port::Erase,
            Port::Wire(node.right),
            Port::Erase,
        );
        if let ExtFnKind::ParseIvy(mailbox) = self.host.fns[node.label as int].kind {
            if let Payload::Text(source) = value.payload {
                net.lemma_requested_keeps(
                    mailbox,
                    DynamicProgramRequest::ParseIvy { source, output: node.left },
                    node.right,
                );
            }
        }
        if let ExtFnKind::ResolveProgram(mailbox) = self.host.fns[node.label as int].kind {
            if let Payload::Pair(first, second) = value.payload {
                if let (Payload::Program(module), Payload::Text(entry)) = (
                    first.payload,
                    second.payload,
                ) {
                    net.lemma_requested_keeps(
                        mailbox,
                        DynamicProgramRequest::Resolve { module, entry, output: node.left },
                        node.right,
                    );
                }
            }
        }
        match value.payload {
            Payload::Graft(handle) => {
                let boundary = net.next_node(NodeKind::Comb, 0);
                net.lemma_with_node_keeps();
                net.with_node().lemma_linked_twice_quiet(
                    Port::Wire(boundary.left),
                    Port::Wire(node.left),
                    Port::Wire(boundary.right),
                    Port::Wire(node.right),
                );
                net.with_node().wired(boundary.left, node.left).wired(
                    boundary.right,
                    node.right,
                ).lemma_linked_quiet(Port::Graft(handle.graft), Port::Node(boundary));
            },
            _ => {},
        }
    }

    pub(crate) proof fn lemma_registered_keeps(
        self,
        registers: Slots,
        register: usize,
        port: Port,
    )
        ensures
            self.registered(registers, register, port).0.keeps(self),
            self.registered(registers, register, port).0.requests == self.requests,
            self.registered(registers, register, port).0.cells.len() == self.cells.len(),
    {
        if let Some(other) = registers[register as int] {
            self.lemma_linked_quiet(other, port);
        }
    }

    pub(crate) proof fn lemma_performed_keeps(self, registers: Slots, instruction: Instruction)
        ensures
            self.performed(registers, instruction).0.keeps(self),
            self.performed(registers, instruction).0.requests == self.requests,
    {
        match instruction {
            Instruction::Nilary { port, value } => {
                self.lemma_registered_keeps(registers, port, Net::nilary_port(value));
            },
            Instruction::Binary { kind, label, principal, left, right } => {
                let node = self.next_node(kind, label);
                let net0 = self.with_node();
                let (net1, registers1) = net0.registered(registers, principal, Port::Node(node));
                let (net2, registers2) = net1.registered(registers1, left, Port::Wire(node.left));
                self.lemma_with_node_keeps();
                net0.lemma_registered_keeps(registers, principal, Port::Node(node));
                net1.lemma_registered_keeps(registers1, left, Port::Wire(node.left));
                net2.lemma_registered_keeps(registers2, right, Port::Wire(node.right));
                assert(net1.keeps(self));
            },
        }
    }

    pub(crate) proof fn lemma_executed_keeps(self, registers: Slots, instructions: Seq<Instruction>)
        ensures
            self.executed(registers, instructions).0.keeps(self),
            self.executed(registers, instructions).0.requests == self.requests,
        decreases instructions.len(),
    {
        if instructions.len() > 0 {
            self.lemma_executed_keeps(registers, instructions.drop_last());
            let (net, slots) = self.executed(registers, instructions.drop_last());
            net.lemma_performed_keeps(slots, instructions.last());
        }
    }

    /// An interaction takes nothing away from what waits, and leaves the request that it
    /// asks for.
    pub proof fn lemma_interacted_keeps(self, a: Port, b: Port)
        ensures
            self.interacted(a, b).keeps(self),
            self.interacted(a, b).requests == self.with_asked(self.asked(a, b)),
    {
        match (a, b) {
            (Port::Graft(graft), port) => self.lemma_expanded_keeps(graft, port),
            _ => {},
        }
        match (a, b) {
            (port, Port::Graft(graft)) => self.lemma_expanded_keeps(graft, port),
            (Port::Node(a), Port::Node(b)) => {
                self.lemma_annihilated_keeps(a, b);
                self.lemma_commuted_keeps(a, b);
            },
            (port, Port::Node(node)) => self.lemma_applied_keeps(port, node),
            (Port::Node(node), port) => self.lemma_applied_keeps(port, node),
            _ => {},
        }
    }

    proof fn lemma_expanded_keeps(self, graft: GraftId, port: Port)
        ensures
            self.expanded(graft, port).keeps(self),
            self.expanded(graft, port).requests == self.requests,
    {
        let body = self.host.grafts[graft.index as int];
        let registers = Seq::new(body.registers as nat, |i: int| None::<Port>).update(
            0,
            Some(port),
        );
        self.with_stats(self.stats.expanded()).lemma_executed_keeps(registers, body.instructions);
    }

    proof fn lemma_applied_keeps(self, port: Port, node: Node)
        ensures
            self.applied(port, node).keeps(self),
            self.applied(port, node).requests == self.with_asked(
                self.asked(port, Port::Node(node)),
            ),
    {
        self.lemma_erased_keeps(node);
        if let Port::ExtVal(value) = port {
            self.lemma_copied_keeps(value, node);
            self.lemma_called_keeps(value, node);
        }
    }

    pub proof fn lemma_swept_keeps(self, pairs: Seq<(Port, Port)>)
        ensures
            self.swept(pairs).keeps(self),
        decreases pairs.len(),
    {
        if pairs.len() > 0 {
            self.lemma_swept_keeps(pairs.drop_last());
            self.swept(pairs.drop_last()).lemma_interacted_keeps(pairs.last().0, pairs.last().1);
        }
    }

    /// A call waits until the host takes it.
    pub proof fn lemma_calls_grow(self, n: nat, m: nat)
        requires
            n <= m,
        ensures
            self.steps(n).calls.len() <= self.steps(m).calls.len(),
        decreases m,
    {
        if n < m {
            self.lemma_calls_grow(n, (m - 1) as nat);
            let net = self.steps((m - 1) as nat);
            if !net.quiescent() {
                net.popped().lemma_interacted_keeps(net.next_pair().0, net.next_pair().1);
            }
        }
    }

    /// An interaction of a fast pair allocates no wire.
    pub proof fn lemma_fast_allocates_nothing(self, a: Port, b: Port)
        requires
            Net::is_fast(a, b),
        ensures
            self.interacted(a, b).cells.len() == self.cells.len(),
            self.interacted(a, b).stats.mem_alloc == self.stats.mem_alloc,
    {
        match (a, b) {
            (Port::Node(a), Port::Node(b)) => self.lemma_annihilated_keeps(a, b),
            (port, Port::Node(node)) => {
                self.lemma_erased_keeps(node);
                if let Port::ExtVal(value) = port {
                    self.lemma_copied_keeps(value, node);
                }
            },
            (Port::Node(node), port) => {
                self.lemma_erased_keeps(node);
                if let Port::ExtVal(value) = port {
                    self.lemma_copied_keeps(value, node);
                }
            },
            _ => {},
        }
    }
}

} // verus!
