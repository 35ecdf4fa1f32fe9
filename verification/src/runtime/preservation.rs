//! Reducing a net keeps it well-formed.
use vstd::prelude::*;

use crate::host::dynamic::{DynamicProgramMailbox, DynamicProgramRequest};
use crate::host::HostView;
use crate::runtime::ext::{ExtFnKind, ExtVal, Payload};
use crate::runtime::flags::Flags;
use crate::runtime::graft::{GraftId, Instruction};
use crate::runtime::net::{Net, Slots};
use crate::runtime::port::{Node, NodeKind, Port};
use crate::runtime::wire::Wire;

verus! {

impl Net {
    pub proof fn lemma_linked_wf(self, a: Port, b: Port)
        requires
            self.wf(),
            self.has_port(a),
            self.has_port(b),
        ensures
            self.linked(a, b).wf(),
            self.linked(a, b).follows(self),
        decreases Net::occupied(self.cells), 1nat,
    {
        match (a, b) {
            (Port::Wire(wire), port) => self.lemma_wire_linked_wf(wire, port),
            (port, Port::Wire(wire)) => self.lemma_wire_linked_wf(wire, port),
            _ => {},
        }
    }

    proof fn lemma_wire_linked_wf(self, wire: Wire, port: Port)
        requires
            self.wf(),
            self.has_wire(wire),
            self.has_port(port),
        ensures
            self.content(wire) is None ==> {
                &&& self.stored(wire, port).wf()
                &&& self.stored(wire, port).follows(self)
            },
            self.content(wire) matches Some(other) ==> {
                &&& self.freed(wire).linked(other, port).wf()
                &&& self.freed(wire).linked(other, port).follows(self)
            },
        decreases Net::occupied(self.cells), 0nat,
    {
        match self.content(wire) {
            None => {},
            Some(other) => {
                Net::lemma_occupied_update(self.cells, wire.cell as int, None);
                assert(self.cells[wire.cell as int] == Some(other));
                self.lemma_freed_wf(wire);
                self.freed(wire).lemma_linked_wf(other, port);
            },
        }
    }

    pub proof fn lemma_freed_wf(self, wire: Wire)
        requires
            self.wf(),
            self.has_wire(wire),
        ensures
            self.freed(wire).wf(),
            self.freed(wire).follows(self),
    {
    }

    pub proof fn lemma_followed_wf(self, port: Port)
        requires
            self.wf(),
            self.has_port(port),
        ensures
            self.followed(port).0.wf(),
            self.followed(port).0.follows(self),
            self.followed(port).0.has_port(self.followed(port).1),
        decreases Net::occupied(self.cells),
    {
        if let Port::Wire(wire) = port {
            if let Some(other) = self.content(wire) {
                Net::lemma_occupied_update(self.cells, wire.cell as int, None);
                assert(self.cells[wire.cell as int] == Some(other));
                self.lemma_freed_wf(wire);
                self.freed(wire).lemma_followed_wf(other);
            }
        }
    }

    pub proof fn lemma_allocated_wf(self)
        requires
            self.wf(),
            self.allocated().cells.len() <= usize::MAX,
        ensures
            self.allocated().wf(),
            self.allocated().follows(self),
            self.allocated().has_wire(self.next_wire()),
    {
    }

    pub proof fn lemma_with_node_wf(self, kind: NodeKind, label: usize)
        requires
            self.wf(),
            self.host.has_label(kind, label),
            self.with_node().cells.len() <= usize::MAX,
        ensures
            self.with_node().wf(),
            self.with_node().follows(self),
            self.with_node().has_node(self.next_node(kind, label)),
    {
        self.lemma_allocated_wf();
        self.allocated().lemma_allocated_wf();
    }

    pub proof fn lemma_registered_wf(self, registers: Slots, register: usize, port: Port)
        requires
            self.wf(),
            self.has_slots(registers),
            self.has_port(port),
            register < registers.len(),
        ensures
            self.registered(registers, register, port).0.wf(),
            self.registered(registers, register, port).0.follows(self),
            self.registered(registers, register, port).0.has_slots(
                self.registered(registers, register, port).1,
            ),
            self.registered(registers, register, port).1.len() == registers.len(),
    {
        if let Some(other) = registers[register as int] {
            self.lemma_linked_wf(other, port);
            self.lemma_has_slots(self.linked(other, port), registers);
        }
    }

    pub proof fn lemma_has_slots(self, later: Net, slots: Slots)
        requires
            self.has_slots(slots),
            later.follows(self),
        ensures
            later.has_slots(slots),
    {
        assert forall|i: int| 0 <= i < slots.len() implies (#[trigger] slots[i] matches Some(port)
            ==> later.has_port(port)) by {
            if let Some(port) = slots[i] {
                assert(self.has_port(port));
            }
        }
    }

    /// A port of a net is one of it still when its host has grown.
    pub proof fn lemma_has_port_hosted(self, host: HostView, port: Port)
        requires
            self.has_port(port),
            host.extends(self.host),
        ensures
            self.with_host(host).has_port(port),
    {
        if let Port::ExtVal(value) = port {
            self.lemma_has_value_hosted(host, value);
        }
    }

    proof fn lemma_has_value_hosted(self, host: HostView, value: ExtVal)
        requires
            self.host.has_value(value),
            host.extends(self.host),
        ensures
            host.has_value(value),
    {
        value.lemma_in_larger_arenas(
            self.host.programs.len(),
            self.host.grafts.len(),
            host.programs.len(),
            host.grafts.len(),
        );
    }

    proof fn lemma_has_requests(self, later: Net, requests: Seq<DynamicProgramRequest>)
        requires
            self.has_requests(requests),
            later.cells.len() >= self.cells.len(),
            later.host.programs.len() >= self.host.programs.len(),
        ensures
            later.has_requests(requests),
    {
        assert forall|i: int| 0 <= i < requests.len() implies later.has_request(
            #[trigger] requests[i],
        ) by {
            assert(self.has_request(requests[i]));
        }
    }

    /// A net is well-formed still when its host has grown.
    pub proof fn lemma_hosted_wf(self, host: HostView)
        requires
            self.wf(),
            host.wf(),
            host.extends(self.host),
            host.mailboxes == self.host.mailboxes,
        ensures
            self.with_host(host).wf(),
    {
        let later = self.with_host(host);
        assert forall|i: int| 0 <= i < self.cells.len() implies (
            #[trigger] self.cells[i] matches Some(port) ==> later.has_port(port)) by {
            if let Some(port) = self.cells[i] {
                self.lemma_has_port_hosted(host, port);
            }
        }
        assert forall|i: int| 0 <= i < self.fast.len() implies later.has_pair(
            (#[trigger] self.fast[i]).0,
            self.fast[i].1,
        ) by {
            self.lemma_has_port_hosted(host, self.fast[i].0);
            self.lemma_has_port_hosted(host, self.fast[i].1);
        }
        assert forall|i: int| 0 <= i < self.slow.len() implies later.has_pair(
            (#[trigger] self.slow[i]).0,
            self.slow[i].1,
        ) by {
            self.lemma_has_port_hosted(host, self.slow[i].0);
            self.lemma_has_port_hosted(host, self.slow[i].1);
        }
        assert forall|i: int| 0 <= i < self.requests.len() implies later.has_requests(
            #[trigger] self.requests[i],
        ) by {
            self.lemma_has_requests(later, self.requests[i]);
        }
        assert forall|i: int| 0 <= i < self.calls.len() implies later.has_call(
            #[trigger] self.calls[i],
        ) by {
            assert(self.has_call(self.calls[i]));
            self.lemma_has_value_hosted(host, self.calls[i].input);
        }
    }

    proof fn lemma_linked_twice_wf(self, a: Port, b: Port, c: Port, d: Port)
        requires
            self.wf(),
            self.has_port(a),
            self.has_port(b),
            self.has_port(c),
            self.has_port(d),
        ensures
            self.linked(a, b).linked(c, d).wf(),
            self.linked(a, b).linked(c, d).follows(self),
            self.linked(a, b).linked(c, d).cells.len() == self.cells.len(),
    {
        self.lemma_linked_wf(a, b);
        self.linked(a, b).lemma_linked_wf(c, d);
        self.lemma_linked_twice_quiet(a, b, c, d);
    }

    proof fn lemma_commuted_wf(self, a: Node, b: Node)
        requires
            self.wf(),
            self.has_node(a),
            self.has_node(b),
            self.commuted(a, b).cells.len() <= usize::MAX,
        ensures
            self.commuted(a, b).wf(),
    {
        let net0 = self.with_stats(self.stats.commuted());
        let a1 = net0.next_node(a.kind, a.label);
        let net1 = net0.with_node();
        let a2 = net1.next_node(a.kind, a.label);
        let net2 = net1.with_node();
        let b1 = net2.next_node(b.kind, b.label);
        let net3 = net2.with_node();
        let b2 = net3.next_node(b.kind, b.label);
        let net4 = net3.with_node();
        let net6 = net4.wired(a1.left, b1.left).wired(a1.right, b2.left);
        let net8 = net6.wired(a2.left, b1.right).wired(a2.right, b2.right);
        let net10 = net8.linked(Port::Wire(a.left), Port::Node(b1)).linked(
            Port::Wire(a.right),
            Port::Node(b2),
        );
        let (left1, right1) = (Port::Wire(a1.left), Port::Wire(a1.right));
        let (left2, right2) = (Port::Wire(a2.left), Port::Wire(a2.right));
        let (left3, right3) = (Port::Wire(b1.left), Port::Wire(b1.right));
        let (left4, right4) = (Port::Wire(b2.left), Port::Wire(b2.right));
        net4.lemma_linked_twice_quiet(left1, left3, right1, left4);
        net6.lemma_linked_twice_quiet(left2, right3, right2, right4);
        net8.lemma_linked_twice_quiet(
            Port::Wire(a.left),
            Port::Node(b1),
            Port::Wire(a.right),
            Port::Node(b2),
        );
        net10.lemma_linked_twice_quiet(
            Port::Wire(b.left),
            Port::Node(a1),
            Port::Wire(b.right),
            Port::Node(a2),
        );
        net0.lemma_with_node_wf(a.kind, a.label);
        net1.lemma_with_node_wf(a.kind, a.label);
        net2.lemma_with_node_wf(b.kind, b.label);
        net3.lemma_with_node_wf(b.kind, b.label);
        net4.lemma_linked_twice_wf(left1, left3, right1, left4);
        net6.lemma_linked_twice_wf(left2, right3, right2, right4);
        net8.lemma_linked_twice_wf(
            Port::Wire(a.left),
            Port::Node(b1),
            Port::Wire(a.right),
            Port::Node(b2),
        );
        net10.lemma_linked_twice_wf(
            Port::Wire(b.left),
            Port::Node(a1),
            Port::Wire(b.right),
            Port::Node(a2),
        );
    }

    proof fn lemma_called_wf(self, value: ExtVal, node: Node)
        requires
            self.wf(),
            self.host.has_value(value),
            self.has_node(node),
            node.kind == NodeKind::ExtFn,
            self.called(value, node).cells.len() <= usize::MAX,
        ensures
            self.called(value, node).wf(),
    {
        let net = self.with_stats(self.stats.called());
        net.with_flags(Flags { ext_generic: true, ..net.flags }).lemma_linked_twice_wf(
            Port::Wire(node.left),
            Port::Erase,
            Port::Wire(node.right),
            Port::Erase,
        );
        match self.host.fns[node.label as int].kind {
            ExtFnKind::ParseIvy(mailbox) => if let Payload::Text(source) = value.payload {
                net.lemma_requested_wf(
                    mailbox,
                    DynamicProgramRequest::ParseIvy { source, output: node.left },
                    node.right,
                );
            },
            ExtFnKind::ResolveProgram(mailbox) => if let Payload::Pair(first, second) = value.payload {
                if let (Payload::Program(module), Payload::Text(entry)) = (
                    first.payload,
                    second.payload,
                ) {
                    assert(self.host.has_value(*first));
                    net.lemma_requested_wf(
                        mailbox,
                        DynamicProgramRequest::Resolve { module, entry, output: node.left },
                        node.right,
                    );
                }
            },
            ExtFnKind::InvokeGraft => if let Payload::Graft(handle) = value.payload {
                net.lemma_invoked_wf(handle.graft, node.left, node.right);
            },
            ExtFnKind::Host => {},
        }
    }

    /// One more request of a net keeps it well-formed.
    pub(crate) proof fn lemma_posted_wf(
        self,
        mailbox: DynamicProgramMailbox,
        request: DynamicProgramRequest,
    )
        requires
            self.wf(),
            self.has_request(request),
        ensures
            self.posted(mailbox, request).wf(),
    {
        let later = self.posted(mailbox, request);
        assert forall|i: int| 0 <= i < later.requests.len() implies later.has_requests(
            #[trigger] later.requests[i],
        ) by {
            self.lemma_has_requests(later, self.requests[i]);
        }
    }

    proof fn lemma_requested_wf(
        self,
        mailbox: DynamicProgramMailbox,
        request: DynamicProgramRequest,
        right: Wire,
    )
        requires
            self.wf(),
            self.has_request(request),
            self.has_wire(right),
        ensures
            self.requested(mailbox, request, right).wf(),
    {
        self.lemma_posted_wf(mailbox, request);
        self.posted(mailbox, request).lemma_linked_wf(Port::Wire(right), Port::Erase);
    }

    proof fn lemma_invoked_wf(self, graft: GraftId, input: Wire, output: Wire)
        requires
            self.wf(),
            graft.index < self.host.grafts.len(),
            self.has_wire(input),
            self.has_wire(output),
            self.invoked(graft, input, output).cells.len() <= usize::MAX,
        ensures
            self.invoked(graft, input, output).wf(),
    {
        let boundary = self.next_node(NodeKind::Comb, 0);
        let (left, right) = (Port::Wire(boundary.left), Port::Wire(boundary.right));
        let (input, output) = (Port::Wire(input), Port::Wire(output));
        let net = self.with_node().linked(left, input).linked(right, output);
        self.with_node().lemma_linked_twice_quiet(left, input, right, output);
        net.lemma_linked_quiet(Port::Graft(graft), Port::Node(boundary));
        self.lemma_with_node_wf(NodeKind::Comb, 0);
        self.with_node().lemma_linked_twice_wf(left, input, right, output);
        net.lemma_linked_wf(Port::Graft(graft), Port::Node(boundary));
    }

    proof fn lemma_performed_wf(self, registers: Slots, instruction: Instruction)
        requires
            self.wf(),
            self.has_slots(registers),
            registers.len() <= usize::MAX,
            self.host.has_instruction(instruction, registers.len() as usize),
            self.performed(registers, instruction).0.cells.len() <= usize::MAX,
        ensures
            self.performed(registers, instruction).0.wf(),
            self.performed(registers, instruction).0.follows(self),
            self.performed(registers, instruction).0.has_slots(
                self.performed(registers, instruction).1,
            ),
            self.performed(registers, instruction).1.len() == registers.len(),
    {
        match instruction {
            Instruction::Nilary { port, value } => {
                self.lemma_registered_wf(registers, port, Net::nilary_port(value));
            },
            Instruction::Binary { kind, label, principal, left, right } => {
                let node = self.next_node(kind, label);
                let (port1, port2) = (Port::Wire(node.left), Port::Wire(node.right));
                let net0 = self.with_node();
                let (net1, registers1) = net0.registered(registers, principal, Port::Node(node));
                let (net2, registers2) = net1.registered(registers1, left, port1);
                net0.lemma_registered_keeps(registers, principal, Port::Node(node));
                net1.lemma_registered_keeps(registers1, left, port1);
                net2.lemma_registered_keeps(registers2, right, port2);
                self.lemma_with_node_wf(kind, label);
                self.lemma_has_slots(net0, registers);
                net0.lemma_registered_wf(registers, principal, Port::Node(node));
                net1.lemma_registered_wf(registers1, left, port1);
                net2.lemma_registered_wf(registers2, right, port2);
            },
        }
    }

    proof fn lemma_executed_wf(self, registers: Slots, instructions: Seq<Instruction>)
        requires
            self.wf(),
            self.has_slots(registers),
            registers.len() <= usize::MAX,
            forall|i: int|
                0 <= i < instructions.len() ==> self.host.has_instruction(
                    #[trigger] instructions[i],
                    registers.len() as usize,
                ),
            self.executed(registers, instructions).0.cells.len() <= usize::MAX,
        ensures
            self.executed(registers, instructions).0.wf(),
            self.executed(registers, instructions).0.follows(self),
            self.executed(registers, instructions).0.has_slots(
                self.executed(registers, instructions).1,
            ),
            self.executed(registers, instructions).1.len() == registers.len(),
        decreases instructions.len(),
    {
        if instructions.len() > 0 {
            let rest = instructions.drop_last();
            let last = instructions.last();
            assert forall|i: int| 0 <= i < rest.len() implies self.host.has_instruction(
                #[trigger] rest[i],
                registers.len() as usize,
            ) by {
                assert(rest[i] == instructions[i]);
            }
            assert(self.host.has_instruction(
                instructions[instructions.len() - 1],
                registers.len() as usize,
            ));
            let (net, slots) = self.executed(registers, rest);
            net.lemma_performed_keeps(slots, last);
            self.lemma_executed_wf(registers, rest);
            net.lemma_performed_wf(slots, last);
        }
    }

    proof fn lemma_expanded_wf(self, graft: GraftId, port: Port)
        requires
            self.wf(),
            graft.index < self.host.grafts.len(),
            self.has_port(port),
            self.expanded(graft, port).cells.len() <= usize::MAX,
        ensures
            self.expanded(graft, port).wf(),
    {
        let body = self.host.grafts[graft.index as int];
        let registers = Seq::new(body.registers as nat, |i: int| None::<Port>).update(
            0,
            Some(port),
        );
        assert(self.host.has_graft(body));
        self.with_stats(self.stats.expanded()).lemma_executed_wf(registers, body.instructions);
    }

    proof fn lemma_applied_wf(self, port: Port, node: Node)
        requires
            self.wf(),
            self.has_port(port),
            self.has_node(node),
            self.applied(port, node).cells.len() <= usize::MAX,
        ensures
            self.applied(port, node).wf(),
    {
        let (left, right) = (Port::Wire(node.left), Port::Wire(node.right));
        match port {
            Port::ExtVal(value) => match node.kind {
                NodeKind::Comb => {
                    let net = self.with_stats(self.stats.copied());
                    net.lemma_linked_twice_wf(left, port, right, port);
                    net.with_flags(Flags { ext_copy: true, ..net.flags }).lemma_linked_twice_wf(
                        left,
                        port,
                        right,
                        Port::Erase,
                    );
                },
                NodeKind::ExtFn => self.lemma_called_wf(value, node),
            },
            _ => self.with_stats(self.stats.erased()).lemma_linked_twice_wf(
                left,
                Port::Erase,
                right,
                Port::Erase,
            ),
        }
    }

    /// The interaction of an active pair keeps a net well-formed.
    pub(crate) proof fn lemma_interacted_wf(self, a: Port, b: Port)
        requires
            self.wf(),
            self.has_pair(a, b),
            self.interacted(a, b).cells.len() <= usize::MAX,
        ensures
            self.interacted(a, b).wf(),
    {
        match (a, b) {
            (Port::Graft(_), Port::Erase) => {},
            (Port::Erase, Port::Graft(_)) => {},
            (Port::Graft(graft), port) => self.lemma_expanded_wf(graft, port),
            (port, Port::Graft(graft)) => self.lemma_expanded_wf(graft, port),
            (Port::Node(a), Port::Node(b)) => if Net::same_comb(a, b) {
                self.with_stats(self.stats.annihilated()).lemma_linked_twice_wf(
                    Port::Wire(a.left),
                    Port::Wire(b.left),
                    Port::Wire(a.right),
                    Port::Wire(b.right),
                );
            } else {
                self.lemma_commuted_wf(a, b);
            },
            (port, Port::Node(node)) => self.lemma_applied_wf(port, node),
            (Port::Node(node), port) => self.lemma_applied_wf(port, node),
            _ => {},
        }
    }

    /// A reduction keeps a net well-formed.
    pub(crate) proof fn lemma_step_wf(self)
        requires
            self.wf(),
            self.step().cells.len() <= usize::MAX,
        ensures
            self.step().wf(),
    {
        if !self.quiescent() {
            let (a, b) = self.next_pair();
            if self.fast.len() > 0 {
                assert(self.fast[self.fast.len() - 1] == (a, b));
            } else {
                assert(self.slow[self.slow.len() - 1] == (a, b));
            }
            self.popped().lemma_interacted_wf(a, b);
        }
    }

    proof fn lemma_swept_wf(self, pairs: Seq<(Port, Port)>)
        requires
            self.wf(),
            self.has_pairs(pairs),
            self.swept(pairs).cells.len() <= usize::MAX,
        ensures
            self.swept(pairs).wf(),
        decreases pairs.len(),
    {
        if pairs.len() > 0 {
            let rest = pairs.drop_last();
            let (a, b) = pairs.last();
            let net = self.swept(rest);
            self.lemma_swept_keeps(rest);
            net.lemma_interacted_keeps(a, b);
            assert forall|i: int| 0 <= i < rest.len() implies self.has_pair(
                (#[trigger] rest[i]).0,
                rest[i].1,
            ) by {
                assert(rest[i] == pairs[i]);
            }
            assert(self.has_pair(pairs[pairs.len() - 1].0, pairs[pairs.len() - 1].1));
            self.lemma_swept_wf(rest);
            net.lemma_interacted_wf(a, b);
        }
    }

    /// A round keeps a net well-formed.
    pub(crate) proof fn lemma_round_wf(self)
        requires
            self.wf(),
            self.round().cells.len() <= usize::MAX,
        ensures
            self.round().wf(),
    {
        if !self.quiescent() {
            let pairs = self.fast + self.slow;
            let net = Net { fast: Seq::empty(), slow: Seq::empty(), ..self };
            assert forall|i: int| 0 <= i < pairs.len() implies net.has_pair(
                (#[trigger] pairs[i]).0,
                pairs[i].1,
            ) by {
                if i < self.fast.len() {
                    assert(pairs[i] == self.fast[i]);
                } else {
                    assert(pairs[i] == self.slow[i - self.fast.len()]);
                }
            }
            net.lemma_swept_wf(pairs);
        }
    }
}

} // verus!
