//! How a net reduces does not depend on its statistics, and what it counts does not depend
//! on the time that was measured.
use vstd::prelude::*;

use crate::host::dynamic::DynamicProgramRequest;
use crate::runtime::ext::{ExtFnKind, ExtVal, Payload};
use crate::runtime::graft::{GraftId, Instruction};
use crate::runtime::net::{Net, Slots};
use crate::runtime::port::{Node, NodeKind, Port};
use crate::runtime::wire::Wire;

verus! {

impl Net {
    pub proof fn lemma_linked_alike(self, other: Net, a: Port, b: Port)
        requires
            self.alike(other),
        ensures
            self.linked(a, b).alike(other.linked(a, b)),
            self.counts_like(other) ==> self.linked(a, b).counts_like(other.linked(a, b)),
        decreases Net::occupied(self.cells),
    {
        match (a, b) {
            (Port::Wire(wire), port) => {
                if let Some(content) = self.content(wire) {
                    Net::lemma_occupied_update(self.cells, wire.cell as int, None);
                    self.freed(wire).lemma_linked_alike(other.freed(wire), content, port);
                }
            },
            (port, Port::Wire(wire)) => {
                if let Some(content) = self.content(wire) {
                    Net::lemma_occupied_update(self.cells, wire.cell as int, None);
                    self.freed(wire).lemma_linked_alike(other.freed(wire), content, port);
                }
            },
            _ => {},
        }
    }

    proof fn lemma_pruned_alike(self, other: Net, left: Wire, right: Wire)
        requires
            self.alike(other),
        ensures
            self.pruned(left, right).alike(other.pruned(left, right)),
            self.counts_like(other) ==> self.pruned(left, right).counts_like(
                other.pruned(left, right),
            ),
    {
        let (a, b) = (Port::Wire(left), Port::Erase);
        self.lemma_linked_alike(other, a, b);
        self.linked(a, b).lemma_linked_alike(other.linked(a, b), Port::Wire(right), Port::Erase);
    }

    proof fn lemma_with_node_alike(self, other: Net, kind: NodeKind, label: usize)
        requires
            self.alike(other),
        ensures
            self.with_node().alike(other.with_node()),
            self.counts_like(other) ==> self.with_node().counts_like(other.with_node()),
            self.next_node(kind, label) == other.next_node(kind, label),
    {
    }

    proof fn lemma_annihilated_alike(self, other: Net, a: Node, b: Node)
        requires
            self.alike(other),
        ensures
            self.annihilated(a, b).alike(other.annihilated(a, b)),
            self.counts_like(other) ==> self.annihilated(a, b).counts_like(other.annihilated(a, b)),
    {
        let (x, y) = (Port::Wire(a.left), Port::Wire(b.left));
        let net1 = self.with_stats(self.stats.annihilated());
        let net2 = other.with_stats(other.stats.annihilated());
        net1.lemma_linked_alike(net2, x, y);
        net1.linked(x, y).lemma_linked_alike(
            net2.linked(x, y),
            Port::Wire(a.right),
            Port::Wire(b.right),
        );
    }

    proof fn lemma_commuted_alike(self, other: Net, a: Node, b: Node)
        requires
            self.alike(other),
        ensures
            self.commuted(a, b).alike(other.commuted(a, b)),
            self.counts_like(other) ==> self.commuted(a, b).counts_like(other.commuted(a, b)),
    {
        let s0 = self.with_stats(self.stats.commuted());
        let t0 = other.with_stats(other.stats.commuted());
        s0.lemma_with_node_alike(t0, a.kind, a.label);
        let a1 = s0.next_node(a.kind, a.label);
        let (s1, t1) = (s0.with_node(), t0.with_node());
        s1.lemma_with_node_alike(t1, a.kind, a.label);
        let a2 = s1.next_node(a.kind, a.label);
        let (s2, t2) = (s1.with_node(), t1.with_node());
        s2.lemma_with_node_alike(t2, b.kind, b.label);
        let b1 = s2.next_node(b.kind, b.label);
        let (s3, t3) = (s2.with_node(), t2.with_node());
        s3.lemma_with_node_alike(t3, b.kind, b.label);
        let b2 = s3.next_node(b.kind, b.label);
        let (s4, t4) = (s3.with_node(), t3.with_node());
        s4.lemma_linked_alike(t4, Port::Wire(a1.left), Port::Wire(b1.left));
        let (s5, t5) = (s4.wired(a1.left, b1.left), t4.wired(a1.left, b1.left));
        s5.lemma_linked_alike(t5, Port::Wire(a1.right), Port::Wire(b2.left));
        let (s6, t6) = (s5.wired(a1.right, b2.left), t5.wired(a1.right, b2.left));
        s6.lemma_linked_alike(t6, Port::Wire(a2.left), Port::Wire(b1.right));
        let (s7, t7) = (s6.wired(a2.left, b1.right), t6.wired(a2.left, b1.right));
        s7.lemma_linked_alike(t7, Port::Wire(a2.right), Port::Wire(b2.right));
        let (s8, t8) = (s7.wired(a2.right, b2.right), t7.wired(a2.right, b2.right));
        s8.lemma_linked_alike(t8, Port::Wire(a.left), Port::Node(b1));
        let s9 = s8.linked(Port::Wire(a.left), Port::Node(b1));
        let t9 = t8.linked(Port::Wire(a.left), Port::Node(b1));
        s9.lemma_linked_alike(t9, Port::Wire(a.right), Port::Node(b2));
        let s10 = s9.linked(Port::Wire(a.right), Port::Node(b2));
        let t10 = t9.linked(Port::Wire(a.right), Port::Node(b2));
        s10.lemma_linked_alike(t10, Port::Wire(b.left), Port::Node(a1));
        let s11 = s10.linked(Port::Wire(b.left), Port::Node(a1));
        let t11 = t10.linked(Port::Wire(b.left), Port::Node(a1));
        s11.lemma_linked_alike(t11, Port::Wire(b.right), Port::Node(a2));
    }

    proof fn lemma_copied_alike(self, other: Net, value: ExtVal, node: Node)
        requires
            self.alike(other),
        ensures
            self.copied(value, node).alike(other.copied(value, node)),
            self.counts_like(other) ==> self.copied(value, node).counts_like(
                other.copied(value, node),
            ),
    {
        let copied = self.with_stats(self.stats.copied());
        let other_copied = other.with_stats(other.stats.copied());
        let (net1, net2, second) = if value.is_copy() {
            (copied, other_copied, Port::ExtVal(value))
        } else {
            (
                copied.with_flags(
                    crate::runtime::flags::Flags { ext_copy: true, ..copied.flags },
                ),
                other_copied.with_flags(
                    crate::runtime::flags::Flags { ext_copy: true, ..other_copied.flags },
                ),
                Port::Erase,
            )
        };
        let (a, b) = (Port::Wire(node.left), Port::ExtVal(value));
        net1.lemma_linked_alike(net2, a, b);
        net1.linked(a, b).lemma_linked_alike(net2.linked(a, b), Port::Wire(node.right), second);
    }

    proof fn lemma_invoked_alike(self, other: Net, graft: GraftId, input: Wire, output: Wire)
        requires
            self.alike(other),
        ensures
            self.invoked(graft, input, output).alike(other.invoked(graft, input, output)),
            self.counts_like(other) ==> self.invoked(graft, input, output).counts_like(
                other.invoked(graft, input, output),
            ),
    {
        self.lemma_with_node_alike(other, NodeKind::Comb, 0);
        let boundary = self.next_node(NodeKind::Comb, 0);
        let (s1, t1) = (self.with_node(), other.with_node());
        s1.lemma_linked_alike(t1, Port::Wire(boundary.left), Port::Wire(input));
        let (s2, t2) = (s1.wired(boundary.left, input), t1.wired(boundary.left, input));
        s2.lemma_linked_alike(t2, Port::Wire(boundary.right), Port::Wire(output));
        let (s3, t3) = (s2.wired(boundary.right, output), t2.wired(boundary.right, output));
        s3.lemma_linked_alike(t3, Port::Graft(graft), Port::Node(boundary));
    }

    proof fn lemma_called_alike(self, other: Net, value: ExtVal, node: Node)
        requires
            self.alike(other),
        ensures
            self.called(value, node).alike(other.called(value, node)),
            self.counts_like(other) ==> self.called(value, node).counts_like(
                other.called(value, node),
            ),
    {
        let s = self.with_stats(self.stats.called());
        let t = other.with_stats(other.stats.called());
        let refused = crate::runtime::flags::Flags { ext_generic: true, ..s.flags };
        s.with_flags(refused).lemma_pruned_alike(t.with_flags(refused), node.left, node.right);
        if let ExtFnKind::ParseIvy(mailbox) = self.host.fns[node.label as int].kind {
            if let Payload::Text(source) = value.payload {
                let request = DynamicProgramRequest::ParseIvy { source, output: node.left };
                s.posted(mailbox, request).lemma_linked_alike(
                    t.posted(mailbox, request),
                    Port::Wire(node.right),
                    Port::Erase,
                );
            }
        }
        if let ExtFnKind::ResolveProgram(mailbox) = self.host.fns[node.label as int].kind {
            if let Payload::Pair(first, second) = value.payload {
                if let (Payload::Program(module), Payload::Text(entry)) = (
                    first.payload,
                    second.payload,
                ) {
                    let request = DynamicProgramRequest::Resolve {
                        module,
                        entry,
                        output: node.left,
                    };
                    s.posted(mailbox, request).lemma_linked_alike(
                        t.posted(mailbox, request),
                        Port::Wire(node.right),
                        Port::Erase,
                    );
                }
            }
        }
        match value.payload {
            Payload::Graft(handle) => {
                s.lemma_invoked_alike(t, handle.graft, node.left, node.right);
            },
            _ => {},
        }
    }

    proof fn lemma_registered_alike(self, other: Net, registers: Slots, register: usize, port: Port)
        requires
            self.alike(other),
        ensures
            self.registered(registers, register, port).0.alike(
                other.registered(registers, register, port).0,
            ),
            self.counts_like(other) ==> self.registered(registers, register, port).0.counts_like(
                other.registered(registers, register, port).0,
            ),
            self.registered(registers, register, port).1 == other.registered(
                registers,
                register,
                port,
            ).1,
    {
        if let Some(content) = registers[register as int] {
            self.lemma_linked_alike(other, content, port);
        }
    }

    proof fn lemma_performed_alike(self, other: Net, registers: Slots, instruction: Instruction)
        requires
            self.alike(other),
        ensures
            self.performed(registers, instruction).0.alike(
                other.performed(registers, instruction).0,
            ),
            self.counts_like(other) ==> self.performed(registers, instruction).0.counts_like(
                other.performed(registers, instruction).0,
            ),
            self.performed(registers, instruction).1 == other.performed(registers, instruction).1,
    {
        match instruction {
            Instruction::Nilary { port, value } => {
                self.lemma_registered_alike(other, registers, port, Net::nilary_port(value));
            },
            Instruction::Binary { kind, label, principal, left, right } => {
                self.lemma_with_node_alike(other, kind, label);
                let node = self.next_node(kind, label);
                let (s0, t0) = (self.with_node(), other.with_node());
                s0.lemma_registered_alike(t0, registers, principal, Port::Node(node));
                let (s1, registers1) = s0.registered(registers, principal, Port::Node(node));
                let (t1, _) = t0.registered(registers, principal, Port::Node(node));
                s1.lemma_registered_alike(t1, registers1, left, Port::Wire(node.left));
                let (s2, registers2) = s1.registered(registers1, left, Port::Wire(node.left));
                let (t2, _) = t1.registered(registers1, left, Port::Wire(node.left));
                s2.lemma_registered_alike(t2, registers2, right, Port::Wire(node.right));
            },
        }
    }

    proof fn lemma_executed_alike(
        self,
        other: Net,
        registers: Slots,
        instructions: Seq<Instruction>,
    )
        requires
            self.alike(other),
        ensures
            self.executed(registers, instructions).0.alike(
                other.executed(registers, instructions).0,
            ),
            self.counts_like(other) ==> self.executed(registers, instructions).0.counts_like(
                other.executed(registers, instructions).0,
            ),
            self.executed(registers, instructions).1 == other.executed(registers, instructions).1,
        decreases instructions.len(),
    {
        if instructions.len() > 0 {
            let rest = instructions.drop_last();
            self.lemma_executed_alike(other, registers, rest);
            self.executed(registers, rest).0.lemma_performed_alike(
                other.executed(registers, rest).0,
                self.executed(registers, rest).1,
                instructions.last(),
            );
        }
    }

    proof fn lemma_expanded_alike(self, other: Net, graft: GraftId, port: Port)
        requires
            self.alike(other),
        ensures
            self.expanded(graft, port).alike(other.expanded(graft, port)),
            self.counts_like(other) ==> self.expanded(graft, port).counts_like(
                other.expanded(graft, port),
            ),
    {
        let body = self.host.grafts[graft.index as int];
        let registers = Seq::new(body.registers as nat, |i: int| None::<Port>).update(
            0,
            Some(port),
        );
        self.with_stats(self.stats.expanded()).lemma_executed_alike(
            other.with_stats(other.stats.expanded()),
            registers,
            body.instructions,
        );
    }

    proof fn lemma_applied_alike(self, other: Net, port: Port, node: Node)
        requires
            self.alike(other),
        ensures
            self.applied(port, node).alike(other.applied(port, node)),
            self.counts_like(other) ==> self.applied(port, node).counts_like(
                other.applied(port, node),
            ),
    {
        self.with_stats(self.stats.erased()).lemma_pruned_alike(
            other.with_stats(other.stats.erased()),
            node.left,
            node.right,
        );
        if let Port::ExtVal(value) = port {
            self.lemma_copied_alike(other, value, node);
            self.lemma_called_alike(other, value, node);
        }
    }

    /// An interaction changes two nets that differ in their statistics at most in
    /// the same way.
    pub proof fn lemma_interacted_alike(self, other: Net, a: Port, b: Port)
        requires
            self.alike(other),
        ensures
            self.interacted(a, b).alike(other.interacted(a, b)),
            self.counts_like(other) ==> self.interacted(a, b).counts_like(other.interacted(a, b)),
    {
        match (a, b) {
            (Port::Graft(graft), port) => self.lemma_expanded_alike(other, graft, port),
            _ => {},
        }
        match (a, b) {
            (port, Port::Graft(graft)) => self.lemma_expanded_alike(other, graft, port),
            (Port::Node(a), Port::Node(b)) => {
                self.lemma_annihilated_alike(other, a, b);
                self.lemma_commuted_alike(other, a, b);
            },
            (port, Port::Node(node)) => self.lemma_applied_alike(other, port, node),
            (Port::Node(node), port) => self.lemma_applied_alike(other, port, node),
            _ => {},
        }
    }

    pub proof fn lemma_step_alike(self, other: Net)
        requires
            self.alike(other),
        ensures
            self.step().alike(other.step()),
            self.counts_like(other) ==> self.step().counts_like(other.step()),
    {
        if !self.quiescent() {
            let (a, b) = self.next_pair();
            self.popped().lemma_interacted_alike(other.popped(), a, b);
        }
    }

    pub proof fn lemma_steps_alike(self, other: Net, n: nat)
        requires
            self.alike(other),
        ensures
            self.steps(n).alike(other.steps(n)),
            self.counts_like(other) ==> self.steps(n).counts_like(other.steps(n)),
        decreases n,
    {
        if n > 0 {
            self.lemma_steps_alike(other, (n - 1) as nat);
            self.steps((n - 1) as nat).lemma_step_alike(other.steps((n - 1) as nat));
        }
    }

    pub proof fn lemma_swept_alike(self, other: Net, pairs: Seq<(Port, Port)>)
        requires
            self.alike(other),
        ensures
            self.swept(pairs).alike(other.swept(pairs)),
            self.counts_like(other) ==> self.swept(pairs).counts_like(other.swept(pairs)),
        decreases pairs.len(),
    {
        if pairs.len() > 0 {
            let rest = pairs.drop_last();
            self.lemma_swept_alike(other, rest);
            self.swept(rest).lemma_interacted_alike(
                other.swept(rest),
                pairs.last().0,
                pairs.last().1,
            );
        }
    }

    pub proof fn lemma_round_alike(self, other: Net)
        requires
            self.alike(other),
        ensures
            self.round().alike(other.round()),
            self.counts_like(other) ==> self.round().counts_like(other.round()),
    {
        if !self.quiescent() {
            Net { fast: Seq::empty(), slow: Seq::empty(), ..self }.lemma_swept_alike(
                Net { fast: Seq::empty(), slow: Seq::empty(), ..other },
                self.fast + self.slow,
            );
        }
    }

    pub proof fn lemma_rounds_alike(self, other: Net, n: nat)
        requires
            self.alike(other),
        ensures
            self.rounds(n).alike(other.rounds(n)),
            self.counts_like(other) ==> self.rounds(n).counts_like(other.rounds(n)),
        decreases n,
    {
        if n > 0 {
            self.lemma_rounds_alike(other, (n - 1) as nat);
            self.rounds((n - 1) as nat).lemma_round_alike(other.rounds((n - 1) as nat));
        }
    }
}

} // verus!
