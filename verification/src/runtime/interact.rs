//! Linking ports, and the interactions of active pairs.
use vstd::prelude::*;

use crate::host::dynamic::{DynamicProgramMailbox, DynamicProgramRequest};
use crate::runtime::ext::{ExtCall, ExtFnKind, ExtVal, Payload};
use crate::runtime::flags::Flags;
use crate::runtime::graft::{GraftId, Instruction, Nilary};
use crate::runtime::net::Net;
use crate::runtime::port::{Node, NodeKind, Port, Tag};
use crate::runtime::wire::Wire;
use crate::runtime::Runtime;

verus! {

impl Runtime {
    /// Takes what `wire` holds; the wire is freed if it holds something.
    fn unlink(&mut self, wire: &Wire) -> (other: Option<Port>)
        requires
            old(self).wf(),
            old(self)@.has_wire(*wire),
        ensures
            other == old(self)@.content(*wire),
            final(self)@ == (if other is Some {
                old(self)@.freed(*wire)
            } else {
                old(self)@
            }),
            final(self).wf(),
    {
        proof {
            self@.lemma_freed_wf(*wire);
        }
        let other = self.heap.cells[wire.cell].take();
        if other.is_some() {
            self.heap.free.push(wire.cell);
            self.stats.mem_free = self.stats.mem_free.wrapping_add(1);
            assert(self@ =~= old(self)@.freed(*wire));
        } else {
            assert(self@.cells =~= old(self)@.cells);
            assert(self@ =~= old(self)@);
        }
        other
    }

    /// Whether the interaction of two ports does without new wires.
    fn is_fast(a: &Port, b: &Port) -> (fast: bool)
        ensures
            fast == Net::is_fast(*a, *b),
    {
        match (a, b) {
            (Port::Graft(_), Port::Erase) => true,
            (Port::Erase, Port::Graft(_)) => true,
            (Port::Graft(_), _) => false,
            (_, Port::Graft(_)) => false,
            (Port::Node(a), Port::Node(b)) => Runtime::same_comb(a, b),
            (Port::ExtVal(_), Port::Node(node)) => node.kind == NodeKind::Comb,
            (Port::Node(node), Port::ExtVal(_)) => node.kind == NodeKind::Comb,
            _ => true,
        }
    }

    /// Whether two nodes annihilate each other.
    fn same_comb(a: &Node, b: &Node) -> (same: bool)
        ensures
            same == Net::same_comb(*a, *b),
    {
        a.kind == NodeKind::Comb && b.kind == NodeKind::Comb && a.label == b.label
    }

    /// Adds an active pair.
    fn enqueue(&mut self, a: Port, b: Port)
        ensures
            final(self)@ == old(self)@.enqueued(a, b),
    {
        if Runtime::is_fast(&a, &b) {
            self.active_fast.push((a, b));
        } else {
            self.active_slow.push((a, b));
        }
        assert(self@ =~= old(self)@.enqueued(a, b));
    }

    /// Links two ports.
    pub fn link(&mut self, a: Port, b: Port)
        requires
            old(self).wf(),
            old(self)@.has_port(a),
            old(self)@.has_port(b),
        ensures
            final(self)@ == old(self)@.linked(a, b),
            final(self).wf(),
            final(self)@.follows(old(self)@),
    {
        proof {
            self@.lemma_linked_wf(a, b);
        }
        let mut first = a;
        let mut second = b;
        loop
            invariant
                self.wf(),
                self@.has_port(first),
                self@.has_port(second),
                self@.linked(first, second) == old(self)@.linked(a, b),
                old(self)@.linked(a, b).wf(),
                old(self)@.linked(a, b).follows(old(self)@),
            decreases Net::occupied(self@.cells),
        {
            let ghost before = self@;
            let (wire, port) = match (first, second) {
                (Port::Wire(wire), port) => (wire, port),
                (port, Port::Wire(wire)) => (wire, port),
                (first, second) => {
                    self.enqueue(first, second);
                    return;
                },
            };
            match self.unlink(&wire) {
                None => {
                    self.heap.cells[wire.cell] = Some(port);
                    assert(self@ =~= before.stored(wire, port));
                    return;
                },
                Some(other) => {
                    proof {
                        Net::lemma_occupied_update(before.cells, wire.cell as int, None);
                        assert(before.cells[wire.cell as int] == Some(other));
                    }
                    first = other;
                    second = port;
                },
            }
        }
    }

    /// Links a wire and a port.
    pub fn link_wire(&mut self, a: Wire, b: Port)
        requires
            old(self).wf(),
            old(self)@.has_wire(a),
            old(self)@.has_port(b),
        ensures
            final(self)@ == old(self)@.linked(Port::Wire(a), b),
            final(self).wf(),
            final(self)@.follows(old(self)@),
    {
        self.link(Port::new_wire(a), b);
    }

    /// Links two wires.
    pub fn link_wire_wire(&mut self, a: Wire, b: Wire)
        requires
            old(self).wf(),
            old(self)@.has_wire(a),
            old(self)@.has_wire(b),
        ensures
            final(self)@ == old(self)@.wired(a, b),
            final(self).wf(),
            final(self)@.follows(old(self)@),
    {
        self.link_wire(a, Port::new_wire(b));
    }

    /// Follows the wires that start at `port` to what is at their end.
    pub fn follow(&mut self, port: Port) -> (end: Port)
        requires
            old(self).wf(),
            old(self)@.has_port(port),
        ensures
            (final(self)@, end) == old(self)@.followed(port),
            final(self).wf(),
            final(self)@.follows(old(self)@),
            final(self)@.has_port(end),
    {
        proof {
            self@.lemma_followed_wf(port);
        }
        let mut current = port;
        loop
            invariant
                self.wf(),
                self@.has_port(current),
                self@.followed(current) == old(self)@.followed(port),
                old(self)@.followed(port).0.wf(),
                old(self)@.followed(port).0.follows(old(self)@),
                old(self)@.followed(port).0.has_port(old(self)@.followed(port).1),
            decreases Net::occupied(self@.cells),
        {
            let ghost before = self@;
            let wire = match current {
                Port::Wire(wire) => wire,
                end => {
                    return end;
                },
            };
            match self.unlink(&wire) {
                None => {
                    return Port::Wire(wire);
                },
                Some(other) => {
                    proof {
                        Net::lemma_occupied_update(before.cells, wire.cell as int, None);
                        assert(before.cells[wire.cell as int] == Some(other));
                    }
                    current = other;
                },
            }
        }
    }

    /// Allocates a wire.
    fn new_wire(&mut self) -> (wire: Wire)
        requires
            old(self).wf(),
        ensures
            final(self)@ == old(self)@.allocated(),
            wire == old(self)@.next_wire(),
            final(self).wf(),
            final(self)@.follows(old(self)@),
            final(self)@.has_wire(wire),
    {
        self.stats.mem_alloc = self.stats.mem_alloc.wrapping_add(1);
        let cell = match self.heap.free.pop() {
            Some(cell) => {
                assert(cell == old(self)@.free.last());
                self.heap.cells[cell] = None;
                cell
            },
            None => {
                let cell = self.heap.cells.len();
                self.heap.cells.push(None);
                cell
            },
        };
        assert(self@ =~= old(self)@.allocated());
        proof {
            assert(self.heap.cells.len() <= usize::MAX);
            old(self)@.lemma_allocated_wf();
        }
        Wire { cell }
    }

    /// Allocates a node; the two wires are the other ends of its auxiliary ports.
    fn new_node_of(&mut self, kind: NodeKind, label: usize) -> (node: (Node, Wire, Wire))
        requires
            old(self).wf(),
            old(self)@.host.has_label(kind, label),
        ensures
            final(self)@ == old(self)@.with_node(),
            node.0 == old(self)@.next_node(kind, label),
            node.1 == node.0.left,
            node.2 == node.0.right,
            final(self).wf(),
            final(self)@.follows(old(self)@),
            final(self)@.has_node(node.0),
    {
        let left = self.new_wire();
        let right = self.new_wire();
        let other_left = Wire { cell: left.cell };
        let other_right = Wire { cell: right.cell };
        (Node { kind, label, left, right }, other_left, other_right)
    }

    /// Allocates a node; the two wires are the other ends of its auxiliary ports.
    pub fn new_node(&mut self, tag: Tag, label: usize) -> (node: (Port, Wire, Wire))
        requires
            old(self).wf(),
            tag.is_binary(),
            old(self)@.host.has_label(tag.node_kind(), label),
        ensures
            final(self)@ == old(self)@.with_node(),
            node.0 == Port::Node(old(self)@.next_node(tag.node_kind(), label)),
            node.1 == old(self)@.next_node(tag.node_kind(), label).left,
            node.2 == old(self)@.next_node(tag.node_kind(), label).right,
            final(self).wf(),
            final(self)@.follows(old(self)@),
            final(self)@.has_port(node.0),
            final(self)@.has_wire(node.1),
            final(self)@.has_wire(node.2),
    {
        let kind = if tag == Tag::ExtFn {
            NodeKind::ExtFn
        } else {
            NodeKind::Comb
        };
        let (node, left, right) = self.new_node_of(kind, label);
        (Port::Node(node), left, right)
    }

    /// Two equal combinators annihilate.
    fn annihilate(&mut self, a: Node, b: Node)
        requires
            old(self).wf(),
            old(self)@.has_node(a),
            old(self)@.has_node(b),
        ensures
            final(self)@ == old(self)@.annihilated(a, b),
            final(self).wf(),
            final(self)@.follows(old(self)@),
    {
        self.stats.annihilate = self.stats.annihilate.wrapping_add(1);
        assert(self@ =~= old(self)@.with_stats(old(self)@.stats.annihilated()));
        self.link_wire_wire(a.left, b.left);
        self.link_wire_wire(a.right, b.right);
    }

    /// Two different nodes commute.
    fn commute(&mut self, a: Node, b: Node)
        requires
            old(self).wf(),
            old(self)@.has_node(a),
            old(self)@.has_node(b),
        ensures
            final(self)@ == old(self)@.commuted(a, b),
            final(self).wf(),
            final(self)@.follows(old(self)@),
    {
        self.stats.commute = self.stats.commute.wrapping_add(1);
        assert(self@ =~= old(self)@.with_stats(old(self)@.stats.commuted()));
        let (a1, a1_left, a1_right) = self.new_node_of(a.kind, a.label);
        let (a2, a2_left, a2_right) = self.new_node_of(a.kind, a.label);
        let (b1, b1_left, b1_right) = self.new_node_of(b.kind, b.label);
        let (b2, b2_left, b2_right) = self.new_node_of(b.kind, b.label);
        self.link_wire_wire(a1_left, b1_left);
        self.link_wire_wire(a1_right, b2_left);
        self.link_wire_wire(a2_left, b1_right);
        self.link_wire_wire(a2_right, b2_right);
        self.link_wire(a.left, Port::Node(b1));
        self.link_wire(a.right, Port::Node(b2));
        self.link_wire(b.left, Port::Node(a1));
        self.link_wire(b.right, Port::Node(a2));
    }

    /// A value meets a combinator.
    fn copy(&mut self, value: ExtVal, node: Node)
        requires
            old(self).wf(),
            old(self)@.host.has_value(value),
            old(self)@.has_node(node),
        ensures
            final(self)@ == old(self)@.copied(value, node),
            final(self).wf(),
            final(self)@.follows(old(self)@),
    {
        self.stats.copy = self.stats.copy.wrapping_add(1);
        let ghost net = old(self)@.with_stats(old(self)@.stats.copied());
        assert(self@ =~= net);
        if value.is_copy() {
            let second = value.duplicate();
            self.link_wire(node.left, Port::new_ext_val(value));
            self.link_wire(node.right, Port::new_ext_val(second));
        } else {
            self.flags.ext_copy = true;
            assert(self@ =~= net.with_flags(Flags { ext_copy: true, ..net.flags }));
            self.link_wire(node.left, Port::new_ext_val(value));
            self.link_wire(node.right, Port::Erase);
        }
    }

    /// Links two wires to erasers.
    fn prune(&mut self, left: Wire, right: Wire)
        requires
            old(self).wf(),
            old(self)@.has_wire(left),
            old(self)@.has_wire(right),
        ensures
            final(self)@ == old(self)@.pruned(left, right),
            final(self).wf(),
            final(self)@.follows(old(self)@),
    {
        self.link_wire(left, Port::Erase);
        self.link_wire(right, Port::Erase);
    }

    /// An eraser meets a node.
    fn erase(&mut self, node: Node)
        requires
            old(self).wf(),
            old(self)@.has_node(node),
        ensures
            final(self)@ == old(self)@.erased(node),
            final(self).wf(),
            final(self)@.follows(old(self)@),
    {
        self.stats.erase = self.stats.erase.wrapping_add(1);
        assert(self@ =~= old(self)@.with_stats(old(self)@.stats.erased()));
        self.prune(node.left, node.right);
    }

    /// Whether dropping `port` loses a linear value.
    fn is_linear(port: &Port) -> (linear: bool)
        ensures
            linear == Net::is_linear(*port),
    {
        match port {
            Port::ExtVal(value) => !value.is_copy(),
            _ => false,
        }
    }

    /// Two ports without auxiliary ports meet.
    fn discard(&mut self, a: Port, b: Port)
        requires
            old(self).wf(),
        ensures
            final(self)@ == old(self)@.dropped(a, b),
            final(self).wf(),
            final(self)@.follows(old(self)@),
    {
        self.stats.erase = self.stats.erase.wrapping_add(1);
        let linear = Runtime::is_linear(&a) || Runtime::is_linear(&b);
        self.flags.ext_erase = self.flags.ext_erase || linear;
        assert(self@ =~= old(self)@.dropped(a, b));
    }

    /// Instantiates `graft` behind a combinator between `input` and `output`.
    pub(crate) fn invoke(&mut self, graft: GraftId, input: Wire, output: Wire)
        requires
            old(self).wf(),
            graft.index < old(self)@.host.grafts.len(),
            old(self)@.has_wire(input),
            old(self)@.has_wire(output),
        ensures
            final(self)@ == old(self)@.invoked(graft, input, output),
            final(self).wf(),
            final(self)@.follows(old(self)@),
    {
        let boundary = self.new_node(Tag::Comb, 0);
        self.link_wire_wire(boundary.1, input);
        self.link_wire_wire(boundary.2, output);
        self.link(Port::new_graft(graft), boundary.0);
    }

    /// Answers a call with a value that the function does not take.
    fn refuse(&mut self, left: Wire, right: Wire)
        requires
            old(self).wf(),
            old(self)@.has_wire(left),
            old(self)@.has_wire(right),
        ensures
            final(self)@ == old(self)@.refused(left, right),
            final(self).wf(),
            final(self)@.follows(old(self)@),
    {
        self.flags.ext_generic = true;
        assert(self@ =~= old(self)@.with_flags(
            Flags { ext_generic: true, ..old(self)@.flags },
        ));
        self.prune(left, right);
    }

    /// Leaves a request in `mailbox`; the second output of the call is not used.
    fn request(
        &mut self,
        mailbox: DynamicProgramMailbox,
        request: DynamicProgramRequest,
        right: Wire,
    )
        requires
            old(self).wf(),
            mailbox.index < old(self)@.host.mailboxes,
            old(self)@.has_request(request),
            old(self)@.has_wire(right),
        ensures
            final(self)@ == old(self)@.requested(mailbox, request, right),
            final(self).wf(),
            final(self)@.follows(old(self)@),
    {
        mailbox.push(&mut self.host.mailboxes, request);
        assert(self@ =~= old(self)@.posted(mailbox, request));
        proof {
            old(self)@.lemma_posted_wf(mailbox, request);
        }
        self.link_wire(right, Port::Erase);
    }

    /// A value meets a call of an extrinsic function.
    fn call(&mut self, value: ExtVal, node: Node)
        requires
            old(self).wf(),
            old(self)@.host.has_value(value),
            old(self)@.has_node(node),
            node.kind == NodeKind::ExtFn,
        ensures
            final(self)@ == old(self)@.called(value, node),
            final(self).wf(),
            final(self)@.follows(old(self)@),
    {
        self.stats.call = self.stats.call.wrapping_add(1);
        let ghost net = old(self)@.with_stats(old(self)@.stats.called());
        assert(self@ =~= net);
        assert(self@.host.has_kind(self.host.ext_fns@[node.label as int].kind));
        match self.host.ext_fns[node.label].kind {
            ExtFnKind::ParseIvy(mailbox) => match value.payload {
                Payload::Text(source) => {
                    let request = DynamicProgramRequest::ParseIvy { source, output: node.left };
                    self.request(mailbox, request, node.right);
                },
                _ => self.refuse(node.left, node.right),
            },
            ExtFnKind::ResolveProgram(mailbox) => match value.payload {
                Payload::Pair(first, second) => {
                    let first = *first;
                    let second = *second;
                    assert(net.host.has_value(first));
                    match (first.payload, second.payload) {
                        (Payload::Program(module), Payload::Text(entry)) => {
                            let request = DynamicProgramRequest::Resolve {
                                module,
                                entry,
                                output: node.left,
                            };
                            self.request(mailbox, request, node.right);
                        },
                        _ => self.refuse(node.left, node.right),
                    }
                },
                _ => self.refuse(node.left, node.right),
            },
            ExtFnKind::InvokeGraft => match value.payload {
                Payload::Graft(handle) => self.invoke(handle.graft(), node.left, node.right),
                _ => self.refuse(node.left, node.right),
            },
            ExtFnKind::Host => {
                self.calls.push(
                    ExtCall {
                        label: node.label,
                        input: value,
                        left: node.left,
                        right: node.right,
                    },
                );
                assert(self@ =~= old(self)@.called(value, node));
            },
        }
    }

    /// Links a register to `port`.
    fn link_register(&mut self, registers: &mut Vec<Option<Port>>, register: usize, port: Port)
        requires
            old(self).wf(),
            old(self)@.has_slots(old(registers)@),
            old(self)@.has_port(port),
            register < old(registers)@.len(),
        ensures
            (final(self)@, final(registers)@) == old(self)@.registered(
                old(registers)@,
                register,
                port,
            ),
            final(self).wf(),
            final(self)@.follows(old(self)@),
            final(self)@.has_slots(final(registers)@),
            final(registers)@.len() == old(registers)@.len(),
    {
        proof {
            self@.lemma_registered_wf(registers@, register, port);
        }
        match registers[register].take() {
            None => {
                registers[register] = Some(port);
                assert(registers@ =~= old(registers)@.update(register as int, Some(port)));
            },
            Some(other) => {
                self.link(other, port);
            },
        }
    }

    /// Instantiates the agents of a graft, whose free port is linked to `port`.
    fn expand(&mut self, graft: GraftId, port: Port)
        requires
            old(self).wf(),
            graft.index < old(self)@.host.grafts.len(),
            old(self)@.has_port(port),
        ensures
            final(self)@ == old(self)@.expanded(graft, port),
            final(self).wf(),
            final(self)@.follows(old(self)@),
    {
        let ghost body = self@.host.grafts[graft.index as int];
        self.stats.expand = self.stats.expand.wrapping_add(1);
        let ghost net = old(self)@.with_stats(old(self)@.stats.expanded());
        assert(self@ =~= net);
        let count = self.host.ivm.grafts[graft.index].registers;
        let mut registers: Vec<Option<Port>> = Vec::new();
        while registers.len() < count
            invariant
                registers@ =~= Seq::new(registers@.len(), |i: int| None::<Port>),
                registers@.len() <= count,
            decreases count - registers@.len(),
        {
            registers.push(None);
        }
        registers[0] = Some(port);
        let ghost start = registers@;
        assert(start =~= Seq::new(body.registers as nat, |i: int| None::<Port>).update(
            0,
            Some(port),
        ));
        let mut i: usize = 0;
        while i < self.host.ivm.grafts[graft.index].instructions.len()
            invariant
                self.wf(),
                self@.follows(old(self)@),
                graft.index < self@.host.grafts.len(),
                body == self@.host.grafts[graft.index as int],
                i <= body.instructions.len(),
                registers@.len() == body.registers,
                self@.has_slots(registers@),
                (self@, registers@) == net.executed(start, body.instructions.take(i as int)),
            decreases body.instructions.len() - i,
        {
            let ghost before = (self@, registers@);
            proof {
                assert(body.instructions.take(i + 1).drop_last() =~= body.instructions.take(
                    i as int,
                ));
                assert(self@.host.has_graft(body));
                assert(self@.host.has_instruction(body.instructions[i as int], body.registers));
            }
            match &self.host.ivm.grafts[graft.index].instructions[i] {
                Instruction::Nilary { port, value } => {
                    let port = *port;
                    let value = match value {
                        Nilary::Erase => Port::Erase,
                        Nilary::Graft(graft) => Port::new_graft(*graft),
                        Nilary::Value(value) => Port::new_ext_val(value.duplicate()),
                    };
                    self.link_register(&mut registers, port, value);
                },
                Instruction::Binary { kind, label, principal, left, right } => {
                    let kind = *kind;
                    let label = *label;
                    let principal = *principal;
                    let left = *left;
                    let right = *right;
                    let (node, node_left, node_right) = self.new_node_of(kind, label);
                    proof {
                        before.0.lemma_has_slots(self@, registers@);
                    }
                    self.link_register(&mut registers, principal, Port::Node(node));
                    self.link_register(&mut registers, left, Port::new_wire(node_left));
                    self.link_register(&mut registers, right, Port::new_wire(node_right));
                },
            }
            assert((self@, registers@) == before.0.performed(
                before.1,
                body.instructions[i as int],
            ));
            i += 1;
        }
        assert(body.instructions.take(i as int) =~= body.instructions);
    }

    /// A port without auxiliary ports meets a node.
    fn apply(&mut self, port: Port, node: Node)
        requires
            old(self).wf(),
            old(self)@.has_port(port),
            old(self)@.has_node(node),
        ensures
            final(self)@ == old(self)@.applied(port, node),
            final(self).wf(),
            final(self)@.follows(old(self)@),
    {
        match port {
            Port::ExtVal(value) => match node.kind {
                NodeKind::Comb => self.copy(value, node),
                NodeKind::ExtFn => self.call(value, node),
            },
            _ => self.erase(node),
        }
    }

    /// Lets the two ports of an active pair interact.
    pub(crate) fn interact(&mut self, a: Port, b: Port)
        requires
            old(self).wf(),
            old(self)@.has_pair(a, b),
        ensures
            final(self)@ == old(self)@.interacted(a, b),
            final(self).wf(),
            final(self)@.follows(old(self)@),
    {
        match (a, b) {
            (Port::Graft(graft), Port::Erase) => self.discard(Port::Graft(graft), Port::Erase),
            (Port::Erase, Port::Graft(graft)) => self.discard(Port::Erase, Port::Graft(graft)),
            (Port::Graft(graft), port) => self.expand(graft, port),
            (port, Port::Graft(graft)) => self.expand(graft, port),
            (Port::Node(a), Port::Node(b)) => if Runtime::same_comb(&a, &b) {
                self.annihilate(a, b)
            } else {
                self.commute(a, b)
            },
            (port, Port::Node(node)) => self.apply(port, node),
            (Port::Node(node), port) => self.apply(port, node),
            (a, b) => self.discard(a, b),
        }
    }
}

} // verus!
