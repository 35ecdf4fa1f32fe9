//! No end of a wire is used twice.
use vstd::prelude::*;

use crate::host::dynamic::{DynamicProgramMailbox, DynamicProgramRequest};
use crate::runtime::ext::{ExtCall, ExtFnKind, ExtVal, Payload};
use crate::runtime::flags::Flags;
use crate::runtime::graft::{GraftId, Instruction};
use crate::runtime::net::{Net, Queues, Slots};
use crate::runtime::port::{Node, NodeKind, Port};
use crate::runtime::wire::Wire;

verus! {

/// One if `holds`, and nothing otherwise.
pub open spec fn one(holds: bool) -> nat {
    if holds {
        1
    } else {
        0
    }
}

impl Port {
    /// How many ends of the wire in `cell` the port holds.
    pub open spec fn ends(self, cell: int) -> nat {
        match self {
            Port::Wire(wire) => one(wire.cell == cell),
            Port::Node(node) => one(node.left.cell == cell) + one(node.right.cell == cell),
            _ => 0,
        }
    }
}

impl Net {
    /// How many ends of the wire in `cell` a slot holds.
    pub open spec fn slot_ends(slot: Option<Port>, cell: int) -> nat {
        match slot {
            Some(port) => port.ends(cell),
            None => 0,
        }
    }

    /// How many ends of the wire in `cell` the slots hold.
    pub open spec fn slots_ends(slots: Slots, cell: int) -> nat
        decreases slots.len(),
    {
        if slots.len() == 0 {
            0
        } else {
            Net::slots_ends(slots.drop_last(), cell) + Net::slot_ends(slots.last(), cell)
        }
    }

    /// How many ends of the wire in `cell` the active pairs hold.
    pub open spec fn pairs_ends(pairs: Seq<(Port, Port)>, cell: int) -> nat
        decreases pairs.len(),
    {
        if pairs.len() == 0 {
            0
        } else {
            Net::pairs_ends(pairs.drop_last(), cell) + pairs.last().0.ends(cell)
                + pairs.last().1.ends(cell)
        }
    }

    /// How many ends of the wire in `cell` the requests hold.
    pub open spec fn requests_ends(requests: Seq<DynamicProgramRequest>, cell: int) -> nat
        decreases requests.len(),
    {
        if requests.len() == 0 {
            0
        } else {
            Net::requests_ends(requests.drop_last(), cell) + one(
                requests.last().wire().cell == cell,
            )
        }
    }

    /// How many ends of the wire in `cell` the mailboxes hold.
    pub open spec fn queues_ends(queues: Queues, cell: int) -> nat
        decreases queues.len(),
    {
        if queues.len() == 0 {
            0
        } else {
            Net::queues_ends(queues.drop_last(), cell) + Net::requests_ends(queues.last(), cell)
        }
    }

    /// How many ends of the wire in `cell` the calls hold.
    pub open spec fn calls_ends(calls: Seq<ExtCall>, cell: int) -> nat
        decreases calls.len(),
    {
        if calls.len() == 0 {
            0
        } else {
            Net::calls_ends(calls.drop_last(), cell) + one(calls.last().left.cell == cell) + one(
                calls.last().right.cell == cell,
            )
        }
    }

    /// How often `cell` is among the free cells.
    pub open spec fn free_count(free: Seq<usize>, cell: int) -> nat
        decreases free.len(),
    {
        if free.len() == 0 {
            0
        } else {
            Net::free_count(free.drop_last(), cell) + one(free.last() == cell)
        }
    }

    /// Whether something is linked to the wire in `cell` already.
    pub open spec fn holds(self, cell: int) -> bool {
        0 <= cell < self.cells.len() && self.cells[cell] is Some
    }

    /// What becomes of the two ends of the wire in `cell`: how many of them are still in
    /// the net, and how many are used up, be it that one is linked already, or that the
    /// cell is free.
    pub open spec fn claims(self, cell: int) -> nat {
        Net::slots_ends(self.cells, cell) + one(self.holds(cell)) + Net::pairs_ends(
            self.fast,
            cell,
        ) + Net::pairs_ends(self.slow, cell) + Net::queues_ends(self.requests, cell)
            + Net::calls_ends(self.calls, cell) + 2 * Net::free_count(self.free, cell)
    }

    /// Whether there can be `held` more ends of the wire in `cell`.
    pub open spec fn fits(self, cell: int, held: nat) -> bool {
        self.claims(cell) + held <= (if 0 <= cell < self.cells.len() {
            2nat
        } else {
            0
        })
    }

    /// Whether no wire has more than its two ends, where `held` says how many of them are
    /// held outside the net.
    pub open spec fn affine(self, held: spec_fn(int) -> nat) -> bool {
        forall|cell: int| #[trigger] self.fits(cell, held(cell))
    }

    pub(crate) proof fn lemma_slots_ends_update(slots: Slots, i: int, slot: Option<Port>, cell: int)
        requires
            0 <= i < slots.len(),
        ensures
            Net::slots_ends(slots.update(i, slot), cell) + Net::slot_ends(slots[i], cell)
                == Net::slots_ends(slots, cell) + Net::slot_ends(slot, cell),
        decreases slots.len(),
    {
        if i == slots.len() - 1 {
            assert(slots.update(i, slot).drop_last() =~= slots.drop_last());
        } else {
            assert(slots.update(i, slot).drop_last() =~= slots.drop_last().update(i, slot));
            Net::lemma_slots_ends_update(slots.drop_last(), i, slot, cell);
        }
    }

    pub(crate) proof fn lemma_queues_ends_update(
        queues: Queues,
        i: int,
        requests: Seq<DynamicProgramRequest>,
        cell: int,
    )
        requires
            0 <= i < queues.len(),
        ensures
            Net::queues_ends(queues.update(i, requests), cell) + Net::requests_ends(
                queues[i],
                cell,
            ) == Net::queues_ends(queues, cell) + Net::requests_ends(requests, cell),
        decreases queues.len(),
    {
        if i == queues.len() - 1 {
            assert(queues.update(i, requests).drop_last() =~= queues.drop_last());
        } else {
            assert(queues.update(i, requests).drop_last() =~= queues.drop_last().update(
                i,
                requests,
            ));
            Net::lemma_queues_ends_update(queues.drop_last(), i, requests, cell);
        }
    }

    pub(crate) proof fn lemma_queues_ends_none(queues: Queues, cell: int)
        requires
            forall|i: int| 0 <= i < queues.len() ==> (#[trigger] queues[i]).len() == 0,
        ensures
            Net::queues_ends(queues, cell) == 0,
        decreases queues.len(),
    {
        if queues.len() > 0 {
            assert forall|i: int| 0 <= i < queues.drop_last().len() implies (
                #[trigger] queues.drop_last()[i]).len() == 0 by {
                assert(queues.drop_last()[i] == queues[i]);
            }
            Net::lemma_queues_ends_none(queues.drop_last(), cell);
            assert(queues[queues.len() - 1].len() == 0);
        }
    }

    pub(crate) proof fn lemma_slots_ends_none(slots: Slots, cell: int)
        requires
            forall|i: int| 0 <= i < slots.len() ==> #[trigger] slots[i] is None,
        ensures
            Net::slots_ends(slots, cell) == 0,
        decreases slots.len(),
    {
        if slots.len() > 0 {
            assert forall|i: int| 0 <= i < slots.drop_last().len() implies #[trigger]
                slots.drop_last()[i] is None by {
                assert(slots.drop_last()[i] == slots[i]);
            }
            Net::lemma_slots_ends_none(slots.drop_last(), cell);
            assert(slots[slots.len() - 1] is None);
        }
    }

    /// Linking uses the ends that are linked.
    pub(crate) proof fn lemma_linked_fits(self, a: Port, b: Port, cell: int, held: nat)
        requires
            self.fits(cell, held + a.ends(cell) + b.ends(cell)),
        ensures
            self.linked(a, b).fits(cell, held),
            self.linked(a, b).cells.len() == self.cells.len(),
        decreases Net::occupied(self.cells), 1nat,
    {
        match (a, b) {
            (Port::Wire(wire), port) => self.lemma_wire_linked_fits(wire, port, cell, held),
            (port, Port::Wire(wire)) => self.lemma_wire_linked_fits(wire, port, cell, held),
            _ => {
                assert(self.fast.push((a, b)).drop_last() =~= self.fast);
                assert(self.slow.push((a, b)).drop_last() =~= self.slow);
            },
        }
    }

    proof fn lemma_wire_linked_fits(self, wire: Wire, port: Port, cell: int, held: nat)
        requires
            self.fits(cell, held + one(wire.cell == cell) + port.ends(cell)),
        ensures
            self.content(wire) is None ==> {
                &&& self.stored(wire, port).fits(cell, held)
                &&& self.stored(wire, port).cells.len() == self.cells.len()
            },
            self.content(wire) matches Some(other) ==> {
                &&& self.freed(wire).linked(other, port).fits(cell, held)
                &&& self.freed(wire).linked(other, port).cells.len() == self.cells.len()
            },
        decreases Net::occupied(self.cells), 0nat,
    {
        match self.content(wire) {
            None => {
                if wire.cell < self.cells.len() {
                    Net::lemma_slots_ends_update(self.cells, wire.cell as int, Some(port), cell);
                }
            },
            Some(other) => {
                Net::lemma_occupied_update(self.cells, wire.cell as int, None);
                Net::lemma_slots_ends_update(self.cells, wire.cell as int, None, cell);
                assert(self.free.push(wire.cell).drop_last() =~= self.free);
                self.freed(wire).lemma_linked_fits(other, port, cell, held);
            },
        }
    }

    /// What a wire holds takes the place of the two ends of the wire.
    pub(crate) proof fn lemma_freed_fits(self, wire: Wire, cell: int, held: nat)
        requires
            self.fits(cell, held + one(wire.cell == cell)),
            self.content(wire) is Some,
        ensures
            self.freed(wire).fits(cell, held + self.content(wire)->0.ends(cell)),
    {
        Net::lemma_slots_ends_update(self.cells, wire.cell as int, None, cell);
        assert(self.free.push(wire.cell).drop_last() =~= self.free);
    }

    /// A new wire has two ends.
    pub(crate) proof fn lemma_allocated_fits(self, cell: int, held: nat)
        requires
            self.fits(cell, held),
            self.allocated().cells.len() <= usize::MAX,
        ensures
            self.allocated().fits(cell, held + 2 * one(self.next_wire().cell == cell)),
    {
        if self.free.len() > 0 {
            let last = self.free.last();
            if last < self.cells.len() {
                Net::lemma_slots_ends_update(self.cells, last as int, None, cell);
            }
        } else {
            assert(self.cells.push(None).drop_last() =~= self.cells);
        }
    }

    /// The wires of a new node have two ends each: one in the node, and one outside.
    pub(crate) proof fn lemma_with_node_fits(
        self,
        kind: NodeKind,
        label: usize,
        cell: int,
        held: nat,
    )
        requires
            self.fits(cell, held),
            self.with_node().cells.len() <= usize::MAX,
        ensures
            self.with_node().fits(cell, held + 2 * Port::Node(self.next_node(kind, label)).ends(cell)),
    {
        self.lemma_allocated_fits(cell, held);
        self.allocated().lemma_allocated_fits(
            cell,
            held + 2 * one(self.next_wire().cell == cell),
        );
    }

    pub(crate) proof fn lemma_linked_twice_fits(
        self,
        a: Port,
        b: Port,
        c: Port,
        d: Port,
        cell: int,
        held: nat,
    )
        requires
            self.fits(cell, held + a.ends(cell) + b.ends(cell) + c.ends(cell) + d.ends(cell)),
        ensures
            self.linked(a, b).linked(c, d).fits(cell, held),
            self.linked(a, b).linked(c, d).cells.len() == self.cells.len(),
    {
        self.lemma_linked_fits(a, b, cell, held + c.ends(cell) + d.ends(cell));
        self.linked(a, b).lemma_linked_fits(c, d, cell, held);
    }

    proof fn lemma_commuted_fits(self, a: Node, b: Node, cell: int, held: nat)
        requires
            self.fits(cell, held + Port::Node(a).ends(cell) + Port::Node(b).ends(cell)),
            self.commuted(a, b).cells.len() <= usize::MAX,
        ensures
            self.commuted(a, b).fits(cell, held),
    {
        let (pa, pb) = (Port::Node(a).ends(cell), Port::Node(b).ends(cell));
        let net0 = self.with_stats(self.stats.commuted());
        let a1 = net0.next_node(a.kind, a.label);
        let net1 = net0.with_node();
        let a2 = net1.next_node(a.kind, a.label);
        let net2 = net1.with_node();
        let b1 = net2.next_node(b.kind, b.label);
        let net3 = net2.with_node();
        let b2 = net3.next_node(b.kind, b.label);
        let net4 = net3.with_node();
        let net6 = net4.wired(a1.left, b1.left).wired(a1.right, b2.left);
        let net8 = net6.wired(a2.left, b1.right).wired(a2.right, b2.right);
        let net10 = net8.linked(Port::Wire(a.left), Port::Node(b1)).linked(
            Port::Wire(a.right),
            Port::Node(b2),
        );
        let (pa1, pa2) = (Port::Node(a1).ends(cell), Port::Node(a2).ends(cell));
        let (pb1, pb2) = (Port::Node(b1).ends(cell), Port::Node(b2).ends(cell));
        assert(net4.cells.len() == self.commuted(a, b).cells.len()) by {
            net4.lemma_linked_twice_quiet(
                Port::Wire(a1.left),
                Port::Wire(b1.left),
                Port::Wire(a1.right),
                Port::Wire(b2.left),
            );
            net6.lemma_linked_twice_quiet(
                Port::Wire(a2.left),
                Port::Wire(b1.right),
                Port::Wire(a2.right),
                Port::Wire(b2.right),
            );
            net8.lemma_linked_twice_quiet(
                Port::Wire(a.left),
                Port::Node(b1),
                Port::Wire(a.right),
                Port::Node(b2),
            );
            net10.lemma_linked_twice_quiet(
                Port::Wire(b.left),
                Port::Node(a1),
                Port::Wire(b.right),
                Port::Node(a2),
            );
        }
        net0.lemma_with_node_fits(a.kind, a.label, cell, held + pa + pb);
        net1.lemma_with_node_fits(a.kind, a.label, cell, held + pa + pb + 2 * pa1);
        net2.lemma_with_node_fits(b.kind, b.label, cell, held + pa + pb + 2 * pa1 + 2 * pa2);
        net3.lemma_with_node_fits(
            b.kind,
            b.label,
            cell,
            held + pa + pb + 2 * pa1 + 2 * pa2 + 2 * pb1,
        );
        let linked = held + pa + pb + pa1 + pa2 + pb1 + pb2;
        net4.lemma_linked_twice_fits(
            Port::Wire(a1.left),
            Port::Wire(b1.left),
            Port::Wire(a1.right),
            Port::Wire(b2.left),
            cell,
            linked + pa2 + one(b1.right.cell == cell) + one(b2.right.cell == cell),
        );
        net6.lemma_linked_twice_fits(
            Port::Wire(a2.left),
            Port::Wire(b1.right),
            Port::Wire(a2.right),
            Port::Wire(b2.right),
            cell,
            linked,
        );
        net8.lemma_linked_twice_fits(
            Port::Wire(a.left),
            Port::Node(b1),
            Port::Wire(a.right),
            Port::Node(b2),
            cell,
            held + pb + pa1 + pa2,
        );
        net10.lemma_linked_twice_fits(
            Port::Wire(b.left),
            Port::Node(a1),
            Port::Wire(b.right),
            Port::Node(a2),
            cell,
            held,
        );
    }

    pub(crate) proof fn lemma_called_fits(self, value: ExtVal, node: Node, cell: int, held: nat)
        requires
            self.fits(cell, held + Port::Node(node).ends(cell)),
            self.called(value, node).cells.len() <= usize::MAX,
        ensures
            self.called(value, node).fits(cell, held),
    {
        let net = self.with_stats(self.stats.called());
        let (left, right) = (Port::Wire(node.left), Port::Wire(node.right));
        net.with_flags(Flags { ext_generic: true, ..net.flags }).lemma_linked_twice_fits(
            left,
            Port::Erase,
            right,
            Port::Erase,
            cell,
            held,
        );
        match self.host.fns[node.label as int].kind {
            ExtFnKind::ParseIvy(mailbox) => if let Payload::Text(source) = value.payload {
                net.lemma_requested_fits(
                    mailbox,
                    DynamicProgramRequest::ParseIvy { source, output: node.left },
                    node.right,
                    cell,
                    held,
                );
            },
            ExtFnKind::ResolveProgram(mailbox) => if let Payload::Pair(first, second) = value.payload {
                if let (Payload::Program(module), Payload::Text(entry)) = (
                    first.payload,
                    second.payload,
                ) {
                    net.lemma_requested_fits(
                        mailbox,
                        DynamicProgramRequest::Resolve { module, entry, output: node.left },
                        node.right,
                        cell,
                        held,
                    );
                }
            },
            ExtFnKind::InvokeGraft => if let Payload::Graft(handle) = value.payload {
                net.lemma_invoked_fits(handle.graft, node.left, node.right, cell, held);
            },
            ExtFnKind::Host => {
                let call = ExtCall {
                    label: node.label,
                    input: value,
                    left: node.left,
                    right: node.right,
                };
                assert(self.calls.push(call).drop_last() =~= self.calls);
            },
        }
    }

    pub(crate) proof fn lemma_requested_fits(
        self,
        mailbox: DynamicProgramMailbox,
        request: DynamicProgramRequest,
        right: Wire,
        cell: int,
        held: nat,
    )
        requires
            self.fits(
                cell,
                held + one(request.wire().cell == cell) + Port::Wire(right).ends(cell),
            ),
        ensures
            self.requested(mailbox, request, right).fits(cell, held),
    {
        if mailbox.index < self.requests.len() {
            let queue = self.requests[mailbox.index as int];
            assert(queue.push(request).drop_last() =~= queue);
            Net::lemma_queues_ends_update(
                self.requests,
                mailbox.index as int,
                queue.push(request),
                cell,
            );
        }
        self.posted(mailbox, request).lemma_linked_fits(
            Port::Wire(right),
            Port::Erase,
            cell,
            held,
        );
    }

    pub(crate) proof fn lemma_invoked_fits(
        self,
        graft: GraftId,
        input: Wire,
        output: Wire,
        cell: int,
        held: nat,
    )
        requires
            self.fits(cell, held + Port::Wire(input).ends(cell) + Port::Wire(output).ends(cell)),
            self.invoked(graft, input, output).cells.len() <= usize::MAX,
        ensures
            self.invoked(graft, input, output).fits(cell, held),
    {
        let boundary = self.next_node(NodeKind::Comb, 0);
        let (left, right) = (Port::Wire(boundary.left), Port::Wire(boundary.right));
        let (input, output) = (Port::Wire(input), Port::Wire(output));
        let ends = Port::Node(boundary).ends(cell);
        self.with_node().lemma_linked_twice_quiet(left, input, right, output);
        self.with_node().linked(left, input).linked(right, output).lemma_linked_quiet(
            Port::Graft(graft),
            Port::Node(boundary),
        );
        self.lemma_with_node_fits(
            NodeKind::Comb,
            0,
            cell,
            held + input.ends(cell) + output.ends(cell),
        );
        self.with_node().lemma_linked_twice_fits(left, input, right, output, cell, held + ends);
        self.with_node().linked(left, input).linked(right, output).lemma_linked_fits(
            Port::Graft(graft),
            Port::Node(boundary),
            cell,
            held,
        );
    }

    pub(crate) proof fn lemma_registered_fits(
        self,
        registers: Slots,
        register: usize,
        port: Port,
        cell: int,
        held: nat,
    )
        requires
            register < registers.len(),
            self.fits(cell, held + Net::slots_ends(registers, cell) + port.ends(cell)),
        ensures
            self.registered(registers, register, port).0.fits(
                cell,
                held + Net::slots_ends(self.registered(registers, register, port).1, cell),
            ),
            self.registered(registers, register, port).0.cells.len() == self.cells.len(),
            self.registered(registers, register, port).1.len() == registers.len(),
    {
        match registers[register as int] {
            None => {
                Net::lemma_slots_ends_update(registers, register as int, Some(port), cell);
            },
            Some(other) => {
                Net::lemma_slots_ends_update(registers, register as int, None, cell);
                let rest = registers.update(register as int, None);
                self.lemma_linked_fits(other, port, cell, held + Net::slots_ends(rest, cell));
            },
        }
    }

    /// Whether the registers of `instruction` are among the first `count`.
    pub open spec fn within(instruction: Instruction, count: nat) -> bool {
        match instruction {
            Instruction::Nilary { port, value } => port < count,
            Instruction::Binary { kind, label, principal, left, right } => {
                principal < count && left < count && right < count
            },
        }
    }

    pub(crate) proof fn lemma_performed_fits(
        self,
        registers: Slots,
        instruction: Instruction,
        cell: int,
        held: nat,
    )
        requires
            Net::within(instruction, registers.len()),
            self.fits(cell, held + Net::slots_ends(registers, cell)),
            self.performed(registers, instruction).0.cells.len() <= usize::MAX,
        ensures
            self.performed(registers, instruction).0.fits(
                cell,
                held + Net::slots_ends(self.performed(registers, instruction).1, cell),
            ),
            self.performed(registers, instruction).1.len() == registers.len(),
    {
        match instruction {
            Instruction::Nilary { port, value } => {
                self.lemma_registered_fits(registers, port, Net::nilary_port(value), cell, held);
            },
            Instruction::Binary { kind, label, principal, left, right } => {
                let node = self.next_node(kind, label);
                let ends = Port::Node(node).ends(cell);
                let (port1, port2) = (Port::Wire(node.left), Port::Wire(node.right));
                let net0 = self.with_node();
                let (net1, registers1) = net0.registered(registers, principal, Port::Node(node));
                let (net2, registers2) = net1.registered(registers1, left, port1);
                net0.lemma_registered_keeps(registers, principal, Port::Node(node));
                net1.lemma_registered_keeps(registers1, left, port1);
                net2.lemma_registered_keeps(registers2, right, port2);
                self.lemma_with_node_fits(
                    kind,
                    label,
                    cell,
                    held + Net::slots_ends(registers, cell),
                );
                net0.lemma_registered_fits(
                    registers,
                    principal,
                    Port::Node(node),
                    cell,
                    held + ends,
                );
                net1.lemma_registered_fits(
                    registers1,
                    left,
                    port1,
                    cell,
                    held + port2.ends(cell),
                );
                net2.lemma_registered_fits(registers2, right, port2, cell, held);
            },
        }
    }

    pub(crate) proof fn lemma_executed_fits(
        self,
        registers: Slots,
        instructions: Seq<Instruction>,
        cell: int,
        held: nat,
    )
        requires
            forall|i: int|
                0 <= i < instructions.len() ==> Net::within(
                    #[trigger] instructions[i],
                    registers.len(),
                ),
            self.fits(cell, held + Net::slots_ends(registers, cell)),
            self.executed(registers, instructions).0.cells.len() <= usize::MAX,
        ensures
            self.executed(registers, instructions).0.fits(
                cell,
                held + Net::slots_ends(self.executed(registers, instructions).1, cell),
            ),
            self.executed(registers, instructions).1.len() == registers.len(),
        decreases instructions.len(),
    {
        if instructions.len() > 0 {
            let rest = instructions.drop_last();
            let last = instructions.last();
            assert forall|i: int| 0 <= i < rest.len() implies Net::within(
                #[trigger] rest[i],
                registers.len(),
            ) by {
                assert(rest[i] == instructions[i]);
            }
            assert(Net::within(instructions[instructions.len() - 1], registers.len()));
            let (net, slots) = self.executed(registers, rest);
            net.lemma_performed_keeps(slots, last);
            self.lemma_executed_fits(registers, rest, cell, held);
            net.lemma_performed_fits(slots, last, cell, held);
        }
    }

    pub(crate) proof fn lemma_expanded_fits(self, graft: GraftId, port: Port, cell: int, held: nat)
        requires
            self.host.wf(),
            graft.index < self.host.grafts.len(),
            self.fits(cell, held + port.ends(cell)),
            self.expanded(graft, port).cells.len() <= usize::MAX,
        ensures
            self.expanded(graft, port).fits(cell, held),
    {
        let body = self.host.grafts[graft.index as int];
        let empty = Seq::new(body.registers as nat, |i: int| None::<Port>);
        let registers = empty.update(0, Some(port));
        assert(self.host.has_graft(body));
        Net::lemma_slots_ends_none(empty, cell);
        Net::lemma_slots_ends_update(empty, 0, Some(port), cell);
        assert forall|i: int| 0 <= i < body.instructions.len() implies Net::within(
            #[trigger] body.instructions[i],
            registers.len(),
        ) by {
            assert(self.host.has_instruction(body.instructions[i], body.registers));
        }
        self.with_stats(self.stats.expanded()).lemma_executed_fits(
            registers,
            body.instructions,
            cell,
            held,
        );
    }

    pub(crate) proof fn lemma_applied_fits(self, port: Port, node: Node, cell: int, held: nat)
        requires
            self.fits(cell, held + Port::Node(node).ends(cell)),
            self.applied(port, node).cells.len() <= usize::MAX,
        ensures
            self.applied(port, node).fits(cell, held),
    {
        let (left, right) = (Port::Wire(node.left), Port::Wire(node.right));
        match port {
            Port::ExtVal(value) => match node.kind {
                NodeKind::Comb => {
                    let net = self.with_stats(self.stats.copied());
                    net.lemma_linked_twice_fits(left, port, right, port, cell, held);
                    net.with_flags(Flags { ext_copy: true, ..net.flags }).lemma_linked_twice_fits(
                        left,
                        port,
                        right,
                        Port::Erase,
                        cell,
                        held,
                    );
                },
                NodeKind::ExtFn => self.lemma_called_fits(value, node, cell, held),
            },
            _ => self.with_stats(self.stats.erased()).lemma_linked_twice_fits(
                left,
                Port::Erase,
                right,
                Port::Erase,
                cell,
                held,
            ),
        }
    }

    /// An interaction uses the ends that its active pair holds.
    pub(crate) proof fn lemma_interacted_fits(self, a: Port, b: Port, cell: int, held: nat)
        requires
            self.host.wf(),
            self.has_pair(a, b),
            self.fits(cell, held + a.ends(cell) + b.ends(cell)),
            self.interacted(a, b).cells.len() <= usize::MAX,
        ensures
            self.interacted(a, b).fits(cell, held),
    {
        match (a, b) {
            (Port::Graft(_), Port::Erase) => {},
            (Port::Erase, Port::Graft(_)) => {},
            (Port::Graft(graft), port) => self.lemma_expanded_fits(graft, port, cell, held),
            (port, Port::Graft(graft)) => self.lemma_expanded_fits(graft, port, cell, held),
            (Port::Node(a), Port::Node(b)) => if Net::same_comb(a, b) {
                self.with_stats(self.stats.annihilated()).lemma_linked_twice_fits(
                    Port::Wire(a.left),
                    Port::Wire(b.left),
                    Port::Wire(a.right),
                    Port::Wire(b.right),
                    cell,
                    held,
                );
            } else {
                self.lemma_commuted_fits(a, b, cell, held);
            },
            (port, Port::Node(node)) => self.lemma_applied_fits(port, node, cell, held),
            (Port::Node(node), port) => self.lemma_applied_fits(port, node, cell, held),
            _ => {},
        }
    }

    /// A reduction uses no end twice.
    pub(crate) proof fn lemma_step_fits(self, cell: int, held: nat)
        requires
            self.wf(),
            self.fits(cell, held),
            self.step().cells.len() <= usize::MAX,
        ensures
            self.step().fits(cell, held),
    {
        if !self.quiescent() {
            let (a, b) = self.next_pair();
            if self.fast.len() > 0 {
                assert(self.fast[self.fast.len() - 1] == (a, b));
            } else {
                assert(self.slow[self.slow.len() - 1] == (a, b));
            }
            self.popped().lemma_interacted_fits(a, b, cell, held);
        }
    }

    proof fn lemma_pairs_ends_add(first: Seq<(Port, Port)>, second: Seq<(Port, Port)>, cell: int)
        ensures
            Net::pairs_ends(first + second, cell) == Net::pairs_ends(first, cell)
                + Net::pairs_ends(second, cell),
        decreases second.len(),
    {
        if second.len() == 0 {
            assert(first + second =~= first);
        } else {
            assert((first + second).drop_last() =~= first + second.drop_last());
            Net::lemma_pairs_ends_add(first, second.drop_last(), cell);
        }
    }

    proof fn lemma_swept_fits(self, pairs: Seq<(Port, Port)>, cell: int, held: nat)
        requires
            self.host.wf(),
            self.has_pairs(pairs),
            self.fits(cell, held + Net::pairs_ends(pairs, cell)),
            self.swept(pairs).cells.len() <= usize::MAX,
        ensures
            self.swept(pairs).fits(cell, held),
        decreases pairs.len(),
    {
        if pairs.len() > 0 {
            let rest = pairs.drop_last();
            let (a, b) = pairs.last();
            let net = self.swept(rest);
            self.lemma_swept_keeps(rest);
            net.lemma_interacted_keeps(a, b);
            assert forall|i: int| 0 <= i < rest.len() implies self.has_pair(
                (#[trigger] rest[i]).0,
                rest[i].1,
            ) by {
                assert(rest[i] == pairs[i]);
            }
            assert(self.has_pair(pairs[pairs.len() - 1].0, pairs[pairs.len() - 1].1));
            self.lemma_swept_fits(rest, cell, held + a.ends(cell) + b.ends(cell));
            net.lemma_interacted_fits(a, b, cell, held);
        }
    }

    /// A round uses no end twice.
    pub(crate) proof fn lemma_round_fits(self, cell: int, held: nat)
        requires
            self.wf(),
            self.fits(cell, held),
            self.round().cells.len() <= usize::MAX,
        ensures
            self.round().fits(cell, held),
    {
        if !self.quiescent() {
            let pairs = self.fast + self.slow;
            Net::lemma_pairs_ends_add(self.fast, self.slow, cell);
            let net = Net { fast: Seq::empty(), slow: Seq::empty(), ..self };
            assert forall|i: int| 0 <= i < pairs.len() implies net.has_pair(
                (#[trigger] pairs[i]).0,
                pairs[i].1,
            ) by {
                if i < self.fast.len() {
                    assert(pairs[i] == self.fast[i]);
                } else {
                    assert(pairs[i] == self.slow[i - self.fast.len()]);
                }
            }
            net.lemma_swept_fits(pairs, cell, held);
        }
    }

    pub(crate) proof fn lemma_free_count(free: Seq<usize>, i: int)
        requires
            0 <= i < free.len(),
        ensures
            Net::free_count(free, free[i] as int) >= 1,
            forall|j: int|
                0 <= j < free.len() && j != i && #[trigger] free[j] == free[i]
                    ==> Net::free_count(free, free[i] as int) >= 2,
        decreases free.len(),
    {
        let rest = free.drop_last();
        if i < rest.len() {
            Net::lemma_free_count(rest, i);
            assert(rest[i] == free[i]);
            assert forall|j: int|
                0 <= j < free.len() && j != i && #[trigger] free[j] == free[i] implies Net::free_count(
                free,
                free[i] as int,
            ) >= 2 by {
                if j < rest.len() {
                    assert(rest[j] == free[j]);
                }
            }
        } else {
            assert forall|j: int|
                0 <= j < free.len() && j != i && #[trigger] free[j] == free[i] implies Net::free_count(
                free,
                free[i] as int,
            ) >= 2 by {
                Net::lemma_free_count(rest, j);
                assert(rest[j] == free[i]);
            }
        }
    }

    /// A free cell is free once, holds nothing, and its wire has no ends.
    pub(crate) proof fn lemma_free_fits(self, i: int, held: nat)
        requires
            0 <= i < self.free.len(),
            self.fits(self.free[i] as int, held),
        ensures
            held == 0,
            self.free[i] < self.cells.len(),
            self.cells[self.free[i] as int] is None,
            self.claims(self.free[i] as int) == 2,
            forall|j: int| 0 <= j < self.free.len() && j != i ==> #[trigger] self.free[j]
                != self.free[i],
    {
        Net::lemma_free_count(self.free, i);
    }
}

} // verus!
