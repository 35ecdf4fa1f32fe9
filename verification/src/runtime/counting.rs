//! What is counted while a net is linked and reduced.
use vstd::prelude::*;

use crate::runtime::graft::{GraftId, Instruction};
use crate::runtime::linear::one;
use crate::runtime::net::{Net, Slots};
use crate::runtime::port::{Node, NodeKind, Port};
use crate::runtime::wire::Wire;

verus! {

impl Net {
    /// Linking frees wires, and counts them; nothing else is counted, and nothing but wires
    /// and active pairs changes.
    pub(crate) proof fn lemma_linked_books(self, a: Port, b: Port)
        ensures
            self.linked(a, b).books(self),
            self.linked(a, b).stats.mem_alloc == self.stats.mem_alloc,
        decreases Net::occupied(self.cells),
    {
        match (a, b) {
            (Port::Wire(wire), port) => {
                if let Some(other) = self.content(wire) {
                    Net::lemma_occupied_update(self.cells, wire.cell as int, None);
                    self.freed(wire).lemma_linked_books(other, port);
                }
            },
            (port, Port::Wire(wire)) => {
                if let Some(other) = self.content(wire) {
                    Net::lemma_occupied_update(self.cells, wire.cell as int, None);
                    self.freed(wire).lemma_linked_books(other, port);
                }
            },
            _ => {},
        }
    }

    /// Whether two nets differ in their wires and active pairs at most, and in how many wires
    /// were allocated and freed.
    pub open spec fn books(self, earlier: Net) -> bool {
        &&& self.requests == earlier.requests
        &&& self.calls == earlier.calls
        &&& self.flags == earlier.flags
        &&& self.host == earlier.host
        &&& self.stats.annihilate == earlier.stats.annihilate
        &&& self.stats.commute == earlier.stats.commute
        &&& self.stats.copy == earlier.stats.copy
        &&& self.stats.erase == earlier.stats.erase
        &&& self.stats.expand == earlier.stats.expand
        &&& self.stats.call == earlier.stats.call
        &&& self.stats.depth == earlier.stats.depth
        &&& self.stats.time_clock == earlier.stats.time_clock
    }

    pub(crate) proof fn lemma_linked_all_books(self, links: Seq<(Port, Port)>)
        ensures
            self.linked_all(links).books(self),
            self.linked_all(links).stats.mem_alloc == self.stats.mem_alloc,
        decreases links.len(),
    {
        if links.len() > 0 {
            self.lemma_linked_all_books(links.drop_last());
            self.linked_all(links.drop_last()).lemma_linked_books(links.last().0, links.last().1);
        }
    }

    /// A new node has two new wires.
    proof fn lemma_with_node_books(self)
        ensures
            self.with_node().books(self),
            self.with_node().stats.mem_alloc == (self.stats.mem_alloc + 2)
                % 0x1_0000_0000_0000_0000,
    {
    }

    pub(crate) proof fn lemma_commuted_books(self, a: Node, b: Node)
        ensures
            self.commuted(a, b).books(self.with_stats(self.stats.commuted())),
            self.commuted(a, b).stats.mem_alloc == (self.stats.mem_alloc + 8)
                % 0x1_0000_0000_0000_0000,
    {
        let net0 = self.with_stats(self.stats.commuted());
        let net1 = net0.with_node();
        let net2 = net1.with_node();
        let net3 = net2.with_node();
        let net4 = net3.with_node();
        let a1 = net0.next_node(a.kind, a.label);
        let a2 = net1.next_node(a.kind, a.label);
        let b1 = net2.next_node(b.kind, b.label);
        let b2 = net3.next_node(b.kind, b.label);
        let links = Net::commuting(a, b, a1, a2, b1, b2);
        net4.lemma_commuting(a, b, a1, a2, b1, b2);
        assert(self.commuted(a, b) == net4.linked_all(links));
        Net::lemma_four_nodes_books(net0, net1, net2, net3, net4);
        net4.lemma_linked_all_books(links);
    }

    proof fn lemma_four_nodes_books(net0: Net, net1: Net, net2: Net, net3: Net, net4: Net)
        requires
            net1 == net0.with_node(),
            net2 == net1.with_node(),
            net3 == net2.with_node(),
            net4 == net3.with_node(),
        ensures
            net4.books(net0),
            net4.stats.mem_alloc == (net0.stats.mem_alloc + 8) % 0x1_0000_0000_0000_0000,
    {
        net0.lemma_with_node_books();
        net1.lemma_with_node_books();
        net2.lemma_with_node_books();
        net3.lemma_with_node_books();
    }

    proof fn lemma_registered_books(self, registers: Slots, register: usize, port: Port)
        ensures
            self.registered(registers, register, port).0.books(self),
            self.registered(registers, register, port).0.stats.mem_alloc == self.stats.mem_alloc,
    {
        if let Some(other) = registers[register as int] {
            self.lemma_linked_books(other, port);
        }
    }

    /// How many agents of a graft have two auxiliary ports.
    pub open spec fn binaries(instructions: Seq<Instruction>) -> nat
        decreases instructions.len(),
    {
        if instructions.len() == 0 {
            0
        } else {
            Net::binaries(instructions.drop_last()) + one(instructions.last() is Binary)
        }
    }

    pub(crate) proof fn lemma_executed_books(
        self,
        registers: Slots,
        instructions: Seq<Instruction>,
    )
        ensures
            self.executed(registers, instructions).0.books(self),
            self.executed(registers, instructions).0.stats.mem_alloc == (self.stats.mem_alloc + 2
                * Net::binaries(instructions)) % 0x1_0000_0000_0000_0000,
        decreases instructions.len(),
    {
        if instructions.len() > 0 {
            let rest = instructions.drop_last();
            self.lemma_executed_books(registers, rest);
            let (net, slots) = self.executed(registers, rest);
            match instructions.last() {
                Instruction::Nilary { port, value } => {
                    net.lemma_registered_books(slots, port, Net::nilary_port(value));
                },
                Instruction::Binary { kind, label, principal, left, right } => {
                    let node = net.next_node(kind, label);
                    let net0 = net.with_node();
                    let (net1, slots1) = net0.registered(slots, principal, Port::Node(node));
                    let (net2, slots2) = net1.registered(slots1, left, Port::Wire(node.left));
                    net0.lemma_registered_books(slots, principal, Port::Node(node));
                    net1.lemma_registered_books(slots1, left, Port::Wire(node.left));
                    net2.lemma_registered_books(slots2, right, Port::Wire(node.right));
                    assert(net0.books(net));
                },
            }
        }
    }

    pub(crate) proof fn lemma_expanded_books(self, graft: GraftId, port: Port)
        ensures
            self.expanded(graft, port).books(self.with_stats(self.stats.expanded())),
            self.expanded(graft, port).stats.mem_alloc == (self.stats.mem_alloc + 2 * Net::binaries(
                self.host.grafts[graft.index as int].instructions,
            )) % 0x1_0000_0000_0000_0000,
    {
        let body = self.host.grafts[graft.index as int];
        let registers = Seq::new(body.registers as nat, |i: int| None::<Port>).update(
            0,
            Some(port),
        );
        self.with_stats(self.stats.expanded()).lemma_executed_books(registers, body.instructions);
    }

    pub(crate) proof fn lemma_linked_twice_books(self, a: Port, b: Port, c: Port, d: Port)
        ensures
            self.linked(a, b).linked(c, d).books(self),
    {
        self.lemma_linked_books(a, b);
        self.linked(a, b).lemma_linked_books(c, d);
    }

    pub(crate) proof fn lemma_invoked_books(self, graft: GraftId, input: Wire, output: Wire)
        ensures
            self.invoked(graft, input, output).books(self),
    {
        let node = self.next_node(NodeKind::Comb, 0);
        let net = self.with_node();
        net.lemma_linked_twice_books(
            Port::Wire(node.left),
            Port::Wire(input),
            Port::Wire(node.right),
            Port::Wire(output),
        );
        net.wired(node.left, input).wired(node.right, output).lemma_linked_books(
            Port::Graft(graft),
            Port::Node(node),
        );
        assert(net.books(self));
    }

    // ---- links ----

    /// The number of links that are kept, be it by wires or as active pairs, less the number
    /// of wires.
    pub open spec fn links(self) -> int {
        self.fast.len() + self.slow.len() + Net::occupied(self.cells) - self.in_use()
    }

    /// A link is kept by a wire, or as an active pair.
    pub(crate) proof fn lemma_linked_links(self, a: Port, b: Port, held: spec_fn(int) -> nat)
        requires
            forall|cell: int| #[trigger] self.spares(cell, held, a, b),
        ensures
            self.linked(a, b).links() == self.links() + 1,
        decreases Net::occupied(self.cells), 1nat,
    {
        match (a, b) {
            (Port::Wire(wire), port) => {
                assert forall|cell: int| #[trigger]
                    self.spares(cell, held, Port::Wire(wire), port) by {
                    assert(self.spares(cell, held, a, b));
                }
                self.lemma_wire_linked_links(wire, port, held);
            },
            (port, Port::Wire(wire)) => {
                assert forall|cell: int| #[trigger]
                    self.spares(cell, held, Port::Wire(wire), port) by {
                    assert(self.spares(cell, held, a, b));
                }
                self.lemma_wire_linked_links(wire, port, held);
            },
            _ => {},
        }
    }

    proof fn lemma_wire_linked_links(self, wire: Wire, port: Port, held: spec_fn(int) -> nat)
        requires
            forall|cell: int| #[trigger] self.spares(cell, held, Port::Wire(wire), port),
        ensures
            (match self.content(wire) {
                None => self.stored(wire, port),
                Some(other) => self.freed(wire).linked(other, port),
            }).links() == self.links() + 1,
        decreases Net::occupied(self.cells), 0nat,
    {
        let c = wire.cell as int;
        assert(self.spares(c, held, Port::Wire(wire), port));
        match self.content(wire) {
            None => {
                Net::lemma_occupied_update(self.cells, c, Some(port));
            },
            Some(other) => {
                let freed = self.freed(wire);
                Net::lemma_occupied_update(self.cells, c, None);
                assert forall|cell: int| #[trigger] freed.spares(cell, held, other, port) by {
                    assert(self.spares(cell, held, Port::Wire(wire), port));
                    self.lemma_freed_fits(wire, cell, held(cell) + port.ends(cell));
                }
                freed.lemma_linked_links(other, port, held);
            },
        }
    }

    pub(crate) proof fn lemma_linked_all_links(
        self,
        links: Seq<(Port, Port)>,
        held: spec_fn(int) -> nat,
    )
        requires
            forall|cell: int| #[trigger] self.affords(cell, held, links),
        ensures
            self.linked_all(links).links() == self.links() + links.len(),
        decreases links.len(),
    {
        if links.len() > 0 {
            let rest = links.drop_last();
            let (a, b) = links.last();
            let more = |cell: int| held(cell) + a.ends(cell) + b.ends(cell);
            assert forall|cell: int| #[trigger] self.affords(cell, more, rest) by {
                assert(self.affords(cell, held, links));
            }
            self.lemma_linked_all_affine(rest, more);
            self.lemma_linked_all_links(rest, more);
            let net = self.linked_all(rest);
            assert forall|cell: int| #[trigger] net.spares(cell, held, a, b) by {
                assert(net.fits(cell, more(cell)));
            }
            net.lemma_linked_links(a, b, held);
        }
    }

    /// Two links.
    pub(crate) proof fn lemma_linked_twice_links(
        self,
        a: Port,
        b: Port,
        c: Port,
        d: Port,
        held: spec_fn(int) -> nat,
    )
        requires
            self.affine(
                |cell: int| held(cell) + a.ends(cell) + b.ends(cell) + c.ends(cell) + d.ends(cell),
            ),
        ensures
            self.linked(a, b).linked(c, d).links() == self.links() + 2,
    {
        let all = |cell: int|
            held(cell) + a.ends(cell) + b.ends(cell) + c.ends(cell) + d.ends(cell);
        let more = |cell: int| held(cell) + c.ends(cell) + d.ends(cell);
        assert forall|cell: int| #[trigger] self.spares(cell, more, a, b) by {
            assert(self.fits(cell, all(cell)));
        }
        self.lemma_linked_links(a, b, more);
        let net = self.linked(a, b);
        assert forall|cell: int| #[trigger] net.spares(cell, held, c, d) by {
            assert(self.spares(cell, more, a, b));
            self.lemma_linked_fits(a, b, cell, more(cell));
        }
        net.lemma_linked_links(c, d, held);
    }

    proof fn lemma_allocated_links(self, held: spec_fn(int) -> nat)
        requires
            self.affine(held),
        ensures
            self.allocated().links() == self.links() - 1,
    {
        if self.free.len() > 0 {
            let last = self.free.len() - 1;
            let cell = self.free[last] as int;
            assert(self.fits(cell, held(cell)));
            self.lemma_free_fits(last, held(cell));
            assert(self.allocated().cells =~= self.cells);
        } else {
            assert(self.cells.push(None).drop_last() =~= self.cells);
        }
    }

    /// A new node has two wires.
    pub(crate) proof fn lemma_with_node_links(self, held: spec_fn(int) -> nat)
        requires
            self.affine(held),
            self.with_node().cells.len() <= usize::MAX,
        ensures
            self.with_node().links() == self.links() - 2,
    {
        let left = self.next_wire().cell as int;
        let more = |cell: int| held(cell) + 2 * one(left == cell);
        self.lemma_allocated_links(held);
        assert forall|cell: int| #[trigger] self.allocated().fits(cell, more(cell)) by {
            assert(self.fits(cell, held(cell)));
            self.lemma_allocated_fits(cell, held(cell));
        }
        self.allocated().lemma_allocated_links(more);
    }

    /// Nodes that commute make as many links as wires.
    pub(crate) proof fn lemma_commuted_links(self, a: Node, b: Node, held: spec_fn(int) -> nat)
        requires
            self.affine(
                |cell: int| held(cell) + Port::Node(a).ends(cell) + Port::Node(b).ends(cell),
            ),
            self.commuted(a, b).cells.len() <= usize::MAX,
        ensures
            self.commuted(a, b).links() == self.links(),
    {
        let (pa, pb) = (Port::Node(a), Port::Node(b));
        let held0 = |cell: int| held(cell) + pa.ends(cell) + pb.ends(cell);
        let net0 = self.with_stats(self.stats.commuted());
        let a1 = net0.next_node(a.kind, a.label);
        let net1 = net0.with_node();
        let a2 = net1.next_node(a.kind, a.label);
        let net2 = net1.with_node();
        let b1 = net2.next_node(b.kind, b.label);
        let net3 = net2.with_node();
        let b2 = net3.next_node(b.kind, b.label);
        let net4 = net3.with_node();
        let links = Net::commuting(a, b, a1, a2, b1, b2);
        net4.lemma_commuting(a, b, a1, a2, b1, b2);
        net4.lemma_linked_all_len(links);
        assert(net3.cells.len() <= net4.cells.len());
        assert forall|cell: int| #[trigger] net0.fits(cell, held0(cell)) by {
            assert(self.fits(cell, held0(cell)));
        }
        let held1 = |cell: int| held0(cell) + 2 * Port::Node(a1).ends(cell);
        let held2 = |cell: int| held1(cell) + 2 * Port::Node(a2).ends(cell);
        let held3 = |cell: int| held2(cell) + 2 * Port::Node(b1).ends(cell);
        let held4 = |cell: int| held3(cell) + 2 * Port::Node(b2).ends(cell);
        net0.lemma_with_node_means(a.kind, a.label, held0);
        net0.lemma_with_node_links(held0);
        net1.lemma_with_node_means(a.kind, a.label, held1);
        net1.lemma_with_node_links(held1);
        net2.lemma_with_node_means(b.kind, b.label, held2);
        net2.lemma_with_node_links(held2);
        net3.lemma_with_node_means(b.kind, b.label, held3);
        net3.lemma_with_node_links(held3);
        assert forall|cell: int| #[trigger] net4.affords(cell, held, links) by {
            assert(net4.fits(cell, held4(cell)));
            assert(Net::pairs_ends(links, cell) == pa.ends(cell) + pb.ends(cell) + 2 * Port::Node(
                a1,
            ).ends(cell) + 2 * Port::Node(a2).ends(cell) + 2 * Port::Node(b1).ends(cell) + 2
                * Port::Node(b2).ends(cell));
        }
        net4.lemma_linked_all_links(links, held);
    }

    /// A graft that is invoked takes two wires and three links.
    pub(crate) proof fn lemma_invoked_links(
        self,
        graft: GraftId,
        input: Wire,
        output: Wire,
        held: spec_fn(int) -> nat,
    )
        requires
            self.affine(
                |cell: int|
                    held(cell) + Port::Wire(input).ends(cell) + Port::Wire(output).ends(cell),
            ),
            self.invoked(graft, input, output).cells.len() <= usize::MAX,
        ensures
            self.invoked(graft, input, output).links() == self.links() + 1,
    {
        let (pi, po) = (Port::Wire(input), Port::Wire(output));
        let all = |cell: int| held(cell) + pi.ends(cell) + po.ends(cell);
        let node = self.next_node(NodeKind::Comb, 0);
        let net = self.with_node();
        let (left, right) = (Port::Wire(node.left), Port::Wire(node.right));
        let mid = net.linked(left, pi).linked(right, po);
        net.lemma_linked_twice_quiet(left, pi, right, po);
        mid.lemma_linked_quiet(Port::Graft(graft), Port::Node(node));
        self.lemma_with_node_means(NodeKind::Comb, 0, all);
        self.lemma_with_node_links(all);
        let twice = |cell: int| all(cell) + 2 * Port::Node(node).ends(cell);
        assert(net.affine(twice));
        let rest = |cell: int| held(cell) + Port::Node(node).ends(cell);
        let most = |cell: int|
            rest(cell) + left.ends(cell) + pi.ends(cell) + right.ends(cell) + po.ends(cell);
        assert forall|cell: int| #[trigger] net.fits(cell, most(cell)) by {
            assert(net.fits(cell, twice(cell)));
        }
        net.lemma_linked_twice_links(left, pi, right, po, rest);
    }

    /// A link of a register is kept by the register, or joins what it holds.
    proof fn lemma_registered_links(
        self,
        registers: Slots,
        register: usize,
        port: Port,
        held: spec_fn(int) -> nat,
    )
        requires
            register < registers.len(),
            self.affine(
                |cell: int| held(cell) + Net::slots_ends(registers, cell) + port.ends(cell),
            ),
        ensures
            2 * self.registered(registers, register, port).0.links() + Net::occupied(
                self.registered(registers, register, port).1,
            ) == 2 * self.links() + Net::occupied(registers) + 1,
            self.registered(registers, register, port).1.len() == registers.len(),
    {
        let all = |cell: int| held(cell) + Net::slots_ends(registers, cell) + port.ends(cell);
        let r = register as int;
        match registers[r] {
            None => {
                Net::lemma_occupied_update(registers, r, Some(port));
            },
            Some(other) => {
                Net::lemma_occupied_update(registers, r, None);
                let slots = registers.update(r, None);
                let rest = |cell: int| held(cell) + Net::slots_ends(slots, cell);
                assert forall|cell: int| #[trigger] self.spares(cell, rest, other, port) by {
                    assert(self.fits(cell, all(cell)));
                    Net::lemma_slots_ends_update(registers, r, None, cell);
                }
                self.lemma_linked_links(other, port, rest);
            },
        }
    }

    proof fn lemma_performed_links(
        self,
        registers: Slots,
        instruction: Instruction,
        held: spec_fn(int) -> nat,
    )
        requires
            Net::within(instruction, registers.len()),
            self.affine(|cell: int| held(cell) + Net::slots_ends(registers, cell)),
            self.performed(registers, instruction).0.cells.len() <= usize::MAX,
        ensures
            2 * self.performed(registers, instruction).0.links() + Net::occupied(
                self.performed(registers, instruction).1,
            ) == 2 * self.links() + Net::occupied(registers) + (if instruction is Binary {
                -1int
            } else {
                1
            }),
    {
        let all = |cell: int| held(cell) + Net::slots_ends(registers, cell);
        match instruction {
            Instruction::Nilary { port, value } => {
                let nilary = Net::nilary_port(value);
                let more = |cell: int|
                    held(cell) + Net::slots_ends(registers, cell) + nilary.ends(cell);
                assert forall|cell: int| #[trigger] self.fits(cell, more(cell)) by {
                    assert(self.fits(cell, all(cell)));
                }
                self.lemma_registered_links(registers, port, nilary, held);
            },
            Instruction::Binary { kind, label, principal, left, right } => {
                let node = self.next_node(kind, label);
                let port0 = Port::Node(node);
                let port1 = Port::Wire(node.left);
                let port2 = Port::Wire(node.right);
                let net0 = self.with_node();
                let (net1, slots1) = net0.registered(registers, principal, port0);
                let (net2, slots2) = net1.registered(slots1, left, port1);
                net0.lemma_registered_keeps(registers, principal, port0);
                net1.lemma_registered_keeps(slots1, left, port1);
                net2.lemma_registered_keeps(slots2, right, port2);
                self.lemma_with_node_means(kind, label, all);
                self.lemma_with_node_links(all);
                let held0 = |cell: int| held(cell) + port1.ends(cell) + port2.ends(cell);
                let held1 = |cell: int| held(cell) + port2.ends(cell);
                let fits0 = |cell: int|
                    held0(cell) + Net::slots_ends(registers, cell) + port0.ends(cell);
                let fits1 = |cell: int|
                    held1(cell) + Net::slots_ends(slots1, cell) + port1.ends(cell);
                let fits2 = |cell: int|
                    held(cell) + Net::slots_ends(slots2, cell) + port2.ends(cell);
                let twice = |cell: int| all(cell) + 2 * port0.ends(cell);
                assert(net0.affine(twice));
                assert forall|cell: int| #[trigger] net0.fits(cell, fits0(cell)) by {
                    assert(net0.fits(cell, twice(cell)));
                }
                net0.lemma_registered_links(registers, principal, port0, held0);
                assert forall|cell: int| #[trigger] net1.fits(cell, fits1(cell)) by {
                    assert(net0.fits(cell, fits0(cell)));
                    net0.lemma_registered_fits(registers, principal, port0, cell, held0(cell));
                }
                net1.lemma_registered_links(slots1, left, port1, held1);
                assert forall|cell: int| #[trigger] net2.fits(cell, fits2(cell)) by {
                    assert(net1.fits(cell, fits1(cell)));
                    net1.lemma_registered_fits(slots1, left, port1, cell, held1(cell));
                }
                net2.lemma_registered_links(slots2, right, port2, held);
            },
        }
    }

    proof fn lemma_executed_links(
        self,
        registers: Slots,
        instructions: Seq<Instruction>,
        held: spec_fn(int) -> nat,
    )
        requires
            forall|i: int|
                0 <= i < instructions.len() ==> Net::within(
                    #[trigger] instructions[i],
                    registers.len(),
                ),
            self.affine(|cell: int| held(cell) + Net::slots_ends(registers, cell)),
            self.executed(registers, instructions).0.cells.len() <= usize::MAX,
        ensures
            2 * self.executed(registers, instructions).0.links() + Net::occupied(
                self.executed(registers, instructions).1,
            ) == 2 * self.links() + Net::occupied(registers) + instructions.len() - 2
                * Net::binaries(instructions),
        decreases instructions.len(),
    {
        if instructions.len() > 0 {
            let rest = instructions.drop_last();
            let last = instructions.last();
            assert forall|i: int| 0 <= i < rest.len() implies Net::within(
                #[trigger] rest[i],
                registers.len(),
            ) by {
                assert(rest[i] == instructions[i]);
            }
            assert(instructions[instructions.len() - 1] == last);
            let (net, slots) = self.executed(registers, rest);
            net.lemma_performed_keeps(slots, last);
            let all = |cell: int| held(cell) + Net::slots_ends(registers, cell);
            let more = |cell: int| held(cell) + Net::slots_ends(slots, cell);
            self.lemma_executed_links(registers, rest, held);
            assert forall|cell: int| #[trigger] net.fits(cell, more(cell)) by {
                assert(self.fits(cell, all(cell)));
                self.lemma_executed_fits(registers, rest, cell, held(cell));
            }
            self.lemma_executed_len(registers, rest);
            net.lemma_performed_links(slots, last, held);
        }
    }

    pub(crate) proof fn lemma_occupied_none(slots: Slots)
        requires
            forall|i: int| 0 <= i < slots.len() ==> #[trigger] slots[i] is None,
        ensures
            Net::occupied(slots) == 0,
        decreases slots.len(),
    {
        if slots.len() > 0 {
            assert forall|i: int| 0 <= i < slots.drop_last().len() implies #[trigger]
                slots.drop_last()[i] is None by {
                assert(slots.drop_last()[i] == slots[i]);
            }
            Net::lemma_occupied_none(slots.drop_last());
            assert(slots[slots.len() - 1] is None);
        }
    }

    /// The links of a graft whose wires have two ends each.
    pub(crate) proof fn lemma_expanded_links(
        self,
        graft: GraftId,
        port: Port,
        held: spec_fn(int) -> nat,
    )
        requires
            self.host.wf(),
            graft.index < self.host.grafts.len(),
            self.affine(|cell: int| held(cell) + port.ends(cell)),
            self.expanded(graft, port).cells.len() <= usize::MAX,
            forall|i: int|
                0 <= i < self.host.grafts[graft.index as int].registers ==> one(i == 0)
                    + #[trigger] Net::touched(
                    self.host.grafts[graft.index as int].instructions,
                    i,
                ) == 2,
        ensures
            2 * (self.expanded(graft, port).links() - self.links())
                == self.host.grafts[graft.index as int].instructions.len() + 1 - 2 * Net::binaries(
                self.host.grafts[graft.index as int].instructions,
            ),
    {
        let body = self.host.grafts[graft.index as int];
        let instructions = body.instructions;
        let empty = Seq::new(body.registers as nat, |i: int| None::<Port>);
        let registers = empty.update(0, Some(port));
        let base = self.with_stats(self.stats.expanded());
        let before = |cell: int| held(cell) + port.ends(cell);
        let all = |cell: int| held(cell) + Net::slots_ends(registers, cell);
        assert(self.host.has_graft(body));
        assert forall|i: int| 0 <= i < instructions.len() implies Net::within(
            #[trigger] instructions[i],
            registers.len(),
        ) by {
            assert(self.host.has_instruction(instructions[i], body.registers));
        }
        assert forall|cell: int| #[trigger] base.fits(cell, all(cell)) by {
            assert(self.fits(cell, before(cell)));
            Net::lemma_slots_ends_none(empty, cell);
            Net::lemma_slots_ends_update(empty, 0, Some(port), cell);
        }
        base.lemma_executed_links(registers, instructions, held);
        Net::lemma_occupied_none(empty);
        Net::lemma_occupied_update(empty, 0, Some(port));
        base.lemma_executed_len(registers, instructions);
        let slots = base.executed(registers, instructions).1;
        assert forall|i: int| 0 <= i < slots.len() implies #[trigger] slots[i] is None by {
            assert(one(i == 0) + Net::touched(instructions, i) == 2);
            assert(Net::worn(registers, instructions, i) == 2);
            base.lemma_executed_slots(registers, instructions, i);
        }
        Net::lemma_occupied_none(slots);
    }
}

} // verus!
