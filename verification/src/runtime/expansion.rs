//! What grafts mean when they are expanded.
use vstd::prelude::*;

use crate::runtime::graft::{GraftId, Instruction};
use crate::runtime::linear::one;
use crate::runtime::meaning::Reading;
use crate::runtime::net::{Net, Slots};
use crate::runtime::port::Port;

verus! {

impl Net {
    /// How often an agent of a graft touches a register.
    pub open spec fn touches(instruction: Instruction, register: int) -> nat {
        match instruction {
            Instruction::Nilary { port, value } => one(port == register),
            Instruction::Binary { kind, label, principal, left, right } => one(
                principal == register,
            ) + one(left == register) + one(right == register),
        }
    }

    /// How often the agents of a graft touch a register.
    pub open spec fn touched(instructions: Seq<Instruction>, register: int) -> nat
        decreases instructions.len(),
    {
        if instructions.len() == 0 {
            0
        } else {
            Net::touched(instructions.drop_last(), register) + Net::touches(
                instructions.last(),
                register,
            )
        }
    }

    /// How many ends of a register are used up, or linked.
    pub open spec fn worn(registers: Slots, instructions: Seq<Instruction>, register: int) -> nat {
        one(registers[register] is Some) + Net::touched(instructions, register)
    }

    proof fn lemma_means_registered(
        self,
        registers: Slots,
        register: usize,
        port: Port,
        reading: Reading,
        values: spec_fn(int) -> int,
    )
        requires
            register < registers.len(),
            self.means(reading),
            reading.fills(registers, values),
            reading.port(port) == values(register as int),
        ensures
            self.registered(registers, register, port).0.means(reading),
            reading.fills(self.registered(registers, register, port).1, values),
    {
        if let Some(other) = registers[register as int] {
            self.lemma_means_linked(other, port, reading);
        }
    }

    proof fn lemma_registered_means(
        self,
        registers: Slots,
        register: usize,
        port: Port,
        held: spec_fn(int) -> nat,
        later: Reading,
        values: spec_fn(int) -> int,
    ) -> (result: (Reading, spec_fn(int) -> int))
        requires
            register < registers.len(),
            self.affine(
                |cell: int| held(cell) + Net::slots_ends(registers, cell) + port.ends(cell),
            ),
            self.registered(registers, register, port).0.means(later),
            later.fills(self.registered(registers, register, port).1, values),
        ensures
            self.means(result.0),
            result.0.fills(registers, result.1),
            result.0.port(port) == (result.1)(register as int),
            result.0.agrees(later, self.registered(registers, register, port).0),
            forall|i: int| i != register || registers[i] is None ==> #[trigger] (result.1)(i)
                == values(i),
    {
        let all = |cell: int| held(cell) + Net::slots_ends(registers, cell) + port.ends(cell);
        let (after, slots) = self.registered(registers, register, port);
        let r = register as int;
        match registers[r] {
            None => {
                assert(slots[r] == Some(port));
                assert forall|i: int| 0 <= i < registers.len() implies (
                #[trigger] registers[i] matches Some(p) ==> later.port(p) == values(i)) by {
                    if i != r {
                        assert(slots[i] == registers[i]);
                    }
                }
                (later, values)
            },
            Some(other) => {
                let rest = |cell: int| held(cell) + Net::slots_ends(slots, cell);
                assert forall|cell: int| #[trigger] self.spares(cell, rest, other, port) by {
                    assert(self.fits(cell, all(cell)));
                    Net::lemma_slots_ends_update(registers, r, None, cell);
                }
                let reading = self.lemma_linked_means(other, port, rest, later);
                let value = reading.port(port);
                let changed = |i: int|
                    if i == r {
                        value
                    } else {
                        values(i)
                    };
                assert forall|cell: int| #[trigger] after.fits(cell, rest(cell)) by {
                    assert(self.spares(cell, rest, other, port));
                    self.lemma_linked_fits(other, port, cell, rest(cell));
                }
                assert forall|i: int| 0 <= i < registers.len() implies (
                #[trigger] registers[i] matches Some(p) ==> reading.port(p) == changed(i)) by {
                    if i != r {
                        assert(slots[i] == registers[i]);
                        if let Some(p) = registers[i] {
                            assert forall|cell: int| #[trigger] p.ends(cell) <= rest(cell) by {
                                Net::lemma_slot_ends_bound(slots, i, cell);
                            }
                            after.lemma_held_alike(p, reading, later, rest);
                        }
                    }
                }
                (reading, changed)
            },
        }
    }

    proof fn lemma_means_performed(
        self,
        registers: Slots,
        instruction: Instruction,
        held: spec_fn(int) -> nat,
        reading: Reading,
        values: spec_fn(int) -> int,
    ) -> (later: Reading)
        requires
            Net::within(instruction, registers.len()),
            self.affine(|cell: int| held(cell) + Net::slots_ends(registers, cell)),
            self.performed(registers, instruction).0.cells.len() <= usize::MAX,
            self.means(reading),
            reading.fills(registers, values),
            reading.places(instruction, values),
        ensures
            later.agrees(reading, self),
            self.performed(registers, instruction).0.means(later),
            later.fills(self.performed(registers, instruction).1, values),
    {
        let all = |cell: int| held(cell) + Net::slots_ends(registers, cell);
        match instruction {
            Instruction::Nilary { port, value } => {
                self.lemma_means_registered(
                    registers,
                    port,
                    Net::nilary_port(value),
                    reading,
                    values,
                );
                reading
            },
            Instruction::Binary { kind, label, principal, left, right } => {
                let node = self.next_node(kind, label);
                let net0 = self.with_node();
                let (net1, slots1) = net0.registered(registers, principal, Port::Node(node));
                let (net2, slots2) = net1.registered(slots1, left, Port::Wire(node.left));
                net0.lemma_registered_keeps(registers, principal, Port::Node(node));
                net1.lemma_registered_keeps(slots1, left, Port::Wire(node.left));
                net2.lemma_registered_keeps(slots2, right, Port::Wire(node.right));
                self.lemma_with_node_means(kind, label, all);
                let later = reading.with_wire(
                    node.left.cell as int,
                    values(left as int),
                ).with_wire(node.right.cell as int, values(right as int));
                assert(later.agrees(reading, self));
                self.lemma_means_alike(later, reading, all);
                assert(net0.means(later));
                assert forall|i: int| 0 <= i < registers.len() implies (
                #[trigger] registers[i] matches Some(p) ==> later.port(p) == values(i)) by {
                    if let Some(p) = registers[i] {
                        assert forall|cell: int| #[trigger] p.ends(cell) <= all(cell) by {
                            Net::lemma_slot_ends_bound(registers, i, cell);
                        }
                        self.lemma_held_alike(p, later, reading, all);
                    }
                }
                net0.lemma_means_registered(
                    registers,
                    principal,
                    Port::Node(node),
                    later,
                    values,
                );
                net1.lemma_means_registered(slots1, left, Port::Wire(node.left), later, values);
                net2.lemma_means_registered(slots2, right, Port::Wire(node.right), later, values);
                later
            },
        }
    }

    #[verifier::rlimit(40)]
    proof fn lemma_performed_means(
        self,
        registers: Slots,
        instruction: Instruction,
        held: spec_fn(int) -> nat,
        later: Reading,
        values: spec_fn(int) -> int,
    ) -> (result: (Reading, spec_fn(int) -> int))
        requires
            Net::within(instruction, registers.len()),
            self.affine(|cell: int| held(cell) + Net::slots_ends(registers, cell)),
            self.performed(registers, instruction).0.cells.len() <= usize::MAX,
            self.performed(registers, instruction).0.means(later),
            later.fills(self.performed(registers, instruction).1, values),
            forall|i: int|
                0 <= i < registers.len() ==> one(#[trigger] registers[i] is Some) + Net::touches(
                    instruction,
                    i,
                ) <= 2,
        ensures
            self.means(result.0),
            result.0.fills(registers, result.1),
            result.0.places(instruction, result.1),
            result.0.agrees(later, self.performed(registers, instruction).0),
            forall|i: int|
                0 <= i < registers.len() && one(registers[i] is Some) + Net::touches(instruction, i)
                    < 2 ==> #[trigger] (result.1)(i) == values(i),
    {
        let all = |cell: int| held(cell) + Net::slots_ends(registers, cell);
        match instruction {
            Instruction::Nilary { port, value } => {
                let nilary = Net::nilary_port(value);
                let more = |cell: int|
                    held(cell) + Net::slots_ends(registers, cell) + nilary.ends(cell);
                assert forall|cell: int| #[trigger] self.fits(cell, more(cell)) by {
                    assert(self.fits(cell, all(cell)));
                }
                let result = self.lemma_registered_means(
                    registers,
                    port,
                    nilary,
                    held,
                    later,
                    values,
                );
                result
            },
            Instruction::Binary { kind, label, principal, left, right } => {
                let node = self.next_node(kind, label);
                let port0 = Port::Node(node);
                let port1 = Port::Wire(node.left);
                let port2 = Port::Wire(node.right);
                let net0 = self.with_node();
                let (net1, slots1) = net0.registered(registers, principal, port0);
                let (net2, slots2) = net1.registered(slots1, left, port1);
                let (net3, slots3) = net2.registered(slots2, right, port2);
                net0.lemma_registered_keeps(registers, principal, port0);
                net1.lemma_registered_keeps(slots1, left, port1);
                net2.lemma_registered_keeps(slots2, right, port2);
                self.lemma_with_node_means(kind, label, all);
                let held0 = |cell: int| held(cell) + port1.ends(cell) + port2.ends(cell);
                let held1 = |cell: int| held(cell) + port2.ends(cell);
                let fits0 = |cell: int|
                    held0(cell) + Net::slots_ends(registers, cell) + port0.ends(cell);
                let fits1 = |cell: int|
                    held1(cell) + Net::slots_ends(slots1, cell) + port1.ends(cell);
                let fits2 = |cell: int|
                    held(cell) + Net::slots_ends(slots2, cell) + port2.ends(cell);
                let twice = |cell: int| all(cell) + 2 * port0.ends(cell);
                assert(net0.affine(twice));
                assert forall|cell: int| #[trigger] net0.fits(cell, fits0(cell)) by {
                    assert(net0.fits(cell, twice(cell)));
                }
                assert forall|cell: int| #[trigger] net1.fits(cell, fits1(cell)) by {
                    assert(net0.fits(cell, fits0(cell)));
                    net0.lemma_registered_fits(registers, principal, port0, cell, held0(cell));
                }
                assert forall|cell: int| #[trigger] net2.fits(cell, fits2(cell)) by {
                    assert(net1.fits(cell, fits1(cell)));
                    net1.lemma_registered_fits(slots1, left, port1, cell, held1(cell));
                }
                let (reading2, values2) = net2.lemma_registered_means(
                    slots2,
                    right,
                    port2,
                    held,
                    later,
                    values,
                );
                let (reading1, values1) = net1.lemma_registered_means(
                    slots1,
                    left,
                    port1,
                    held1,
                    reading2,
                    values2,
                );
                let (reading0, values0) = net0.lemma_registered_means(
                    registers,
                    principal,
                    port0,
                    held0,
                    reading1,
                    values1,
                );
                let rest0 = |cell: int| held0(cell) + Net::slots_ends(slots1, cell);
                let rest1 = |cell: int| held1(cell) + Net::slots_ends(slots2, cell);
                assert forall|cell: int| #[trigger] net1.fits(cell, rest0(cell)) by {
                    assert(net1.fits(cell, fits1(cell)));
                }
                assert forall|cell: int| #[trigger] net2.fits(cell, rest1(cell)) by {
                    assert(net2.fits(cell, fits2(cell)));
                }
                net2.lemma_held_alike(port2, reading1, reading2, rest1);
                net1.lemma_held_alike(port1, reading0, reading1, rest0);
                net1.lemma_held_alike(port2, reading0, reading1, rest0);
                assert(self.means(reading0));
                net0.lemma_registered_free(registers, principal, port0);
                net1.lemma_registered_free(slots1, left, port1);
                net2.lemma_registered_free(slots2, right, port2);
                assert forall|cell: int| #[trigger] net3.uses(cell) implies (reading0.wire)(cell)
                    == (later.wire)(cell) by {
                    assert(net2.uses(cell)) by {
                        assert forall|i: int| 0 <= i < net2.free.len() implies #[trigger]
                            net2.free[i] != cell by {
                            assert(net3.free[i] == net2.free[i]);
                        }
                    }
                    assert(net1.uses(cell)) by {
                        assert forall|i: int| 0 <= i < net1.free.len() implies #[trigger]
                            net1.free[i] != cell by {
                            assert(net2.free[i] == net1.free[i]);
                        }
                    }
                }
                let (p, l, r) = (principal as int, left as int, right as int);
                assert(Net::touches(instruction, p) >= 1);
                assert(Net::touches(instruction, l) >= 1);
                assert(Net::touches(instruction, r) >= 1);
                assert(one(registers[p] is Some) + Net::touches(instruction, p) <= 2);
                assert(one(registers[l] is Some) + Net::touches(instruction, l) <= 2);
                assert(one(registers[r] is Some) + Net::touches(instruction, r) <= 2);
                assert(values0(p) == reading0.port(port0));
                assert(values0(l) == reading0.port(port1));
                assert(values0(r) == reading0.port(port2));
                (reading0, values0)
            },
        }
    }

    proof fn lemma_registered_free(self, registers: Slots, register: usize, port: Port)
        ensures
            crate::runtime::frame::begins(
                self.registered(registers, register, port).0.free,
                self.free,
            ),
            self.registered(registers, register, port).0.cells.len() == self.cells.len(),
    {
        if let Some(other) = registers[register as int] {
            self.lemma_linked_free(other, port);
        }
    }

    proof fn lemma_means_executed(
        self,
        registers: Slots,
        instructions: Seq<Instruction>,
        held: spec_fn(int) -> nat,
        reading: Reading,
        values: spec_fn(int) -> int,
    ) -> (later: Reading)
        requires
            forall|i: int|
                0 <= i < instructions.len() ==> Net::within(
                    #[trigger] instructions[i],
                    registers.len(),
                ),
            self.affine(|cell: int| held(cell) + Net::slots_ends(registers, cell)),
            self.executed(registers, instructions).0.cells.len() <= usize::MAX,
            self.means(reading),
            reading.fills(registers, values),
            reading.places_all(instructions, values),
        ensures
            later.meets(reading, held),
            self.executed(registers, instructions).0.means(later),
            later.fills(self.executed(registers, instructions).1, values),
        decreases instructions.len(),
    {
        if instructions.len() == 0 {
            reading
        } else {
            let rest = instructions.drop_last();
            let last = instructions.last();
            assert forall|i: int| 0 <= i < rest.len() implies {
                &&& Net::within(#[trigger] rest[i], registers.len())
                &&& reading.places(rest[i], values)
            } by {
                assert(rest[i] == instructions[i]);
            }
            assert(instructions[instructions.len() - 1] == last);
            let (net, slots) = self.executed(registers, rest);
            net.lemma_performed_keeps(slots, last);
            let mid = self.lemma_means_executed(registers, rest, held, reading, values);
            let all = |cell: int| held(cell) + Net::slots_ends(registers, cell);
            let more = |cell: int| held(cell) + Net::slots_ends(slots, cell);
            assert forall|cell: int| #[trigger] net.fits(cell, more(cell)) by {
                assert(self.fits(cell, all(cell)));
                self.lemma_executed_fits(registers, rest, cell, held(cell));
            }
            self.lemma_executed_len(registers, rest);
            let later = net.lemma_means_performed(slots, last, held, mid, values);
            assert forall|cell: int| #[trigger] held(cell) > 0 implies (later.wire)(cell) == (
            reading.wire)(cell) by {
                assert(net.fits(cell, more(cell)));
                net.lemma_held_used(cell, more(cell));
            }
            later
        }
    }

    pub(crate) proof fn lemma_executed_len(self, registers: Slots, instructions: Seq<Instruction>)
        requires
            forall|i: int|
                0 <= i < instructions.len() ==> Net::within(
                    #[trigger] instructions[i],
                    registers.len(),
                ),
        ensures
            self.executed(registers, instructions).1.len() == registers.len(),
        decreases instructions.len(),
    {
        if instructions.len() > 0 {
            let rest = instructions.drop_last();
            assert forall|i: int| 0 <= i < rest.len() implies Net::within(
                #[trigger] rest[i],
                registers.len(),
            ) by {
                assert(rest[i] == instructions[i]);
            }
            assert(Net::within(instructions[instructions.len() - 1], registers.len()));
            self.lemma_executed_len(registers, rest);
        }
    }

    /// A register holds a port exactly if one of its ends is linked.
    pub(crate) proof fn lemma_executed_slots(
        self,
        registers: Slots,
        instructions: Seq<Instruction>,
        i: int,
    )
        requires
            0 <= i < registers.len(),
            forall|j: int|
                0 <= j < instructions.len() ==> Net::within(
                    #[trigger] instructions[j],
                    registers.len(),
                ),
            Net::worn(registers, instructions, i) <= 2,
        ensures
            self.executed(registers, instructions).1[i] is Some <==> Net::worn(
                registers,
                instructions,
                i,
            ) == 1,
        decreases instructions.len(),
    {
        if instructions.len() > 0 {
            let rest = instructions.drop_last();
            assert forall|j: int| 0 <= j < rest.len() implies Net::within(
                #[trigger] rest[j],
                registers.len(),
            ) by {
                assert(rest[j] == instructions[j]);
            }
            assert(instructions[instructions.len() - 1] == instructions.last());
            assert(Net::within(instructions.last(), registers.len()));
            self.lemma_executed_slots(registers, rest, i);
            self.lemma_executed_len(registers, rest);
        }
    }

    proof fn lemma_executed_means(
        self,
        registers: Slots,
        instructions: Seq<Instruction>,
        held: spec_fn(int) -> nat,
        later: Reading,
        values: spec_fn(int) -> int,
    ) -> (result: (Reading, spec_fn(int) -> int))
        requires
            forall|i: int|
                0 <= i < instructions.len() ==> Net::within(
                    #[trigger] instructions[i],
                    registers.len(),
                ),
            forall|i: int|
                0 <= i < registers.len() ==> #[trigger] Net::worn(registers, instructions, i) <= 2,
            self.affine(|cell: int| held(cell) + Net::slots_ends(registers, cell)),
            self.executed(registers, instructions).0.cells.len() <= usize::MAX,
            self.executed(registers, instructions).0.means(later),
            later.fills(self.executed(registers, instructions).1, values),
        ensures
            self.means(result.0),
            result.0.fills(registers, result.1),
            result.0.places_all(instructions, result.1),
            result.0.meets(later, held),
            forall|i: int|
                0 <= i < registers.len() && Net::worn(registers, instructions, i) < 2
                    ==> #[trigger] (result.1)(i) == values(i),
        decreases instructions.len(),
    {
        if instructions.len() == 0 {
            (later, values)
        } else {
            let rest = instructions.drop_last();
            let last = instructions.last();
            assert forall|i: int| 0 <= i < rest.len() implies Net::within(
                #[trigger] rest[i],
                registers.len(),
            ) by {
                assert(rest[i] == instructions[i]);
            }
            assert(instructions[instructions.len() - 1] == last);
            let (net, slots) = self.executed(registers, rest);
            net.lemma_performed_keeps(slots, last);
            let all = |cell: int| held(cell) + Net::slots_ends(registers, cell);
            let more = |cell: int| held(cell) + Net::slots_ends(slots, cell);
            assert forall|cell: int| #[trigger] net.fits(cell, more(cell)) by {
                assert(self.fits(cell, all(cell)));
                self.lemma_executed_fits(registers, rest, cell, held(cell));
            }
            self.lemma_executed_len(registers, rest);
            assert forall|i: int| 0 <= i < registers.len() implies #[trigger] Net::worn(
                registers,
                rest,
                i,
            ) <= 2 by {
                assert(Net::worn(registers, instructions, i) <= 2);
            }
            assert forall|i: int| 0 <= i < slots.len() implies one(#[trigger] slots[i] is Some)
                + Net::touches(last, i) <= 2 by {
                assert(Net::worn(registers, instructions, i) <= 2);
                self.lemma_executed_slots(registers, rest, i);
            }
            let (mid, values1) = net.lemma_performed_means(slots, last, held, later, values);
            let (reading, values2) = self.lemma_executed_means(
                registers,
                rest,
                held,
                mid,
                values1,
            );
            assert forall|i: int|
                0 <= i < registers.len() && Net::worn(registers, instructions, i)
                    < 2 implies #[trigger] values2(i) == values(i) by {
                self.lemma_executed_slots(registers, rest, i);
                assert(values1(i) == values(i));
            }
            assert forall|i: int|
                0 <= i < registers.len() && Net::touches(last, i) > 0 implies #[trigger] values2(i)
                == values1(i) by {
                assert(Net::worn(registers, instructions, i) <= 2);
            }
            match last {
                Instruction::Nilary { port, value } => {
                    assert(Net::touches(last, port as int) > 0);
                    assert(values2(port as int) == values1(port as int));
                },
                Instruction::Binary { kind, label, principal, left, right } => {
                    assert(Net::touches(last, principal as int) > 0);
                    assert(Net::touches(last, left as int) > 0);
                    assert(Net::touches(last, right as int) > 0);
                    assert(values2(principal as int) == values1(principal as int));
                    assert(values2(left as int) == values1(left as int));
                    assert(values2(right as int) == values1(right as int));
                },
            }
            assert(reading.places(last, values2));
            assert forall|i: int| 0 <= i < instructions.len() implies reading.places(
                #[trigger] instructions[i],
                values2,
            ) by {
                if i < rest.len() {
                    assert(rest[i] == instructions[i]);
                }
            }
            let after = self.executed(registers, instructions).0;
            assert forall|cell: int| #[trigger] held(cell) > 0 implies (reading.wire)(cell) == (
            later.wire)(cell) by {
                assert(net.fits(cell, more(cell)));
                net.lemma_performed_fits(slots, last, cell, held(cell));
                after.lemma_held_used(
                    cell,
                    held(cell) + Net::slots_ends(net.performed(slots, last).1, cell),
                );
            }
            (reading, values2)
        }
    }

    /// A graft that is expanded is replaced by its net.
    pub(crate) proof fn lemma_expanded_gains(
        self,
        graft: GraftId,
        port: Port,
        held: spec_fn(int) -> nat,
    )
        requires
            self.host.wf(),
            graft.index < self.host.grafts.len(),
            self.affine(|cell: int| held(cell) + port.ends(cell)),
            self.expanded(graft, port).cells.len() <= usize::MAX,
            forall|i: int|
                0 <= i < self.host.grafts[graft.index as int].registers ==> one(i == 0)
                    + #[trigger] Net::touched(
                    self.host.grafts[graft.index as int].instructions,
                    i,
                ) <= 2,
        ensures
            self.gains(
                self.expanded(graft, port),
                held,
                |reading: Reading|
                    reading.holds_graft(
                        self.host.grafts[graft.index as int].instructions,
                        reading.port(port),
                    ),
            ),
    {
        let body = self.host.grafts[graft.index as int];
        let instructions = body.instructions;
        let empty = Seq::new(body.registers as nat, |i: int| None::<Port>);
        let registers = empty.update(0, Some(port));
        let base = self.with_stats(self.stats.expanded());
        let after = self.expanded(graft, port);
        let added = |reading: Reading| reading.holds_graft(instructions, reading.port(port));
        let before = |cell: int| held(cell) + port.ends(cell);
        let all = |cell: int| held(cell) + Net::slots_ends(registers, cell);
        assert(self.host.has_graft(body));
        assert forall|i: int| 0 <= i < instructions.len() implies Net::within(
            #[trigger] instructions[i],
            registers.len(),
        ) by {
            assert(self.host.has_instruction(instructions[i], body.registers));
        }
        assert forall|cell: int| #[trigger] base.fits(cell, all(cell)) by {
            assert(self.fits(cell, before(cell)));
            Net::lemma_slots_ends_none(empty, cell);
            Net::lemma_slots_ends_update(empty, 0, Some(port), cell);
        }
        assert forall|i: int| 0 <= i < registers.len() implies #[trigger] Net::worn(
            registers,
            instructions,
            i,
        ) <= 2 by {
            assert(one(i == 0) + Net::touched(instructions, i) <= 2);
        }
        assert forall|reading: Reading| #[trigger] self.leads_to(
            after,
            held,
            added,
            reading,
        ) by {
            if self.means(reading) && added(reading) {
                let values = choose|values: spec_fn(int) -> int|
                    values(0) == reading.port(port) && #[trigger] reading.places_all(
                        instructions,
                        values,
                    );
                assert(reading.fills(registers, values));
                let later = base.lemma_means_executed(
                    registers,
                    instructions,
                    held,
                    reading,
                    values,
                );
                assert(later.meets(reading, held) && after.means(later));
            }
        }
        assert forall|later: Reading| #[trigger] self.leads_from(after, held, added, later) by {
            if after.means(later) {
                let slots = base.executed(registers, instructions).1;
                let values = |i: int|
                    match slots[i] {
                        Some(p) => later.port(p),
                        None => 0,
                    };
                assert(later.fills(slots, values));
                let (reading, values2) = base.lemma_executed_means(
                    registers,
                    instructions,
                    held,
                    later,
                    values,
                );
                assert(registers[0] == Some(port));
                assert(values2(0) == reading.port(port));
                assert(added(reading));
                assert(reading.meets(later, held) && self.means(reading) && added(reading));
            }
        }
    }
}

} // verus!
