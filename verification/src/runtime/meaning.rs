//! What nets mean: the equations that their links stand for.
use vstd::prelude::*;

use crate::runtime::ext::ExtVal;
use crate::runtime::graft::{GraftId, Instruction, Nilary};
use crate::runtime::linear::one;
use crate::runtime::net::{Net, Slots};
use crate::runtime::port::{Node, NodeKind, Port};
use crate::runtime::wire::Wire;

verus! {

/// A way to read a net: each wire has a value, and each agent has one, given the values at
/// its auxiliary ports. Nothing is said of what the values are.
pub struct Reading {
    /// The values of the wires, by cell.
    pub wire: spec_fn(int) -> int,
    pub node: spec_fn(NodeKind, usize, int, int) -> int,
    pub value: spec_fn(ExtVal) -> int,
    pub graft: spec_fn(GraftId) -> int,
    pub eraser: int,
}

impl Reading {
    /// The value of `wire`.
    pub open spec fn at(self, wire: Wire) -> int {
        (self.wire)(wire.cell as int)
    }

    /// The value of a node of this kind and label with these values at its auxiliary ports.
    pub open spec fn made(self, kind: NodeKind, label: usize, left: int, right: int) -> int {
        (self.node)(kind, label, left, right)
    }

    /// The value of `port`.
    pub open spec fn port(self, port: Port) -> int {
        match port {
            Port::Wire(wire) => self.at(wire),
            Port::Erase => self.eraser,
            Port::Graft(graft) => (self.graft)(graft),
            Port::ExtVal(value) => (self.value)(value),
            Port::Node(node) => self.made(
                node.kind,
                node.label,
                self.at(node.left),
                self.at(node.right),
            ),
        }
    }

    /// The same with another value of the wire in `cell`.
    pub open spec fn with_wire(self, cell: int, value: int) -> Reading {
        Reading {
            wire: |c: int|
                if c == cell {
                    value
                } else {
                    (self.wire)(c)
                },
            ..self
        }
    }

    /// Whether two readings read agents in the same way.
    pub open spec fn like(self, other: Reading) -> bool {
        &&& self.node == other.node
        &&& self.value == other.value
        &&& self.graft == other.graft
        &&& self.eraser == other.eraser
    }

    /// Whether two readings read agents, and the wires of `net`, in the same way.
    pub open spec fn agrees(self, other: Reading, net: Net) -> bool {
        &&& self.like(other)
        &&& forall|cell: int| #[trigger] net.uses(cell) ==> (self.wire)(cell) == (other.wire)(cell)
    }

    /// Whether two readings read agents, and the wires that are held, in the same way.
    pub open spec fn meets(self, other: Reading, held: spec_fn(int) -> nat) -> bool {
        &&& self.like(other)
        &&& forall|cell: int| #[trigger] held(cell) > 0 ==> (self.wire)(cell) == (other.wire)(
            cell,
        )
    }

    /// Whether the two ports of every link have the same value.
    pub open spec fn joins(self, links: Seq<(Port, Port)>) -> bool {
        forall|i: int|
            0 <= i < links.len() ==> self.port((#[trigger] links[i]).0) == self.port(links[i].1)
    }

    /// Whether every port in `slots` has the value that is listed for its place.
    pub open spec fn fills(self, slots: Slots, values: spec_fn(int) -> int) -> bool {
        forall|i: int|
            0 <= i < slots.len() ==> (#[trigger] slots[i] matches Some(port) ==> self.port(port)
                == values(i))
    }

    /// Whether an agent of a graft is where it belongs, between registers with these values.
    pub open spec fn places(self, instruction: Instruction, values: spec_fn(int) -> int) -> bool {
        match instruction {
            Instruction::Nilary { port, value } => values(port as int) == (match value {
                Nilary::Erase => self.eraser,
                Nilary::Graft(graft) => (self.graft)(graft),
                Nilary::Value(value) => (self.value)(value),
            }),
            Instruction::Binary { kind, label, principal, left, right } => values(
                principal as int,
            ) == self.made(kind, label, values(left as int), values(right as int)),
        }
    }

    /// Whether all agents of a graft are where they belong.
    pub open spec fn places_all(
        self,
        instructions: Seq<Instruction>,
        values: spec_fn(int) -> int,
    ) -> bool {
        forall|i: int|
            0 <= i < instructions.len() ==> self.places(#[trigger] instructions[i], values)
    }
}

impl Net {
    /// Whether a wire uses `cell`.
    pub open spec fn uses(self, cell: int) -> bool {
        &&& 0 <= cell < self.cells.len()
        &&& forall|i: int| 0 <= i < self.free.len() ==> #[trigger] self.free[i] != cell
    }

    /// Whether all that is linked has the same value: each wire and what it holds, and the two
    /// ports of each active pair.
    pub open spec fn means(self, reading: Reading) -> bool {
        &&& forall|i: int|
            0 <= i < self.cells.len() ==> (#[trigger] self.cells[i] matches Some(port)
                ==> reading.port(port) == (reading.wire)(i))
        &&& reading.joins(self.fast)
        &&& reading.joins(self.slow)
    }

    /// Whether `after` says all that `self` says, and also what `added` says, and nothing
    /// else: its readings are those of `self` for which `added` holds, as far as the wires
    /// are concerned of which an end is held outside.
    pub open spec fn gains(
        self,
        after: Net,
        held: spec_fn(int) -> nat,
        added: spec_fn(Reading) -> bool,
    ) -> bool {
        &&& forall|reading: Reading| #[trigger] self.leads_to(after, held, added, reading)
        &&& forall|later: Reading| #[trigger] self.leads_from(after, held, added, later)
    }

    /// Whether `after` can be read like `self`, if `reading` is one of `self` for which
    /// `added` holds.
    pub open spec fn leads_to(
        self,
        after: Net,
        held: spec_fn(int) -> nat,
        added: spec_fn(Reading) -> bool,
        reading: Reading,
    ) -> bool {
        self.means(reading) && added(reading) ==> exists|later: Reading| #[trigger]
            later.meets(reading, held) && after.means(later)
    }

    /// Whether `self` can be read like `after`, such that `added` holds, if `later` is a
    /// reading of `after`.
    pub open spec fn leads_from(
        self,
        after: Net,
        held: spec_fn(int) -> nat,
        added: spec_fn(Reading) -> bool,
        later: Reading,
    ) -> bool {
        after.means(later) ==> exists|reading: Reading| #[trigger]
            reading.meets(later, held) && self.means(reading) && added(reading)
    }

    /// The net after ports were linked in order.
    pub open spec fn linked_all(self, links: Seq<(Port, Port)>) -> Net
        decreases links.len(),
    {
        if links.len() == 0 {
            self
        } else {
            self.linked_all(links.drop_last()).linked(links.last().0, links.last().1)
        }
    }

    /// Whether there are ends enough of the wire in `cell` for `links`, and for those that
    /// are held besides.
    pub open spec fn affords(
        self,
        cell: int,
        held: spec_fn(int) -> nat,
        links: Seq<(Port, Port)>,
    ) -> bool {
        self.fits(cell, held(cell) + Net::pairs_ends(links, cell))
    }

    /// Whether there are ends enough of the wire in `cell` for two ports, and for those that
    /// are held besides.
    pub open spec fn spares(self, cell: int, held: spec_fn(int) -> nat, a: Port, b: Port) -> bool {
        self.fits(cell, held(cell) + a.ends(cell) + b.ends(cell))
    }

    // ---- which wires are in use ----

    /// A wire of which somebody holds an end is in use.
    pub(crate) proof fn lemma_held_used(self, cell: int, held: nat)
        requires
            self.fits(cell, held),
            held > 0,
        ensures
            self.uses(cell),
    {
        assert forall|i: int| 0 <= i < self.free.len() implies #[trigger] self.free[i] != cell by {
            if self.free[i] == cell {
                self.lemma_free_fits(i, held);
            }
        }
    }

    pub(crate) proof fn lemma_slot_ends_bound(slots: Slots, i: int, cell: int)
        requires
            0 <= i < slots.len(),
        ensures
            Net::slot_ends(slots[i], cell) <= Net::slots_ends(slots, cell),
        decreases slots.len(),
    {
        if i < slots.len() - 1 {
            Net::lemma_slot_ends_bound(slots.drop_last(), i, cell);
        }
    }

    pub(crate) proof fn lemma_pair_ends_bound(pairs: Seq<(Port, Port)>, i: int, cell: int)
        requires
            0 <= i < pairs.len(),
        ensures
            pairs[i].0.ends(cell) + pairs[i].1.ends(cell) <= Net::pairs_ends(pairs, cell),
        decreases pairs.len(),
    {
        if i < pairs.len() - 1 {
            Net::lemma_pair_ends_bound(pairs.drop_last(), i, cell);
        }
    }

    /// Two readings that agree where a port has its ends give it the same value.
    pub(crate) proof fn lemma_port_alike(port: Port, reading: Reading, other: Reading)
        requires
            reading.like(other),
            forall|cell: int| #[trigger]
                port.ends(cell) > 0 ==> (reading.wire)(cell) == (other.wire)(cell),
        ensures
            reading.port(port) == other.port(port),
    {
        match port {
            Port::Wire(wire) => {
                assert(port.ends(wire.cell as int) > 0);
            },
            Port::Node(node) => {
                assert(port.ends(node.left.cell as int) > 0);
                assert(port.ends(node.right.cell as int) > 0);
            },
            _ => {},
        }
    }

    /// A port that is held besides the net has the same value in readings that agree.
    pub(crate) proof fn lemma_held_alike(
        self,
        port: Port,
        reading: Reading,
        other: Reading,
        held: spec_fn(int) -> nat,
    )
        requires
            self.affine(held),
            reading.agrees(other, self),
            forall|cell: int| #[trigger] port.ends(cell) <= held(cell),
        ensures
            reading.port(port) == other.port(port),
    {
        assert forall|cell: int| #[trigger] port.ends(cell) > 0 implies (reading.wire)(cell)
            == (other.wire)(cell) by {
            assert(self.fits(cell, held(cell)));
            self.lemma_held_used(cell, held(cell));
        }
        Net::lemma_port_alike(port, reading, other);
    }

    /// What a net means depends on the wires that are in use only.
    pub(crate) proof fn lemma_means_alike(
        self,
        reading: Reading,
        other: Reading,
        held: spec_fn(int) -> nat,
    )
        requires
            self.affine(held),
            reading.agrees(other, self),
            self.means(other),
        ensures
            self.means(reading),
    {
        assert forall|i: int| 0 <= i < self.cells.len() implies (
        #[trigger] self.cells[i] matches Some(port) ==> reading.port(port) == (reading.wire)(
            i,
        )) by {
            if let Some(port) = self.cells[i] {
                assert forall|cell: int| #[trigger] port.ends(cell) > 0 implies (reading.wire)(cell)
                    == (other.wire)(cell) by {
                    Net::lemma_slot_ends_bound(self.cells, i, cell);
                    assert(self.fits(cell, held(cell)));
                    self.lemma_claimed_used(cell, held(cell));
                }
                Net::lemma_port_alike(port, reading, other);
                assert(self.holds(i));
                assert(self.fits(i, held(i)));
                self.lemma_claimed_used(i, held(i));
            }
        }
        self.lemma_joins_alike(self.fast, reading, other, held);
        self.lemma_joins_alike(self.slow, reading, other, held);
    }

    /// A wire that occurs in a net is in use.
    pub(crate) proof fn lemma_claimed_used(self, cell: int, held: nat)
        requires
            self.fits(cell, held),
            self.claims(cell) > 2 * Net::free_count(self.free, cell),
        ensures
            self.uses(cell),
    {
        assert forall|i: int| 0 <= i < self.free.len() implies #[trigger] self.free[i] != cell by {
            if self.free[i] == cell {
                self.lemma_free_fits(i, held);
                Net::lemma_free_count(self.free, i);
            }
        }
    }

    pub(crate) proof fn lemma_joins_alike(
        self,
        pairs: Seq<(Port, Port)>,
        reading: Reading,
        other: Reading,
        held: spec_fn(int) -> nat,
    )
        requires
            self.affine(held),
            reading.agrees(other, self),
            pairs == self.fast || pairs == self.slow,
            other.joins(pairs),
        ensures
            reading.joins(pairs),
    {
        assert forall|i: int| 0 <= i < pairs.len() implies reading.port((#[trigger] pairs[i]).0)
            == reading.port(pairs[i].1) by {
            assert forall|cell: int|
                pairs[i].0.ends(cell) > 0 || pairs[i].1.ends(cell) > 0 implies (#[trigger] (
            reading.wire)(cell)) == (other.wire)(cell) by {
                Net::lemma_pair_ends_bound(pairs, i, cell);
                assert(self.fits(cell, held(cell)));
                self.lemma_claimed_used(cell, held(cell));
            }
            Net::lemma_port_alike(pairs[i].0, reading, other);
            Net::lemma_port_alike(pairs[i].1, reading, other);
        }
    }

    // ---- linking ----

    /// Linking puts freed cells behind those that are free already.
    pub(crate) proof fn lemma_linked_free(self, a: Port, b: Port)
        ensures
            crate::runtime::frame::begins(self.linked(a, b).free, self.free),
            self.linked(a, b).cells.len() == self.cells.len(),
        decreases Net::occupied(self.cells),
    {
        match (a, b) {
            (Port::Wire(wire), port) => {
                if let Some(other) = self.content(wire) {
                    Net::lemma_occupied_update(self.cells, wire.cell as int, None);
                    self.freed(wire).lemma_linked_free(other, port);
                }
            },
            (port, Port::Wire(wire)) => {
                if let Some(other) = self.content(wire) {
                    Net::lemma_occupied_update(self.cells, wire.cell as int, None);
                    self.freed(wire).lemma_linked_free(other, port);
                }
            },
            _ => {},
        }
    }

    /// A net that two ports are linked in means no more than the net, and that the two are
    /// the same.
    pub(crate) proof fn lemma_means_linked(self, a: Port, b: Port, reading: Reading)
        requires
            self.means(reading),
            reading.port(a) == reading.port(b),
        ensures
            self.linked(a, b).means(reading),
        decreases Net::occupied(self.cells),
    {
        match (a, b) {
            (Port::Wire(wire), port) => {
                if let Some(other) = self.content(wire) {
                    Net::lemma_occupied_update(self.cells, wire.cell as int, None);
                    assert(self.cells[wire.cell as int] == Some(other));
                    self.freed(wire).lemma_means_linked(other, port, reading);
                }
            },
            (port, Port::Wire(wire)) => {
                if let Some(other) = self.content(wire) {
                    Net::lemma_occupied_update(self.cells, wire.cell as int, None);
                    assert(self.cells[wire.cell as int] == Some(other));
                    self.freed(wire).lemma_means_linked(other, port, reading);
                }
            },
            _ => {
                assert(reading.joins(self.fast.push((a, b))));
                assert(reading.joins(self.slow.push((a, b))));
            },
        }
    }

    /// A net that two ports are linked in means no less than the net, and that the two are
    /// the same.
    pub(crate) proof fn lemma_linked_means(
        self,
        a: Port,
        b: Port,
        held: spec_fn(int) -> nat,
        later: Reading,
    ) -> (reading: Reading)
        requires
            forall|cell: int| #[trigger] self.spares(cell, held, a, b),
            self.linked(a, b).means(later),
        ensures
            self.means(reading),
            reading.port(a) == reading.port(b),
            reading.agrees(later, self.linked(a, b)),
        decreases Net::occupied(self.cells), 1nat,
    {
        match (a, b) {
            (Port::Wire(wire), port) => {
                assert forall|cell: int| #[trigger]
                    self.spares(cell, held, Port::Wire(wire), port) by {
                    assert(self.spares(cell, held, a, b));
                }
                self.lemma_wire_linked_means(wire, port, held, later)
            },
            (port, Port::Wire(wire)) => {
                assert forall|cell: int| #[trigger]
                    self.spares(cell, held, Port::Wire(wire), port) by {
                    assert(self.spares(cell, held, a, b));
                }
                self.lemma_wire_linked_means(wire, port, held, later)
            },
            _ => {
                let after = self.linked(a, b);
                assert forall|i: int| 0 <= i < self.fast.len() implies later.port(
                    (#[trigger] self.fast[i]).0,
                ) == later.port(self.fast[i].1) by {
                    assert(after.fast[i] == self.fast[i]);
                }
                assert forall|i: int| 0 <= i < self.slow.len() implies later.port(
                    (#[trigger] self.slow[i]).0,
                ) == later.port(self.slow[i].1) by {
                    assert(after.slow[i] == self.slow[i]);
                }
                if Net::is_fast(a, b) {
                    assert(after.fast[self.fast.len() as int] == (a, b));
                } else {
                    assert(after.slow[self.slow.len() as int] == (a, b));
                }
                later
            },
        }
    }

    pub(crate) proof fn lemma_wire_linked_means(
        self,
        wire: Wire,
        port: Port,
        held: spec_fn(int) -> nat,
        later: Reading,
    ) -> (reading: Reading)
        requires
            forall|cell: int| #[trigger] self.spares(cell, held, Port::Wire(wire), port),
            (match self.content(wire) {
                None => self.stored(wire, port),
                Some(other) => self.freed(wire).linked(other, port),
            }).means(later),
        ensures
            self.means(reading),
            reading.at(wire) == reading.port(port),
            reading.agrees(
                later,
                match self.content(wire) {
                    None => self.stored(wire, port),
                    Some(other) => self.freed(wire).linked(other, port),
                },
            ),
        decreases Net::occupied(self.cells), 0nat,
    {
        let c = wire.cell as int;
        assert(self.spares(c, held, Port::Wire(wire), port));
        match self.content(wire) {
            None => {
                let after = self.stored(wire, port);
                assert(after.cells[c] == Some(port));
                assert forall|i: int| 0 <= i < self.cells.len() implies (
                #[trigger] self.cells[i] matches Some(p) ==> later.port(p) == (later.wire)(i)) by {
                    if i != c {
                        assert(after.cells[i] == self.cells[i]);
                    }
                }
                later
            },
            Some(other) => {
                let freed = self.freed(wire);
                Net::lemma_occupied_update(self.cells, c, None);
                assert forall|cell: int| #[trigger] freed.spares(cell, held, other, port) by {
                    assert(self.spares(cell, held, Port::Wire(wire), port));
                    self.lemma_freed_fits(wire, cell, held(cell) + port.ends(cell));
                }
                let mid = freed.lemma_linked_means(other, port, held, later);
                let reading = mid.with_wire(c, mid.port(port));
                assert(self.holds(c));
                assert(Net::slots_ends(self.cells, c) == 0 && port.ends(c) == 0);
                assert(Net::pairs_ends(self.fast, c) == 0 && Net::pairs_ends(self.slow, c) == 0);
                Net::lemma_with_wire_alike(port, mid, c, mid.port(port));
                assert forall|i: int| 0 <= i < self.cells.len() implies (
                #[trigger] self.cells[i] matches Some(p) ==> reading.port(p) == (reading.wire)(
                    i,
                )) by {
                    if let Some(p) = self.cells[i] {
                        Net::lemma_slot_ends_bound(self.cells, i, c);
                        Net::lemma_with_wire_alike(p, mid, c, mid.port(port));
                        if i != c {
                            assert(freed.cells[i] == Some(p));
                        }
                    }
                }
                Net::lemma_with_wire_joins(self.fast, mid, c, mid.port(port));
                Net::lemma_with_wire_joins(self.slow, mid, c, mid.port(port));
                let after = freed.linked(other, port);
                freed.lemma_linked_free(other, port);
                assert(freed.free[self.free.len() as int] == wire.cell);
                assert(after.free[self.free.len() as int] == wire.cell);
                assert(!after.uses(c));
                reading
            },
        }
    }

    pub(crate) proof fn lemma_with_wire_alike(port: Port, reading: Reading, cell: int, value: int)
        requires
            port.ends(cell) == 0,
        ensures
            reading.with_wire(cell, value).port(port) == reading.port(port),
    {
        Net::lemma_port_alike(port, reading.with_wire(cell, value), reading);
    }

    pub(crate) proof fn lemma_with_wire_joins(
        pairs: Seq<(Port, Port)>,
        reading: Reading,
        cell: int,
        value: int,
    )
        requires
            Net::pairs_ends(pairs, cell) == 0,
            reading.joins(pairs),
        ensures
            reading.with_wire(cell, value).joins(pairs),
    {
        let other = reading.with_wire(cell, value);
        assert forall|i: int| 0 <= i < pairs.len() implies other.port((#[trigger] pairs[i]).0)
            == other.port(pairs[i].1) by {
            Net::lemma_pair_ends_bound(pairs, i, cell);
            Net::lemma_with_wire_alike(pairs[i].0, reading, cell, value);
            Net::lemma_with_wire_alike(pairs[i].1, reading, cell, value);
        }
    }

    /// One link more.
    pub(crate) proof fn lemma_linked_push(self, links: Seq<(Port, Port)>, a: Port, b: Port)
        ensures
            self.linked_all(links.push((a, b))) == self.linked_all(links).linked(a, b),
            forall|cell: int| #[trigger]
                Net::pairs_ends(links.push((a, b)), cell) == Net::pairs_ends(links, cell) + a.ends(
                    cell,
                ) + b.ends(cell),
    {
        assert(links.push((a, b)).drop_last() =~= links);
    }

    pub(crate) proof fn lemma_linked_all_affine(
        self,
        links: Seq<(Port, Port)>,
        held: spec_fn(int) -> nat,
    )
        requires
            forall|cell: int| #[trigger] self.affords(cell, held, links),
        ensures
            self.linked_all(links).affine(held),
            self.linked_all(links).cells.len() == self.cells.len(),
            crate::runtime::frame::begins(self.linked_all(links).free, self.free),
        decreases links.len(),
    {
        if links.len() == 0 {
            assert forall|cell: int| #[trigger] self.fits(cell, held(cell)) by {
                assert(self.affords(cell, held, links));
            }
        } else {
            let rest = links.drop_last();
            let (a, b) = links.last();
            let more = |cell: int| held(cell) + a.ends(cell) + b.ends(cell);
            assert forall|cell: int| #[trigger] self.affords(cell, more, rest) by {
                assert(self.affords(cell, held, links));
            }
            self.lemma_linked_all_affine(rest, more);
            let net = self.linked_all(rest);
            net.lemma_linked_free(a, b);
            assert forall|cell: int| #[trigger] self.linked_all(links).fits(cell, held(cell)) by {
                assert(net.fits(cell, more(cell)));
                net.lemma_linked_fits(a, b, cell, held(cell));
            }
        }
    }

    /// A net in which ports are linked means no more than the net and the links.
    pub(crate) proof fn lemma_means_linked_all(self, links: Seq<(Port, Port)>, reading: Reading)
        requires
            self.means(reading),
            reading.joins(links),
        ensures
            self.linked_all(links).means(reading),
        decreases links.len(),
    {
        if links.len() > 0 {
            let rest = links.drop_last();
            assert forall|i: int| 0 <= i < rest.len() implies reading.port((#[trigger] rest[i]).0)
                == reading.port(rest[i].1) by {
                assert(rest[i] == links[i]);
            }
            self.lemma_means_linked_all(rest, reading);
            assert(links[links.len() - 1] == links.last());
            self.linked_all(rest).lemma_means_linked(links.last().0, links.last().1, reading);
        }
    }

    /// A net in which ports are linked means no less than the net and the links.
    pub(crate) proof fn lemma_linked_all_means(
        self,
        links: Seq<(Port, Port)>,
        held: spec_fn(int) -> nat,
        later: Reading,
    ) -> (reading: Reading)
        requires
            forall|cell: int| #[trigger] self.affords(cell, held, links),
            self.linked_all(links).means(later),
        ensures
            self.means(reading),
            reading.joins(links),
            reading.agrees(later, self.linked_all(links)),
        decreases links.len(),
    {
        if links.len() == 0 {
            later
        } else {
            let rest = links.drop_last();
            let (a, b) = links.last();
            let more = |cell: int| held(cell) + a.ends(cell) + b.ends(cell);
            assert forall|cell: int| #[trigger] self.affords(cell, more, rest) by {
                assert(self.affords(cell, held, links));
            }
            self.lemma_linked_all_affine(rest, more);
            let net = self.linked_all(rest);
            assert forall|cell: int| #[trigger] net.spares(cell, held, a, b) by {
                assert(net.fits(cell, more(cell)));
            }
            let mid = net.lemma_linked_means(a, b, held, later);
            let reading = self.lemma_linked_all_means(rest, more, mid);
            net.lemma_held_alike(a, reading, mid, more);
            net.lemma_held_alike(b, reading, mid, more);
            assert forall|i: int| 0 <= i < links.len() implies reading.port(
                (#[trigger] links[i]).0,
            ) == reading.port(links[i].1) by {
                if i < rest.len() {
                    assert(links[i] == rest[i]);
                }
            }
            net.lemma_linked_free(a, b);
            let after = self.linked_all(links);
            assert forall|cell: int| #[trigger] after.uses(cell) implies (reading.wire)(cell) == (
            later.wire)(cell) by {
                assert forall|i: int| 0 <= i < net.free.len() implies #[trigger] net.free[i]
                    != cell by {
                    assert(after.free[i] == net.free[i]);
                }
                assert(net.uses(cell));
            }
            reading
        }
    }

    // ---- allocating ----

    /// A new wire was not in use before, and changes nothing of what a net means.
    pub(crate) proof fn lemma_allocated_means(self, held: spec_fn(int) -> nat)
        requires
            self.affine(held),
            self.allocated().cells.len() <= usize::MAX,
        ensures
            forall|reading: Reading| #[trigger]
                self.allocated().means(reading) <==> self.means(reading),
            !self.uses(self.next_wire().cell as int),
            self.allocated().uses(self.next_wire().cell as int),
            forall|cell: int| #[trigger] self.uses(cell) ==> self.allocated().uses(cell),
            forall|cell: int| #[trigger]
                self.allocated().uses(cell) && cell != self.next_wire().cell ==> self.uses(cell),
    {
        let after = self.allocated();
        let next = self.next_wire().cell as int;
        if self.free.len() > 0 {
            let last = self.free.len() - 1;
            assert(self.fits(next, held(next)));
            assert(self.free[last] == next);
            self.lemma_free_fits(last, held(next));
            assert(after.cells =~= self.cells);
            assert forall|cell: int| #[trigger] self.uses(cell) implies after.uses(cell) by {
                assert forall|i: int| 0 <= i < after.free.len() implies #[trigger] after.free[i]
                    != cell by {
                    assert(after.free[i] == self.free[i]);
                }
            }
            assert forall|cell: int| #[trigger] after.uses(cell) && cell != next implies self.uses(
                cell,
            ) by {
                assert forall|i: int| 0 <= i < self.free.len() implies #[trigger] self.free[i]
                    != cell by {
                    if i < last {
                        assert(after.free[i] == self.free[i]);
                    }
                }
            }
            assert forall|i: int| 0 <= i < after.free.len() implies #[trigger] after.free[i]
                != next by {
                assert(after.free[i] == self.free[i]);
            }
        } else {
            assert forall|reading: Reading| #[trigger]
                after.means(reading) <==> self.means(reading) by {
                if after.means(reading) {
                    assert forall|i: int| 0 <= i < self.cells.len() implies (
                    #[trigger] self.cells[i] matches Some(p) ==> reading.port(p) == (reading.wire)(
                        i,
                    )) by {
                        assert(after.cells[i] == self.cells[i]);
                    }
                }
            }
        }
    }

    /// The wires of a new node were not in use before, and change nothing of what a net means.
    pub(crate) proof fn lemma_with_node_means(
        self,
        kind: NodeKind,
        label: usize,
        held: spec_fn(int) -> nat,
    )
        requires
            self.affine(held),
            self.with_node().cells.len() <= usize::MAX,
        ensures
            forall|reading: Reading| #[trigger]
                self.with_node().means(reading) <==> self.means(reading),
            ({
                let node = self.next_node(kind, label);
                &&& node.left.cell != node.right.cell
                &&& !self.uses(node.left.cell as int)
                &&& !self.uses(node.right.cell as int)
                &&& self.with_node().uses(node.left.cell as int)
                &&& self.with_node().uses(node.right.cell as int)
                &&& forall|cell: int| #[trigger] self.uses(cell) ==> self.with_node().uses(cell)
                &&& self.with_node().affine(
                    |cell: int| held(cell) + 2 * Port::Node(node).ends(cell),
                )
            }),
    {
        let node = self.next_node(kind, label);
        let left = self.next_wire().cell as int;
        let mid = self.allocated();
        let more = |cell: int| held(cell) + 2 * one(left == cell);
        self.lemma_allocated_means(held);
        assert forall|cell: int| #[trigger] mid.fits(cell, more(cell)) by {
            assert(self.fits(cell, held(cell)));
            self.lemma_allocated_fits(cell, held(cell));
        }
        mid.lemma_allocated_means(more);
        let most = |cell: int| held(cell) + 2 * Port::Node(node).ends(cell);
        assert forall|cell: int| #[trigger] self.with_node().fits(cell, most(cell)) by {
            assert(self.fits(cell, held(cell)));
            self.lemma_with_node_fits(kind, label, cell, held(cell));
        }
        assert forall|reading: Reading| #[trigger]
            self.with_node().means(reading) <==> self.means(reading) by {
            assert(mid.means(reading) <==> self.means(reading));
        }
        assert forall|cell: int| #[trigger] self.uses(cell) implies self.with_node().uses(
            cell,
        ) by {
            assert(mid.uses(cell));
        }
        assert(mid.uses(left));
    }

    // ---- interacting ----

    pub(crate) proof fn lemma_agrees_meets(
        self,
        reading: Reading,
        later: Reading,
        held: spec_fn(int) -> nat,
    )
        requires
            self.affine(held),
            reading.agrees(later, self),
        ensures
            reading.meets(later, held),
    {
        assert forall|cell: int| #[trigger] held(cell) > 0 implies (reading.wire)(cell) == (
        later.wire)(cell) by {
            assert(self.fits(cell, held(cell)));
            self.lemma_held_used(cell, held(cell));
        }
    }

    /// Linking ports in a net that has the same links means what the net means, and that the
    /// ports of each link are the same.
    pub(crate) proof fn lemma_links_gain(
        self,
        base: Net,
        links: Seq<(Port, Port)>,
        held: spec_fn(int) -> nat,
    )
        requires
            base.cells == self.cells,
            base.fast == self.fast,
            base.slow == self.slow,
            forall|cell: int| #[trigger] base.affords(cell, held, links),
        ensures
            self.gains(base.linked_all(links), held, |reading: Reading| reading.joins(links)),
    {
        let after = base.linked_all(links);
        let added = |reading: Reading| reading.joins(links);
        assert forall|reading: Reading| #[trigger] self.leads_to(after, held, added, reading) by {
            if self.means(reading) && added(reading) {
                base.lemma_means_linked_all(links, reading);
                assert(reading.meets(reading, held));
            }
        }
        assert forall|later: Reading| #[trigger] self.leads_from(after, held, added, later) by {
            if after.means(later) {
                let reading = base.lemma_linked_all_means(links, held, later);
                base.lemma_linked_all_affine(links, held);
                after.lemma_agrees_meets(reading, later, held);
                assert(reading.meets(later, held) && self.means(reading) && added(reading));
            }
        }
    }

    /// What is gained can be said in other words.
    pub(crate) proof fn lemma_gains_same(
        self,
        after: Net,
        held: spec_fn(int) -> nat,
        added: spec_fn(Reading) -> bool,
        same: spec_fn(Reading) -> bool,
    )
        requires
            self.gains(after, held, added),
            forall|reading: Reading| #[trigger] added(reading) <==> same(reading),
        ensures
            self.gains(after, held, same),
    {
        assert forall|reading: Reading| #[trigger] self.leads_to(after, held, same, reading) by {
            assert(self.leads_to(after, held, added, reading));
            assert(added(reading) <==> same(reading));
        }
        assert forall|later: Reading| #[trigger] self.leads_from(after, held, same, later) by {
            assert(self.leads_from(after, held, added, later));
            if after.means(later) {
                let reading = choose|reading: Reading| #[trigger]
                    reading.meets(later, held) && self.means(reading) && added(reading);
                assert(same(reading));
            }
        }
    }

    /// The four links between new nodes, and the four to what was at the auxiliary ports.
    pub open spec fn commuting(a: Node, b: Node, a1: Node, a2: Node, b1: Node, b2: Node) -> Seq<
        (Port, Port),
    > {
        seq![
            (Port::Wire(a1.left), Port::Wire(b1.left)),
            (Port::Wire(a1.right), Port::Wire(b2.left)),
            (Port::Wire(a2.left), Port::Wire(b1.right)),
            (Port::Wire(a2.right), Port::Wire(b2.right)),
            (Port::Wire(a.left), Port::Node(b1)),
            (Port::Wire(a.right), Port::Node(b2)),
            (Port::Wire(b.left), Port::Node(a1)),
            (Port::Wire(b.right), Port::Node(a2)),
        ]
    }

    pub(crate) proof fn lemma_commuting(
        self,
        a: Node,
        b: Node,
        a1: Node,
        a2: Node,
        b1: Node,
        b2: Node,
    )
        ensures
            self.linked_all(Net::commuting(a, b, a1, a2, b1, b2)) == self.wired(
                a1.left,
                b1.left,
            ).wired(a1.right, b2.left).wired(a2.left, b1.right).wired(a2.right, b2.right).linked(
                Port::Wire(a.left),
                Port::Node(b1),
            ).linked(Port::Wire(a.right), Port::Node(b2)).linked(
                Port::Wire(b.left),
                Port::Node(a1),
            ).linked(Port::Wire(b.right), Port::Node(a2)),
            forall|cell: int| #[trigger]
                Net::pairs_ends(Net::commuting(a, b, a1, a2, b1, b2), cell) == Port::Node(a).ends(
                    cell,
                ) + Port::Node(b).ends(cell) + 2 * Port::Node(a1).ends(cell) + 2 * Port::Node(
                    a2,
                ).ends(cell) + 2 * Port::Node(b1).ends(cell) + 2 * Port::Node(b2).ends(cell),
    {
        let s0 = Seq::<(Port, Port)>::empty();
        let s1 = s0.push((Port::Wire(a1.left), Port::Wire(b1.left)));
        let s2 = s1.push((Port::Wire(a1.right), Port::Wire(b2.left)));
        let s3 = s2.push((Port::Wire(a2.left), Port::Wire(b1.right)));
        let s4 = s3.push((Port::Wire(a2.right), Port::Wire(b2.right)));
        let s5 = s4.push((Port::Wire(a.left), Port::Node(b1)));
        let s6 = s5.push((Port::Wire(a.right), Port::Node(b2)));
        let s7 = s6.push((Port::Wire(b.left), Port::Node(a1)));
        let s8 = s7.push((Port::Wire(b.right), Port::Node(a2)));
        self.lemma_linked_push(s0, Port::Wire(a1.left), Port::Wire(b1.left));
        self.lemma_linked_push(s1, Port::Wire(a1.right), Port::Wire(b2.left));
        self.lemma_linked_push(s2, Port::Wire(a2.left), Port::Wire(b1.right));
        self.lemma_linked_push(s3, Port::Wire(a2.right), Port::Wire(b2.right));
        self.lemma_linked_push(s4, Port::Wire(a.left), Port::Node(b1));
        self.lemma_linked_push(s5, Port::Wire(a.right), Port::Node(b2));
        self.lemma_linked_push(s6, Port::Wire(b.left), Port::Node(a1));
        self.lemma_linked_push(s7, Port::Wire(b.right), Port::Node(a2));
        assert(Net::commuting(a, b, a1, a2, b1, b2) =~= s8);
        assert forall|cell: int| #[trigger] Net::pairs_ends(s8, cell) == Port::Node(a).ends(cell)
            + Port::Node(b).ends(cell) + 2 * Port::Node(a1).ends(cell) + 2 * Port::Node(a2).ends(
            cell,
        ) + 2 * Port::Node(b1).ends(cell) + 2 * Port::Node(b2).ends(cell) by {
            assert(Net::pairs_ends(s1, cell) == Net::pairs_ends(s0, cell) + one(
                a1.left.cell == cell,
            ) + one(b1.left.cell == cell));
            assert(Net::pairs_ends(s2, cell) == Net::pairs_ends(s1, cell) + one(
                a1.right.cell == cell,
            ) + one(b2.left.cell == cell));
            assert(Net::pairs_ends(s3, cell) == Net::pairs_ends(s2, cell) + one(
                a2.left.cell == cell,
            ) + one(b1.right.cell == cell));
            assert(Net::pairs_ends(s4, cell) == Net::pairs_ends(s3, cell) + one(
                a2.right.cell == cell,
            ) + one(b2.right.cell == cell));
            assert(Net::pairs_ends(s5, cell) == Net::pairs_ends(s4, cell) + one(
                a.left.cell == cell,
            ) + Port::Node(b1).ends(cell));
            assert(Net::pairs_ends(s6, cell) == Net::pairs_ends(s5, cell) + one(
                a.right.cell == cell,
            ) + Port::Node(b2).ends(cell));
            assert(Net::pairs_ends(s7, cell) == Net::pairs_ends(s6, cell) + one(
                b.left.cell == cell,
            ) + Port::Node(a1).ends(cell));
        }
    }
}

impl Reading {
    /// Whether wires of a graft can be read such that all its agents are where they belong,
    /// and its free port has the value `free`.
    pub open spec fn holds_graft(self, instructions: Seq<Instruction>, free: int) -> bool {
        exists|values: spec_fn(int) -> int|
            values(0) == free && #[trigger] self.places_all(instructions, values)
    }

    /// Whether two nodes have passed through each other: what was at each auxiliary port of
    /// one of them is a copy of the other, and the copies share their auxiliary values, left
    /// with left and right with right.
    pub open spec fn crosses(self, a: Node, b: Node) -> bool {
        exists|ll: int, lr: int, rl: int, rr: int|
            {
                &&& self.at(a.left) == #[trigger] self.made(b.kind, b.label, ll, lr)
                &&& self.at(a.right) == #[trigger] self.made(b.kind, b.label, rl, rr)
                &&& self.at(b.left) == self.made(a.kind, a.label, ll, rl)
                &&& self.at(b.right) == self.made(a.kind, a.label, lr, rr)
            }
    }
}

impl Net {
    /// Two different nodes pass through each other.
    #[verifier::rlimit(40)]
    pub(crate) proof fn lemma_commuted_gains(self, a: Node, b: Node, held: spec_fn(int) -> nat)
        requires
            self.affine(
                |cell: int| held(cell) + Port::Node(a).ends(cell) + Port::Node(b).ends(cell),
            ),
            self.commuted(a, b).cells.len() <= usize::MAX,
        ensures
            self.gains(self.commuted(a, b), held, |reading: Reading| reading.crosses(a, b)),
    {
        let (pa, pb) = (Port::Node(a), Port::Node(b));
        let held0 = |cell: int| held(cell) + pa.ends(cell) + pb.ends(cell);
        let net0 = self.with_stats(self.stats.commuted());
        let a1 = net0.next_node(a.kind, a.label);
        let net1 = net0.with_node();
        let a2 = net1.next_node(a.kind, a.label);
        let net2 = net1.with_node();
        let b1 = net2.next_node(b.kind, b.label);
        let net3 = net2.with_node();
        let b2 = net3.next_node(b.kind, b.label);
        let net4 = net3.with_node();
        let links = Net::commuting(a, b, a1, a2, b1, b2);
        let after = self.commuted(a, b);
        net4.lemma_commuting(a, b, a1, a2, b1, b2);
        assert(after == net4.linked_all(links));
        net4.lemma_linked_all_len(links);
        assert(net3.cells.len() <= net4.cells.len());
        assert forall|cell: int| #[trigger] net0.fits(cell, held0(cell)) by {
            assert(self.fits(cell, held0(cell)));
        }
        let held1 = |cell: int| held0(cell) + 2 * Port::Node(a1).ends(cell);
        let held2 = |cell: int| held1(cell) + 2 * Port::Node(a2).ends(cell);
        let held3 = |cell: int| held2(cell) + 2 * Port::Node(b1).ends(cell);
        let held4 = |cell: int| held3(cell) + 2 * Port::Node(b2).ends(cell);
        net0.lemma_with_node_means(a.kind, a.label, held0);
        net1.lemma_with_node_means(a.kind, a.label, held1);
        net2.lemma_with_node_means(b.kind, b.label, held2);
        net3.lemma_with_node_means(b.kind, b.label, held3);
        assert forall|cell: int| #[trigger] net4.affords(cell, held, links) by {
            assert(net4.fits(cell, held4(cell)));
            assert(Net::pairs_ends(links, cell) == pa.ends(cell) + pb.ends(cell) + 2 * Port::Node(
                a1,
            ).ends(cell) + 2 * Port::Node(a2).ends(cell) + 2 * Port::Node(b1).ends(cell) + 2
                * Port::Node(b2).ends(cell));
        }
        let added = |reading: Reading| reading.crosses(a, b);
        assert forall|reading: Reading| #[trigger] self.leads_to(after, held, added, reading) by {
            if self.means(reading) && added(reading) {
                let (ll, lr, rl, rr) = choose|ll: int, lr: int, rl: int, rr: int|
                    {
                        &&& reading.at(a.left) == #[trigger] reading.made(b.kind, b.label, ll, lr)
                        &&& reading.at(a.right) == #[trigger] reading.made(b.kind, b.label, rl, rr)
                        &&& reading.at(b.left) == reading.made(a.kind, a.label, ll, rl)
                        &&& reading.at(b.right) == reading.made(a.kind, a.label, lr, rr)
                    };
                let later = reading.with_wire(a1.left.cell as int, ll).with_wire(
                    a1.right.cell as int,
                    rl,
                ).with_wire(a2.left.cell as int, lr).with_wire(a2.right.cell as int, rr).with_wire(
                    b1.left.cell as int,
                    ll,
                ).with_wire(b1.right.cell as int, lr).with_wire(b2.left.cell as int, rl).with_wire(
                    b2.right.cell as int,
                    rr,
                );
                assert(net1.uses(a1.left.cell as int) && net1.uses(a1.right.cell as int));
                assert(net2.uses(a1.left.cell as int) && net2.uses(a1.right.cell as int));
                assert(net3.uses(a1.left.cell as int) && net3.uses(a1.right.cell as int));
                assert(net2.uses(a2.left.cell as int) && net2.uses(a2.right.cell as int));
                assert(net3.uses(a2.left.cell as int) && net3.uses(a2.right.cell as int));
                assert(net3.uses(b1.left.cell as int) && net3.uses(b1.right.cell as int));
                assert forall|cell: int| #[trigger] self.uses(cell) implies (later.wire)(cell) == (
                reading.wire)(cell) by {
                    assert(net0.uses(cell));
                    assert(net1.uses(cell));
                    assert(net2.uses(cell));
                    assert(net3.uses(cell));
                }
                assert(later.agrees(reading, self));
                self.lemma_means_alike(later, reading, held0);
                assert(net0.means(later));
                assert(net1.means(later));
                assert(net2.means(later));
                assert(net3.means(later));
                assert(net4.means(later));
                self.lemma_held_alike(Port::Wire(a.left), later, reading, held0);
                self.lemma_held_alike(Port::Wire(a.right), later, reading, held0);
                self.lemma_held_alike(Port::Wire(b.left), later, reading, held0);
                self.lemma_held_alike(Port::Wire(b.right), later, reading, held0);
                assert(later.joins(links));
                net4.lemma_means_linked_all(links, later);
                assert forall|cell: int| #[trigger] held(cell) > 0 implies (later.wire)(cell) == (
                reading.wire)(cell) by {
                    assert(self.fits(cell, held0(cell)));
                    self.lemma_held_used(cell, held0(cell));
                }
                assert(later.meets(reading, held));
            }
        }
        assert forall|later: Reading| #[trigger] self.leads_from(after, held, added, later) by {
            if after.means(later) {
                let reading = net4.lemma_linked_all_means(links, held, later);
                assert(net3.means(reading));
                assert(net2.means(reading));
                assert(net1.means(reading));
                assert(net0.means(reading));
                assert(self.means(reading));
                assert(reading.port(links[0].0) == reading.port(links[0].1));
                assert(reading.port(links[1].0) == reading.port(links[1].1));
                assert(reading.port(links[2].0) == reading.port(links[2].1));
                assert(reading.port(links[3].0) == reading.port(links[3].1));
                assert(reading.port(links[4].0) == reading.port(links[4].1));
                assert(reading.port(links[5].0) == reading.port(links[5].1));
                assert(reading.port(links[6].0) == reading.port(links[6].1));
                assert(reading.port(links[7].0) == reading.port(links[7].1));
                let (ll, lr) = (reading.at(b1.left), reading.at(b1.right));
                let (rl, rr) = (reading.at(b2.left), reading.at(b2.right));
                assert(reading.at(a.left) == reading.made(b.kind, b.label, ll, lr));
                assert(reading.at(a.right) == reading.made(b.kind, b.label, rl, rr));
                assert(added(reading));
                net4.lemma_linked_all_affine(links, held);
                after.lemma_agrees_meets(reading, later, held);
                assert(reading.meets(later, held));
            }
        }
    }

    pub(crate) proof fn lemma_linked_all_len(self, links: Seq<(Port, Port)>)
        ensures
            self.linked_all(links).cells.len() == self.cells.len(),
        decreases links.len(),
    {
        if links.len() > 0 {
            self.lemma_linked_all_len(links.drop_last());
            self.linked_all(links.drop_last()).lemma_linked_free(links.last().0, links.last().1);
        }
    }

    // ---- a few links ----

    /// One link.
    pub(crate) proof fn lemma_link_gains(
        self,
        base: Net,
        a: Port,
        b: Port,
        held: spec_fn(int) -> nat,
    )
        requires
            base.cells == self.cells,
            base.fast == self.fast,
            base.slow == self.slow,
            forall|cell: int| #[trigger] base.spares(cell, held, a, b),
        ensures
            self.gains(
                base.linked(a, b),
                held,
                |reading: Reading| reading.port(a) == reading.port(b),
            ),
    {
        let none = Seq::<(Port, Port)>::empty();
        let links = none.push((a, b));
        base.lemma_linked_push(none, a, b);
        assert forall|cell: int| #[trigger] base.affords(cell, held, links) by {
            assert(base.spares(cell, held, a, b));
        }
        self.lemma_links_gain(base, links, held);
        assert forall|reading: Reading| #[trigger] reading.joins(links) <==> reading.port(a)
            == reading.port(b) by {
            assert(links[0] == (a, b));
        }
        self.lemma_gains_same(
            base.linked(a, b),
            held,
            |reading: Reading| reading.joins(links),
            |reading: Reading| reading.port(a) == reading.port(b),
        );
    }

    /// Two links.
    pub(crate) proof fn lemma_two_links_gain(
        self,
        base: Net,
        a: Port,
        b: Port,
        c: Port,
        d: Port,
        held: spec_fn(int) -> nat,
    )
        requires
            base.cells == self.cells,
            base.fast == self.fast,
            base.slow == self.slow,
            base.affine(
                |cell: int| held(cell) + a.ends(cell) + b.ends(cell) + c.ends(cell) + d.ends(cell),
            ),
        ensures
            self.gains(
                base.linked(a, b).linked(c, d),
                held,
                |reading: Reading|
                    reading.port(a) == reading.port(b) && reading.port(c) == reading.port(d),
            ),
    {
        let all = |cell: int|
            held(cell) + a.ends(cell) + b.ends(cell) + c.ends(cell) + d.ends(cell);
        let none = Seq::<(Port, Port)>::empty();
        let first = none.push((a, b));
        let links = first.push((c, d));
        base.lemma_linked_push(none, a, b);
        base.lemma_linked_push(first, c, d);
        assert forall|cell: int| #[trigger] base.affords(cell, held, links) by {
            assert(base.fits(cell, all(cell)));
            assert(Net::pairs_ends(first, cell) == Net::pairs_ends(none, cell) + a.ends(cell)
                + b.ends(cell));
        }
        self.lemma_links_gain(base, links, held);
        assert forall|reading: Reading| #[trigger] reading.joins(links) <==> reading.port(a)
            == reading.port(b) && reading.port(c) == reading.port(d) by {
            assert(links[0] == (a, b));
            assert(links[1] == (c, d));
        }
        self.lemma_gains_same(
            base.linked(a, b).linked(c, d),
            held,
            |reading: Reading| reading.joins(links),
            |reading: Reading|
                reading.port(a) == reading.port(b) && reading.port(c) == reading.port(d),
        );
    }

    /// A graft is invoked between two wires.
    pub(crate) proof fn lemma_invoked_gains(
        self,
        base: Net,
        graft: GraftId,
        input: Wire,
        output: Wire,
        held: spec_fn(int) -> nat,
    )
        requires
            base.cells == self.cells,
            base.free == self.free,
            base.fast == self.fast,
            base.slow == self.slow,
            self.affine(
                |cell: int|
                    held(cell) + Port::Wire(input).ends(cell) + Port::Wire(output).ends(cell),
            ),
            base.affine(
                |cell: int|
                    held(cell) + Port::Wire(input).ends(cell) + Port::Wire(output).ends(cell),
            ),
            base.invoked(graft, input, output).cells.len() <= usize::MAX,
        ensures
            self.gains(
                base.invoked(graft, input, output),
                held,
                |reading: Reading|
                    (reading.graft)(graft) == reading.made(
                        NodeKind::Comb,
                        0,
                        reading.at(input),
                        reading.at(output),
                    ),
            ),
    {
        let (pi, po) = (Port::Wire(input), Port::Wire(output));
        let all = |cell: int| held(cell) + pi.ends(cell) + po.ends(cell);
        let node = base.next_node(NodeKind::Comb, 0);
        let net = base.with_node();
        let after = base.invoked(graft, input, output);
        let (left, right) = (Port::Wire(node.left), Port::Wire(node.right));
        let none = Seq::<(Port, Port)>::empty();
        let first = none.push((left, pi));
        let second = first.push((right, po));
        let links = second.push((Port::Graft(graft), Port::Node(node)));
        net.lemma_linked_push(none, left, pi);
        net.lemma_linked_push(first, right, po);
        net.lemma_linked_push(second, Port::Graft(graft), Port::Node(node));
        assert(after == net.linked_all(links));
        net.lemma_linked_all_len(links);
        base.lemma_with_node_means(NodeKind::Comb, 0, all);
        let twice = |cell: int| all(cell) + 2 * Port::Node(node).ends(cell);
        assert(net.affine(twice));
        assert forall|cell: int| #[trigger] net.affords(cell, held, links) by {
            assert(net.fits(cell, twice(cell)));
            assert(Net::pairs_ends(first, cell) == Net::pairs_ends(none, cell) + left.ends(cell)
                + pi.ends(cell));
            assert(Net::pairs_ends(second, cell) == Net::pairs_ends(first, cell) + right.ends(cell)
                + po.ends(cell));
        }
        let added = |reading: Reading|
            (reading.graft)(graft) == reading.made(
                NodeKind::Comb,
                0,
                reading.at(input),
                reading.at(output),
            );
        assert forall|reading: Reading| #[trigger] self.leads_to(after, held, added, reading) by {
            if self.means(reading) && added(reading) {
                let later = reading.with_wire(
                    node.left.cell as int,
                    reading.at(input),
                ).with_wire(node.right.cell as int, reading.at(output));
                assert forall|cell: int| #[trigger] self.uses(cell) implies (later.wire)(cell) == (
                reading.wire)(cell) by {
                    assert(base.uses(cell));
                }
                self.lemma_means_alike(later, reading, all);
                assert(base.means(later));
                assert(net.means(later));
                self.lemma_held_alike(pi, later, reading, all);
                self.lemma_held_alike(po, later, reading, all);
                assert(later.joins(links));
                net.lemma_means_linked_all(links, later);
                assert forall|cell: int| #[trigger] held(cell) > 0 implies (later.wire)(cell) == (
                reading.wire)(cell) by {
                    assert(self.fits(cell, all(cell)));
                    self.lemma_held_used(cell, all(cell));
                }
                assert(later.meets(reading, held));
            }
        }
        assert forall|later: Reading| #[trigger] self.leads_from(after, held, added, later) by {
            if after.means(later) {
                let reading = net.lemma_linked_all_means(links, held, later);
                assert(base.means(reading));
                assert(self.means(reading));
                assert(links[0] == (left, pi));
                assert(links[1] == (right, po));
                assert(links[2] == (Port::Graft(graft), Port::Node(node)));
                assert(added(reading));
                net.lemma_linked_all_affine(links, held);
                after.lemma_agrees_meets(reading, later, held);
                assert(reading.meets(later, held));
            }
        }
    }

    // ---- following ----

    /// What is at the end of wires is the same as what they start at.
    pub(crate) proof fn lemma_followed_means(self, port: Port, reading: Reading)
        requires
            self.means(reading),
        ensures
            self.followed(port).0.means(reading),
            reading.port(self.followed(port).1) == reading.port(port),
            self.followed(port).1 matches Port::Wire(wire) ==> self.followed(port).0.content(wire)
                is None,
        decreases Net::occupied(self.cells),
    {
        if let Port::Wire(wire) = port {
            if let Some(other) = self.content(wire) {
                Net::lemma_occupied_update(self.cells, wire.cell as int, None);
                assert(self.cells[wire.cell as int] == Some(other));
                self.freed(wire).lemma_followed_means(other, reading);
            }
        }
    }
}

} // verus!
