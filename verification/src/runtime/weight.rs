//! Fast interactions come to an end.
use vstd::prelude::*;

use crate::runtime::ext::ExtVal;
use crate::runtime::net::{Net, Slots};
use crate::runtime::port::{Node, NodeKind, Port};
use crate::runtime::wire::Wire;

verus! {

impl Net {
    /// The weight of all ports in `slots`.
    pub open spec fn slots_weight(slots: Slots) -> nat
        decreases slots.len(),
    {
        if slots.len() == 0 {
            0
        } else {
            Net::slots_weight(slots.drop_last()) + Net::slot_weight(slots.last())
        }
    }

    /// The weight of what a slot holds.
    pub open spec fn slot_weight(slot: Option<Port>) -> nat {
        match slot {
            None => 0,
            Some(port) => port.weight(),
        }
    }

    /// The weight of all ports in `pairs`.
    pub open spec fn pairs_weight(pairs: Seq<(Port, Port)>) -> nat
        decreases pairs.len(),
    {
        if pairs.len() == 0 {
            0
        } else {
            Net::pairs_weight(pairs.drop_last()) + pairs.last().0.weight()
                + pairs.last().1.weight()
        }
    }

    /// The weight of all ports in the net. Each fast interaction lowers it.
    pub open spec fn weight(self) -> nat {
        Net::slots_weight(self.cells) + Net::pairs_weight(self.fast) + Net::pairs_weight(self.slow)
    }

    proof fn lemma_slots_weight_update(slots: Slots, i: int, slot: Option<Port>)
        requires
            0 <= i < slots.len(),
        ensures
            Net::slots_weight(slots.update(i, slot)) == Net::slots_weight(slots)
                + Net::slot_weight(slot) - Net::slot_weight(slots[i]),
        decreases slots.len(),
    {
        if i == slots.len() - 1 {
            assert(slots.update(i, slot).drop_last() =~= slots.drop_last());
        } else {
            assert(slots.update(i, slot).drop_last() =~= slots.drop_last().update(i, slot));
            Net::lemma_slots_weight_update(slots.drop_last(), i, slot);
        }
    }

    proof fn lemma_slots_weight_bound(slots: Slots)
        ensures
            Net::slots_weight(slots) <= 3 * slots.len(),
        decreases slots.len(),
    {
        if slots.len() > 0 {
            Net::lemma_slots_weight_bound(slots.drop_last());
        }
    }

    proof fn lemma_pairs_weight_bound(pairs: Seq<(Port, Port)>)
        ensures
            Net::pairs_weight(pairs) <= 6 * pairs.len(),
        decreases pairs.len(),
    {
        if pairs.len() > 0 {
            Net::lemma_pairs_weight_bound(pairs.drop_last());
        }
    }

    pub proof fn lemma_weight_bound(self)
        ensures
            self.weight() <= 3 * self.cells.len() + 6 * self.fast.len() + 6 * self.slow.len(),
    {
        Net::lemma_slots_weight_bound(self.cells);
        Net::lemma_pairs_weight_bound(self.fast);
        Net::lemma_pairs_weight_bound(self.slow);
    }

    /// Linking two ports moves them into the net, and loses nothing.
    pub proof fn lemma_linked_weight(self, a: Port, b: Port)
        requires
            self.wf(),
            self.has_port(a),
            self.has_port(b),
        ensures
            self.linked(a, b).weight() == self.weight() + a.weight() + b.weight(),
        decreases Net::occupied(self.cells),
    {
        match (a, b) {
            (Port::Wire(wire), port) => {
                Net::lemma_slots_weight_update(self.cells, wire.cell as int, None);
                Net::lemma_slots_weight_update(self.cells, wire.cell as int, Some(port));
                if let Some(other) = self.content(wire) {
                    Net::lemma_occupied_update(self.cells, wire.cell as int, None);
                    assert(self.cells[wire.cell as int] == Some(other));
                    self.lemma_freed_wf(wire);
                    self.freed(wire).lemma_linked_weight(other, port);
                }
            },
            (port, Port::Wire(wire)) => {
                Net::lemma_slots_weight_update(self.cells, wire.cell as int, None);
                Net::lemma_slots_weight_update(self.cells, wire.cell as int, Some(port));
                if let Some(other) = self.content(wire) {
                    Net::lemma_occupied_update(self.cells, wire.cell as int, None);
                    assert(self.cells[wire.cell as int] == Some(other));
                    self.lemma_freed_wf(wire);
                    self.freed(wire).lemma_linked_weight(other, port);
                }
            },
            _ => {
                assert(self.fast.push((a, b)).drop_last() =~= self.fast);
                assert(self.slow.push((a, b)).drop_last() =~= self.slow);
            },
        }
    }

    proof fn lemma_linked_twice(self, a: Port, b: Port, c: Port, d: Port)
        requires
            self.wf(),
            self.has_port(a),
            self.has_port(b),
            self.has_port(c),
            self.has_port(d),
        ensures
            self.linked(a, b).linked(c, d).weight() == self.weight() + a.weight() + b.weight()
                + c.weight() + d.weight(),
            self.linked(a, b).linked(c, d).wf(),
            self.linked(a, b).linked(c, d).follows(self),
    {
        self.lemma_linked_weight(a, b);
        self.lemma_linked_wf(a, b);
        self.linked(a, b).lemma_linked_weight(c, d);
        self.linked(a, b).lemma_linked_wf(c, d);
    }

    /// An interaction of a fast pair leaves less weight than the pair had.
    pub proof fn lemma_fast_weight(self, a: Port, b: Port)
        requires
            self.wf(),
            self.has_pair(a, b),
            Net::is_fast(a, b),
        ensures
            self.interacted(a, b).weight() < self.weight() + a.weight() + b.weight(),
    {
        match (a, b) {
            (Port::Node(a), Port::Node(b)) => {
                self.with_stats(self.stats.annihilated()).lemma_linked_twice(
                    Port::Wire(a.left),
                    Port::Wire(b.left),
                    Port::Wire(a.right),
                    Port::Wire(b.right),
                );
            },
            (port, Port::Node(node)) => self.lemma_applied_weight(port, node),
            (Port::Node(node), port) => self.lemma_applied_weight(port, node),
            _ => {},
        }
    }

    proof fn lemma_applied_weight(self, port: Port, node: Node)
        requires
            self.wf(),
            self.has_port(port),
            self.has_node(node),
            port is Erase || port is ExtVal,
            port is ExtVal ==> node.kind == NodeKind::Comb,
        ensures
            self.applied(port, node).weight() <= self.weight() + 2,
    {
        let left = Port::Wire(node.left);
        let right = Port::Wire(node.right);
        match port {
            Port::ExtVal(value) => {
                let net = self.with_stats(self.stats.copied());
                let flags = crate::runtime::flags::Flags { ext_copy: true, ..net.flags };
                net.lemma_linked_twice(left, port, right, port);
                net.with_flags(flags).lemma_linked_twice(left, port, right, Port::Erase);
            },
            _ => {
                self.with_stats(self.stats.erased()).lemma_linked_twice(
                    left,
                    Port::Erase,
                    right,
                    Port::Erase,
                );
            },
        }
    }

    /// Reducing a fast pair lowers the weight of the net.
    pub proof fn lemma_fast_step_weight(self)
        requires
            self.wf(),
            self.fast.len() > 0,
        ensures
            self.step().weight() < self.weight(),
    {
        let (a, b) = self.fast.last();
        assert(self.has_pair(a, b) && Net::is_fast(a, b));
        self.popped().lemma_fast_weight(a, b);
    }
}

} // verus!
