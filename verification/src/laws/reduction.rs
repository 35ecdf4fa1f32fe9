//! What linking and reducing do to what a net means.
use vstd::prelude::*;

use crate::host::dynamic::DynamicProgramRequest;
use crate::host::module::GraftHandle;
use crate::runtime::ext::{ExtCall, ExtFnKind, ExtVal, Payload};
use crate::runtime::flags::Flags;
use crate::runtime::graft::GraftId;
use crate::runtime::linear::one;
use crate::runtime::meaning::Reading;
use crate::runtime::net::Net;
use crate::runtime::port::{Node, NodeKind, Port};
use crate::runtime::stats::Stats;

verus! {

/// Whether `a` and `b` are `x` and `y`, one way round or the other.
pub open spec fn facing(a: Port, b: Port, x: Port, y: Port) -> bool {
    a == x && b == y || a == y && b == x
}

/// Whether no wire has more than its two ends, where `held` ends are held outside, and those
/// of `a` and `b` besides.
pub open spec fn apart(net: Net, held: spec_fn(int) -> nat, a: Port, b: Port) -> bool {
    net.affine(|cell: int| held(cell) + a.ends(cell) + b.ends(cell))
}

proof fn apart_spares(net: Net, held: spec_fn(int) -> nat, a: Port, b: Port)
    requires
        apart(net, held, a, b),
    ensures
        forall|cell: int| #[trigger] net.spares(cell, held, a, b),
{
    let all = |cell: int| held(cell) + a.ends(cell) + b.ends(cell);
    assert forall|cell: int| #[trigger] net.spares(cell, held, a, b) by {
        assert(net.fits(cell, all(cell)));
    }
}

// ---- linking ----

/// Linking two ports says that they are the same, and nothing else. Only wires are freed and
/// active pairs queued by it, and one link is added.
pub proof fn linking_says_that_ports_are_the_same(
    net: Net,
    a: Port,
    b: Port,
    held: spec_fn(int) -> nat,
)
    requires
        apart(net, held, a, b),
    ensures
        net.gains(
            net.linked(a, b),
            held,
            |reading: Reading| reading.port(a) == reading.port(b),
        ),
        net.linked(a, b).books(net),
        net.linked(a, b).stats.mem_alloc == net.stats.mem_alloc,
        net.linked(a, b).links() == net.links() + 1,
{
    apart_spares(net, held, a, b);
    net.lemma_linked_links(a, b, held);
    net.lemma_link_gains(net, a, b, held);
    net.lemma_linked_books(a, b);
}

/// Two agents that are linked become the newest active pair of one of the queues: of the slow
/// one if their interaction takes new wires, which it does if a graft is instantiated, nodes
/// commute, or a function is called.
pub proof fn agents_that_are_linked_become_active(net: Net, a: Port, b: Port)
    requires
        !(a is Wire),
        !(b is Wire),
    ensures
        ({
            let instantiates = a is Graft && !(b is Erase) || b is Graft && !(a is Erase);
            let annihilates = a is Node && b is Node && a->Node_0.kind == NodeKind::Comb
                && b->Node_0.kind == NodeKind::Comb && a->Node_0.label == b->Node_0.label;
            let commutes = a is Node && b is Node && !annihilates;
            let calls = a is ExtVal && b is Node && b->Node_0.kind == NodeKind::ExtFn || b is ExtVal
                && a is Node && a->Node_0.kind == NodeKind::ExtFn;
            if instantiates || commutes || calls {
                net.linked(a, b) == Net { slow: net.slow.push((a, b)), ..net }
            } else {
                net.linked(a, b) == Net { fast: net.fast.push((a, b)), ..net }
            }
        }),
{
}

/// An agent that is linked to a wire of which the other end is not linked waits there.
pub proof fn unlinked_wires_keep_what_they_get(net: Net, wire: int, port: Port)
    requires
        0 <= wire < net.cells.len() <= usize::MAX,
        net.cells[wire] is None,
        !(port is Wire),
    ensures
        ({
            let end = Port::Wire(crate::runtime::wire::Wire { cell: wire as usize });
            let after = Net { cells: net.cells.update(wire, Some(port)), ..net };
            net.linked(end, port) == after && net.linked(port, end) == after
        }),
{
}

/// A wire is gone once both its ends are linked: the two agents become an active pair, and the
/// cell can be used again.
pub proof fn wires_go_when_both_ends_are_linked(net: Net, wire: int, first: Port, second: Port)
    requires
        0 <= wire < net.cells.len() <= usize::MAX,
        net.cells[wire] == Some(first),
        !(first is Wire),
        !(second is Wire),
    ensures
        ({
            let end = Port::Wire(crate::runtime::wire::Wire { cell: wire as usize });
            let gone = Net {
                cells: net.cells.update(wire, None),
                free: net.free.push(wire as usize),
                stats: Stats { mem_free: net.stats.mem_free.wrapping_add(1), ..net.stats },
                ..net
            };
            &&& net.linked(end, second) == gone.linked(first, second)
            &&& net.linked(second, end) == gone.linked(first, second)
            &&& net.followed(end) == (gone, first)
        }),
{
    let end = Port::Wire(crate::runtime::wire::Wire { cell: wire as usize });
    let gone = net.freed(crate::runtime::wire::Wire { cell: wire as usize });
    assert(net.followed(end) == gone.followed(first));
    assert(gone.followed(first) == (gone, first));
}

/// New wires take the cells that are free before new ones are made.
pub proof fn free_cells_are_used_again(net: Net)
    ensures
        net.with_node().free.len() == (if net.free.len() >= 2 {
            net.free.len() - 2
        } else {
            0
        }),
        net.with_node().cells.len() == net.cells.len() + (if net.free.len() >= 2 {
            0int
        } else {
            2 - net.free.len()
        }),
        forall|i: int|
            0 <= i < net.with_node().free.len() ==> #[trigger] net.with_node().free[i]
                == net.free[i],
{
}

/// Following wires comes to what is the same as their start, be it an agent, or a wire at
/// whose other end nothing is linked yet. What it leaves means what was there before.
pub proof fn following_finds_the_same(net: Net, port: Port, reading: Reading)
    requires
        net.means(reading),
    ensures
        reading.port(net.followed(port).1) == reading.port(port),
        net.followed(port).0.means(reading),
        net.followed(port).1 matches Port::Wire(wire) ==> net.followed(port).0.content(wire)
            is None,
        !(port is Wire) ==> net.followed(port) == (net, port),
{
    net.lemma_followed_means(port, reading);
}

/// A new node is of the kind and with the label that were asked for. Its two wires are two,
/// nothing used them before, and nothing is linked to them; what the net means stays.
pub proof fn new_nodes_are_what_was_asked_for(
    net: Net,
    kind: NodeKind,
    label: usize,
    held: spec_fn(int) -> nat,
)
    requires
        net.affine(held),
        net.with_node().cells.len() <= usize::MAX,
    ensures
        net.next_node(kind, label).kind == kind,
        net.next_node(kind, label).label == label,
        net.next_node(kind, label).left.cell != net.next_node(kind, label).right.cell,
        !net.uses(net.next_node(kind, label).left.cell as int),
        !net.uses(net.next_node(kind, label).right.cell as int),
        net.with_node().cells[net.next_node(kind, label).left.cell as int] is None,
        net.with_node().cells[net.next_node(kind, label).right.cell as int] is None,
        net.with_node().books(net),
        net.with_node().stats.mem_alloc == net.stats.mem_alloc.wrapping_add(1).wrapping_add(1),
        net.with_node().stats.mem_free == net.stats.mem_free,
        forall|reading: Reading| #[trigger] net.with_node().means(reading) <==> net.means(reading),
{
    net.lemma_with_node_means(kind, label, held);
}

// ---- interactions ----

/// Two combinators with the same label vanish: what was at their left ports is linked, and
/// what was at their right ports.
pub proof fn equal_combinators_annihilate(net: Net, a: Node, b: Node, held: spec_fn(int) -> nat)
    requires
        a.kind == NodeKind::Comb,
        b.kind == NodeKind::Comb,
        a.label == b.label,
        apart(net, held, Port::Node(a), Port::Node(b)),
    ensures
        net.gains(
            net.interacted(Port::Node(a), Port::Node(b)),
            held,
            |reading: Reading|
                reading.at(a.left) == reading.at(b.left) && reading.at(a.right) == reading.at(
                    b.right,
                ),
        ),
        net.interacted(Port::Node(a), Port::Node(b)).books(
            net.with_stats(Stats { annihilate: net.stats.annihilate.wrapping_add(1), ..net.stats }),
        ),
        net.interacted(Port::Node(a), Port::Node(b)).links() == net.links() + 2,
{
    let base = net.with_stats(net.stats.annihilated());
    let (al, bl) = (Port::Wire(a.left), Port::Wire(b.left));
    let (ar, br) = (Port::Wire(a.right), Port::Wire(b.right));
    let whole = |cell: int| held(cell) + Port::Node(a).ends(cell) + Port::Node(b).ends(cell);
    let all = |cell: int|
        held(cell) + al.ends(cell) + bl.ends(cell) + ar.ends(cell) + br.ends(cell);
    assert forall|cell: int| #[trigger] base.fits(cell, all(cell)) by {
        assert(net.fits(cell, whole(cell)));
    }
    net.lemma_two_links_gain(base, al, bl, ar, br, held);
    net.lemma_gains_same(
        base.linked(al, bl).linked(ar, br),
        held,
        |reading: Reading|
            reading.port(al) == reading.port(bl) && reading.port(ar) == reading.port(br),
        |reading: Reading|
            reading.at(a.left) == reading.at(b.left) && reading.at(a.right) == reading.at(b.right),
    );
    base.lemma_linked_twice_books(al, bl, ar, br);
    base.lemma_linked_twice_links(al, bl, ar, br, held);
}

/// Two nodes that do not annihilate pass through each other: what was at the left port of one
/// faces a copy of the other, and so does what was at its right port. The copy that was at
/// the left of the one shares its auxiliary ports with the left ports of the copies of the
/// one, the copy at the right with their right ports.
pub proof fn different_nodes_commute(net: Net, a: Node, b: Node, held: spec_fn(int) -> nat)
    requires
        !(a.kind == NodeKind::Comb && b.kind == NodeKind::Comb && a.label == b.label),
        apart(net, held, Port::Node(a), Port::Node(b)),
        net.interacted(Port::Node(a), Port::Node(b)).cells.len() <= usize::MAX,
    ensures
        net.gains(
            net.interacted(Port::Node(a), Port::Node(b)),
            held,
            |reading: Reading|
                exists|ll: int, lr: int, rl: int, rr: int|
                    {
                        &&& reading.at(a.left) == #[trigger] reading.made(b.kind, b.label, ll, lr)
                        &&& reading.at(a.right) == #[trigger] reading.made(b.kind, b.label, rl, rr)
                        &&& reading.at(b.left) == reading.made(a.kind, a.label, ll, rl)
                        &&& reading.at(b.right) == reading.made(a.kind, a.label, lr, rr)
                    },
        ),
        net.interacted(Port::Node(a), Port::Node(b)).books(
            net.with_stats(Stats { commute: net.stats.commute.wrapping_add(1), ..net.stats }),
        ),
        net.interacted(Port::Node(a), Port::Node(b)).stats.mem_alloc == (net.stats.mem_alloc + 8)
            % 0x1_0000_0000_0000_0000,
        net.interacted(Port::Node(a), Port::Node(b)).links() == net.links(),
{
    net.lemma_commuted_links(a, b, held);
    net.lemma_commuted_gains(a, b, held);
    net.lemma_commuted_books(a, b);
    net.lemma_gains_same(
        net.commuted(a, b),
        held,
        |reading: Reading| reading.crosses(a, b),
        |reading: Reading|
            exists|ll: int, lr: int, rl: int, rr: int|
                {
                    &&& reading.at(a.left) == #[trigger] reading.made(b.kind, b.label, ll, lr)
                    &&& reading.at(a.right) == #[trigger] reading.made(b.kind, b.label, rl, rr)
                    &&& reading.at(b.left) == reading.made(a.kind, a.label, ll, rl)
                    &&& reading.at(b.right) == reading.made(a.kind, a.label, lr, rr)
                },
    );
}

/// A pair of values that meets a combinator with another label is duplicated as it is: what
/// was at either port of the combinator is a pair with the same left value and the same right
/// value. This is read where a value that a combinator is the same as is at both its ports,
/// as [`handles_can_be_copied_and_erased`] and [`opaque_values_are_copied_as_they_say`] have it.
pub proof fn pairs_are_duplicated_as_they_are(
    net: Net,
    pair: Node,
    copier: Node,
    first: ExtVal,
    second: ExtVal,
    held: spec_fn(int) -> nat,
    later: Reading,
)
    requires
        pair.kind == NodeKind::Comb,
        copier.kind == NodeKind::Comb,
        pair.label != copier.label,
        apart(net, held, Port::Node(pair), Port::Node(copier)),
        net.interacted(Port::Node(pair), Port::Node(copier)).cells.len() <= usize::MAX,
        net.interacted(Port::Node(pair), Port::Node(copier)).means(later),
        forall|value: ExtVal, left: int, right: int| #[trigger]
            later.made(NodeKind::Comb, copier.label, left, right) == #[trigger] (later.value)(value)
                ==> left == (later.value)(value) && right == (later.value)(value),
    ensures
        exists|reading: Reading|
            {
                &&& #[trigger] reading.meets(later, held)
                &&& net.means(reading)
                &&& reading.at(pair.left) == (later.value)(first) && reading.at(pair.right) == (
                later.value)(second) ==> {
                    let copy = later.made(
                        NodeKind::Comb,
                        pair.label,
                        (later.value)(first),
                        (later.value)(second),
                    );
                    reading.at(copier.left) == copy && reading.at(copier.right) == copy
                }
            },
{
    let after = net.interacted(Port::Node(pair), Port::Node(copier));
    let added = |reading: Reading| reading.crosses(pair, copier);
    net.lemma_commuted_gains(pair, copier, held);
    assert(net.leads_from(after, held, added, later));
    let reading = choose|reading: Reading| #[trigger]
        reading.meets(later, held) && net.means(reading) && added(reading);
    assert(reading.crosses(pair, copier));
    let (ll, lr, rl, rr) = choose|ll: int, lr: int, rl: int, rr: int|
        {
            &&& reading.at(pair.left) == #[trigger] reading.made(copier.kind, copier.label, ll, lr)
            &&& reading.at(pair.right) == #[trigger] reading.made(copier.kind, copier.label, rl, rr)
            &&& reading.at(copier.left) == reading.made(pair.kind, pair.label, ll, rl)
            &&& reading.at(copier.right) == reading.made(pair.kind, pair.label, lr, rr)
        };
    assert(later.made(NodeKind::Comb, copier.label, ll, lr) == reading.at(pair.left));
    assert(later.made(NodeKind::Comb, copier.label, rl, rr) == reading.at(pair.right));
    if reading.at(pair.left) == (later.value)(first) && reading.at(pair.right) == (later.value)(
        second,
    ) {
        assert(ll == (later.value)(first) && lr == (later.value)(first));
        assert(rl == (later.value)(second) && rr == (later.value)(second));
    }
    assert(reading.meets(later, held));
}

/// Two links, in a net with other statistics and flags.
proof fn two_links(net: Net, base: Net, node: Node, x: Port, y: Port, held: spec_fn(int) -> nat)
    requires
        apart(net, held, Port::Node(node), Port::Erase),
        base == (Net { stats: base.stats, flags: base.flags, ..net }),
        forall|cell: int| #[trigger] x.ends(cell) == 0 && y.ends(cell) == 0,
    ensures
        net.gains(
            base.linked(Port::Wire(node.left), x).linked(Port::Wire(node.right), y),
            held,
            |reading: Reading|
                reading.at(node.left) == reading.port(x) && reading.at(node.right) == reading.port(
                    y,
                ),
        ),
        base.linked(Port::Wire(node.left), x).linked(Port::Wire(node.right), y).books(base),
        base.linked(Port::Wire(node.left), x).linked(Port::Wire(node.right), y).links()
            == net.links() + 2,
{
    let (left, right) = (Port::Wire(node.left), Port::Wire(node.right));
    let whole = |cell: int| held(cell) + Port::Node(node).ends(cell) + Port::Erase.ends(cell);
    let all = |cell: int|
        held(cell) + left.ends(cell) + x.ends(cell) + right.ends(cell) + y.ends(cell);
    assert forall|cell: int| #[trigger] base.fits(cell, all(cell)) by {
        assert(net.fits(cell, whole(cell)));
        assert(x.ends(cell) == 0 && y.ends(cell) == 0);
    }
    net.lemma_two_links_gain(base, left, x, right, y, held);
    net.lemma_gains_same(
        base.linked(left, x).linked(right, y),
        held,
        |reading: Reading|
            reading.port(left) == reading.port(x) && reading.port(right) == reading.port(y),
        |reading: Reading|
            reading.at(node.left) == reading.port(x) && reading.at(node.right) == reading.port(y),
    );
    base.lemma_linked_twice_books(left, x, right, y);
    base.lemma_linked_twice_links(left, x, right, y, held);
}

/// Handles to programs and to grafts can be copied and erased: one that meets a combinator
/// arrives at both its ports, one that meets an eraser vanishes, and neither is an error.
pub proof fn handles_can_be_copied_and_erased(
    net: Net,
    value: ExtVal,
    node: Node,
    a: Port,
    b: Port,
    held: spec_fn(int) -> nat,
)
    requires
        value.payload is Program || value.payload is Graft,
        facing(a, b, Port::ExtVal(value), Port::Node(node)),
        node.kind == NodeKind::Comb,
        apart(net, held, Port::Node(node), Port::Erase),
    ensures
        net.gains(
            net.interacted(a, b),
            held,
            |reading: Reading|
                reading.at(node.left) == (reading.value)(value) && reading.at(node.right) == (
                reading.value)(value),
        ),
        net.interacted(a, b).books(
            net.with_stats(Stats { copy: net.stats.copy.wrapping_add(1), ..net.stats }),
        ),
        net.interacted(a, b).links() == net.links() + 2,
        net.interacted(Port::ExtVal(value), Port::Erase) == net.with_stats(
            Stats { erase: net.stats.erase.wrapping_add(1), ..net.stats },
        ),
        net.interacted(Port::Erase, Port::ExtVal(value)) == net.with_stats(
            Stats { erase: net.stats.erase.wrapping_add(1), ..net.stats },
        ),
{
    copies(net, value, node, held);
    assert(net.with_stats(net.stats.erased()).with_flags(net.flags) =~= net.with_stats(
        net.stats.erased(),
    ));
    assert(Flags { ext_erase: net.flags.ext_erase, ..net.flags } == net.flags);
}

proof fn copies(net: Net, value: ExtVal, node: Node, held: spec_fn(int) -> nat)
    requires
        value.is_copy(),
        node.kind == NodeKind::Comb,
        apart(net, held, Port::Node(node), Port::Erase),
    ensures
        net.gains(
            net.copied(value, node),
            held,
            |reading: Reading|
                reading.at(node.left) == (reading.value)(value) && reading.at(node.right) == (
                reading.value)(value),
        ),
        net.copied(value, node).books(
            net.with_stats(Stats { copy: net.stats.copy.wrapping_add(1), ..net.stats }),
        ),
        net.copied(value, node).links() == net.links() + 2,
{
    let base = net.with_stats(net.stats.copied());
    let port = Port::ExtVal(value);
    two_links(net, base, node, port, port, held);
    net.lemma_gains_same(
        net.copied(value, node),
        held,
        |reading: Reading|
            reading.at(node.left) == reading.port(port) && reading.at(node.right) == reading.port(
                port,
            ),
        |reading: Reading|
            reading.at(node.left) == (reading.value)(value) && reading.at(node.right) == (
            reading.value)(value),
    );
}

/// A value that only the host can read is copied and erased without an error if it says so.
pub proof fn opaque_values_are_copied_as_they_say(
    net: Net,
    ty_id: usize,
    bits: u64,
    node: Node,
    held: spec_fn(int) -> nat,
)
    requires
        node.kind == NodeKind::Comb,
        apart(net, held, Port::Node(node), Port::Erase),
    ensures
        ({
            let value = ExtVal { ty_id, payload: Payload::Opaque { bits, copy: true } };
            let after = net.interacted(Port::ExtVal(value), Port::Node(node));
            &&& net.gains(
                after,
                held,
                |reading: Reading|
                    reading.at(node.left) == (reading.value)(value) && reading.at(node.right) == (
                    reading.value)(value),
            )
            &&& after.books(
                net.with_stats(Stats { copy: net.stats.copy.wrapping_add(1), ..net.stats }),
            )
            &&& after.links() == net.links() + 2
            &&& net.interacted(Port::Node(node), Port::ExtVal(value)) == after
            &&& net.interacted(Port::ExtVal(value), Port::Erase).flags == net.flags
        }),
{
    let value = ExtVal { ty_id, payload: Payload::Opaque { bits, copy: true } };
    copies(net, value, node, held);
    assert(Flags { ext_erase: net.flags.ext_erase, ..net.flags } == net.flags);
}

/// The `IO` token, texts, pairs, answers, and values of the host that say so, are linear: one
/// that meets a combinator arrives at its left port only, one that is dropped is lost, and
/// both are errors.
pub proof fn linear_values_are_not_copied_or_erased(
    net: Net,
    value: ExtVal,
    node: Node,
    a: Port,
    b: Port,
    held: spec_fn(int) -> nat,
)
    requires
        !(value.payload is Program),
        !(value.payload is Graft),
        value.payload matches Payload::Opaque { bits, copy } ==> !copy,
        facing(a, b, Port::ExtVal(value), Port::Node(node)),
        node.kind == NodeKind::Comb,
        apart(net, held, Port::Node(node), Port::Erase),
    ensures
        net.gains(
            net.interacted(a, b),
            held,
            |reading: Reading|
                reading.at(node.left) == (reading.value)(value) && reading.at(node.right)
                    == reading.eraser,
        ),
        net.interacted(a, b).books(
            Net {
                stats: Stats { copy: net.stats.copy.wrapping_add(1), ..net.stats },
                flags: Flags { ext_copy: true, ..net.flags },
                ..net
            },
        ),
        net.interacted(a, b).links() == net.links() + 2,
        net.interacted(Port::ExtVal(value), Port::Erase) == (Net {
            stats: Stats { erase: net.stats.erase.wrapping_add(1), ..net.stats },
            flags: Flags { ext_erase: true, ..net.flags },
            ..net
        }),
        net.interacted(Port::Erase, Port::ExtVal(value)) == net.interacted(
            Port::ExtVal(value),
            Port::Erase,
        ),
{
    let base = Net {
        stats: net.stats.copied(),
        flags: Flags { ext_copy: true, ..net.flags },
        ..net
    };
    let port = Port::ExtVal(value);
    two_links(net, base, node, port, Port::Erase, held);
    net.lemma_gains_same(
        net.copied(value, node),
        held,
        |reading: Reading|
            reading.at(node.left) == reading.port(port) && reading.at(node.right) == reading.port(
                Port::Erase,
            ),
        |reading: Reading|
            reading.at(node.left) == (reading.value)(value) && reading.at(node.right)
                == reading.eraser,
    );
}

/// An eraser that meets a node erases what was at both its ports.
pub proof fn erasers_erase_both_ports(
    net: Net,
    node: Node,
    a: Port,
    b: Port,
    held: spec_fn(int) -> nat,
)
    requires
        facing(a, b, Port::Erase, Port::Node(node)),
        apart(net, held, Port::Node(node), Port::Erase),
    ensures
        net.gains(
            net.interacted(a, b),
            held,
            |reading: Reading|
                reading.at(node.left) == reading.eraser && reading.at(node.right)
                    == reading.eraser,
        ),
        net.interacted(a, b).books(
            net.with_stats(Stats { erase: net.stats.erase.wrapping_add(1), ..net.stats }),
        ),
        net.interacted(a, b).links() == net.links() + 2,
{
    let base = net.with_stats(net.stats.erased());
    two_links(net, base, node, Port::Erase, Port::Erase, held);
    net.lemma_gains_same(
        net.erased(node),
        held,
        |reading: Reading|
            reading.at(node.left) == reading.port(Port::Erase) && reading.at(node.right)
                == reading.port(Port::Erase),
        |reading: Reading|
            reading.at(node.left) == reading.eraser && reading.at(node.right) == reading.eraser,
    );
}

/// Two erasers, and an eraser and a graft, vanish without a trace but in the statistics. So
/// do two values, where it is an error if one of them is linear.
pub proof fn agents_without_ports_vanish(net: Net, graft: GraftId, first: ExtVal, second: ExtVal)
    ensures
        ({
            let counted = net.with_stats(
                Stats { erase: net.stats.erase.wrapping_add(1), ..net.stats },
            );
            &&& net.interacted(Port::Erase, Port::Erase) == counted
            &&& net.interacted(Port::Graft(graft), Port::Erase) == counted
            &&& net.interacted(Port::Erase, Port::Graft(graft)) == counted
            &&& net.interacted(Port::ExtVal(first), Port::ExtVal(second)).flags.ext_erase
                == (net.interacted(Port::ExtVal(first), Port::Erase).flags.ext_erase
                || net.interacted(Port::Erase, Port::ExtVal(second)).flags.ext_erase)
            &&& net.interacted(Port::ExtVal(first), Port::ExtVal(second)) == Net {
                flags: net.interacted(Port::ExtVal(first), Port::ExtVal(second)).flags,
                ..counted
            }
        }),
{
    assert(Flags { ext_erase: net.flags.ext_erase, ..net.flags } == net.flags);
}

/// A graft that meets anything but an eraser is replaced by its net: there are wires such that
/// each agent of the graft is between those that it names, and the first of them is the
/// same as what the graft has met. No wire of a graft has more than two ends; if each has
/// two, every link of the graft is made once.
pub proof fn grafts_are_replaced_by_their_nets(
    net: Net,
    graft: GraftId,
    port: Port,
    a: Port,
    b: Port,
    held: spec_fn(int) -> nat,
)
    requires
        facing(a, b, Port::Graft(graft), port),
        !(port is Erase),
        !(port is Graft) || a == Port::Graft(graft),
        net.host.wf(),
        graft.index < net.host.grafts.len(),
        apart(net, held, port, Port::Erase),
        net.interacted(a, b).cells.len() <= usize::MAX,
        forall|wire: int|
            0 <= wire < net.host.grafts[graft.index as int].registers ==> one(wire == 0)
                + #[trigger] Net::touched(
                net.host.grafts[graft.index as int].instructions,
                wire,
            ) <= 2,
    ensures
        net.gains(
            net.interacted(a, b),
            held,
            |reading: Reading|
                exists|wires: spec_fn(int) -> int|
                    wires(0) == reading.port(port) && #[trigger] reading.places_all(
                        net.host.grafts[graft.index as int].instructions,
                        wires,
                    ),
        ),
        net.interacted(a, b).books(
            net.with_stats(Stats { expand: net.stats.expand.wrapping_add(1), ..net.stats }),
        ),
        net.interacted(a, b).stats.mem_alloc == (net.stats.mem_alloc + 2 * Net::binaries(
            net.host.grafts[graft.index as int].instructions,
        )) % 0x1_0000_0000_0000_0000,
        (forall|wire: int|
            0 <= wire < net.host.grafts[graft.index as int].registers ==> one(wire == 0)
                + #[trigger] Net::touched(
                net.host.grafts[graft.index as int].instructions,
                wire,
            ) == 2) ==> 2 * (net.interacted(a, b).links() - net.links())
            == net.host.grafts[graft.index as int].instructions.len() + 1 - 2 * Net::binaries(
            net.host.grafts[graft.index as int].instructions,
        ),
{
    let whole = |cell: int| held(cell) + port.ends(cell) + Port::Erase.ends(cell);
    let all = |cell: int| held(cell) + port.ends(cell);
    assert forall|cell: int| #[trigger] net.fits(cell, all(cell)) by {
        assert(net.fits(cell, whole(cell)));
    }
    let instructions = net.host.grafts[graft.index as int].instructions;
    assert(net.interacted(a, b) == net.expanded(graft, port));
    net.lemma_expanded_gains(graft, port, held);
    net.lemma_expanded_books(graft, port);
    if forall|wire: int|
        0 <= wire < net.host.grafts[graft.index as int].registers ==> one(wire == 0)
            + #[trigger] Net::touched(instructions, wire) == 2 {
        net.lemma_expanded_links(graft, port, held);
    }
    net.lemma_gains_same(
        net.expanded(graft, port),
        held,
        |reading: Reading| reading.holds_graft(instructions, reading.port(port)),
        |reading: Reading|
            exists|wires: spec_fn(int) -> int|
                wires(0) == reading.port(port) && #[trigger] reading.places_all(
                    instructions,
                    wires,
                ),
    );
}

// ---- calls ----

/// Whether `node` is a call of a function of kind `kind`.
pub open spec fn is_call(net: Net, node: Node, kind: ExtFnKind) -> bool {
    &&& node.kind == NodeKind::ExtFn
    &&& node.label < net.host.fns.len()
    &&& net.host.fns[node.label as int].kind == kind
}

/// Invoking a graft puts it behind a pair of the two outputs of the call: the left one is its
/// input, and the right one its output.
pub proof fn invoked_grafts_stand_between_the_outputs(
    net: Net,
    value: ExtVal,
    handle: GraftHandle,
    node: Node,
    a: Port,
    b: Port,
    held: spec_fn(int) -> nat,
)
    requires
        is_call(net, node, ExtFnKind::InvokeGraft),
        value.payload == Payload::Graft(handle),
        facing(a, b, Port::ExtVal(value), Port::Node(node)),
        apart(net, held, Port::Node(node), Port::Erase),
        net.interacted(a, b).cells.len() <= usize::MAX,
    ensures
        net.gains(
            net.interacted(a, b),
            held,
            |reading: Reading|
                (reading.graft)(handle.graft) == reading.made(
                    NodeKind::Comb,
                    0,
                    reading.at(node.left),
                    reading.at(node.right),
                ),
        ),
        net.interacted(a, b).books(
            net.with_stats(Stats { call: net.stats.call.wrapping_add(1), ..net.stats }),
        ),
        net.interacted(a, b).links() == net.links() + 1,
{
    let base = net.with_stats(net.stats.called());
    let (left, right) = (Port::Wire(node.left), Port::Wire(node.right));
    let whole = |cell: int| held(cell) + Port::Node(node).ends(cell) + Port::Erase.ends(cell);
    let all = |cell: int| held(cell) + left.ends(cell) + right.ends(cell);
    assert forall|cell: int| #[trigger] net.fits(cell, all(cell)) by {
        assert(net.fits(cell, whole(cell)));
    }
    assert forall|cell: int| #[trigger] base.fits(cell, all(cell)) by {
        assert(net.fits(cell, all(cell)));
    }
    net.lemma_invoked_gains(base, handle.graft, node.left, node.right, held);
    base.lemma_invoked_books(handle.graft, node.left, node.right);
    base.lemma_invoked_links(handle.graft, node.left, node.right, held);
}

/// A function that is called with a value that it does not take sets an error flag, and
/// erases what is at both its outputs. The functions that parse take texts, those that
/// resolve take pairs of a program and a text, and those that invoke take grafts.
pub proof fn other_values_are_refused(
    net: Net,
    value: ExtVal,
    node: Node,
    a: Port,
    b: Port,
    held: spec_fn(int) -> nat,
)
    requires
        node.kind == NodeKind::ExtFn,
        node.label < net.host.fns.len(),
        match net.host.fns[node.label as int].kind {
            ExtFnKind::ParseIvy(_) => !(value.payload is Text),
            ExtFnKind::ResolveProgram(_) => !(value.payload matches Payload::Pair(first, second)
                && first.payload is Program && second.payload is Text),
            ExtFnKind::InvokeGraft => !(value.payload is Graft),
            ExtFnKind::Host => false,
        },
        facing(a, b, Port::ExtVal(value), Port::Node(node)),
        apart(net, held, Port::Node(node), Port::Erase),
    ensures
        net.gains(
            net.interacted(a, b),
            held,
            |reading: Reading|
                reading.at(node.left) == reading.eraser && reading.at(node.right)
                    == reading.eraser,
        ),
        net.interacted(a, b).books(
            Net {
                stats: Stats { call: net.stats.call.wrapping_add(1), ..net.stats },
                flags: Flags { ext_generic: true, ..net.flags },
                ..net
            },
        ),
        net.interacted(a, b).links() == net.links() + 2,
{
    let base = Net {
        stats: net.stats.called(),
        flags: Flags { ext_generic: true, ..net.flags },
        ..net
    };
    two_links(net, base, node, Port::Erase, Port::Erase, held);
    assert(net.interacted(a, b) == base.pruned(node.left, node.right));
    net.lemma_gains_same(
        net.interacted(a, b),
        held,
        |reading: Reading|
            reading.at(node.left) == reading.port(Port::Erase) && reading.at(node.right)
                == reading.port(Port::Erase),
        |reading: Reading|
            reading.at(node.left) == reading.eraser && reading.at(node.right) == reading.eraser,
    );
}

/// A call of the host waits behind those that wait already, with the value that it was given
/// and its two outputs. Nothing is linked.
pub proof fn calls_of_the_host_wait(net: Net, value: ExtVal, node: Node, a: Port, b: Port)
    requires
        is_call(net, node, ExtFnKind::Host),
        facing(a, b, Port::ExtVal(value), Port::Node(node)),
    ensures
        net.interacted(a, b) == (Net {
            calls: net.calls.push(
                ExtCall { label: node.label, input: value, left: node.left, right: node.right },
            ),
            stats: Stats { call: net.stats.call.wrapping_add(1), ..net.stats },
            ..net
        }),
{
}

/// A net that asks for a text to be parsed leaves the text and its left output in the mailbox
/// of the function, behind what waits there. What is at its right output is erased, and
/// nothing is said of what is at its left one.
pub proof fn texts_are_left_to_be_parsed(
    net: Net,
    value: ExtVal,
    source: String,
    node: Node,
    mailbox: crate::host::dynamic::DynamicProgramMailbox,
    a: Port,
    b: Port,
    held: spec_fn(int) -> nat,
)
    requires
        is_call(net, node, ExtFnKind::ParseIvy(mailbox)),
        mailbox.index < net.requests.len(),
        value.payload == Payload::Text(source),
        facing(a, b, Port::ExtVal(value), Port::Node(node)),
        apart(net, held, Port::Node(node), Port::Erase),
    ensures
        asks(
            net,
            net.interacted(a, b),
            mailbox.index as int,
            DynamicProgramRequest::ParseIvy { source, output: node.left },
            node,
            held,
        ),
{
    asking(net, mailbox, DynamicProgramRequest::ParseIvy { source, output: node.left }, node, held);
}

/// A net that asks for an entry of a program to be resolved leaves the program, the name and
/// its left output in the mailbox of the function, behind what waits there. What is at its
/// right output is erased, and nothing is said of what is at its left one.
pub proof fn entries_are_left_to_be_resolved(
    net: Net,
    value: ExtVal,
    first: ExtVal,
    second: ExtVal,
    module: crate::host::module::ProgramHandle,
    entry: String,
    node: Node,
    mailbox: crate::host::dynamic::DynamicProgramMailbox,
    a: Port,
    b: Port,
    held: spec_fn(int) -> nat,
)
    requires
        is_call(net, node, ExtFnKind::ResolveProgram(mailbox)),
        mailbox.index < net.requests.len(),
        value.payload == Payload::Pair(Box::new(first), Box::new(second)),
        first.payload == Payload::Program(module),
        second.payload == Payload::Text(entry),
        facing(a, b, Port::ExtVal(value), Port::Node(node)),
        apart(net, held, Port::Node(node), Port::Erase),
    ensures
        asks(
            net,
            net.interacted(a, b),
            mailbox.index as int,
            DynamicProgramRequest::Resolve { module, entry, output: node.left },
            node,
            held,
        ),
{
    asking(
        net,
        mailbox,
        DynamicProgramRequest::Resolve { module, entry, output: node.left },
        node,
        held,
    );
}

/// Whether a call has left `request` in the mailbox with the index `index`, and nothing else
/// has happened but that what was at its right output was erased.
pub open spec fn asks(
    net: Net,
    after: Net,
    index: int,
    request: DynamicProgramRequest,
    node: Node,
    held: spec_fn(int) -> nat,
) -> bool {
    &&& after.books(
        Net {
            requests: net.requests.update(index, net.requests[index].push(request)),
            stats: Stats { call: net.stats.call.wrapping_add(1), ..net.stats },
            ..net
        },
    )
    &&& after.links() == net.links() + 1
    &&& net.gains(after, held, |reading: Reading| reading.at(node.right) == reading.eraser)
}

proof fn asking(
    net: Net,
    mailbox: crate::host::dynamic::DynamicProgramMailbox,
    request: DynamicProgramRequest,
    node: Node,
    held: spec_fn(int) -> nat,
)
    requires
        mailbox.index < net.requests.len(),
        request.wire() == node.left,
        apart(net, held, Port::Node(node), Port::Erase),
    ensures
        asks(
            net,
            net.with_stats(net.stats.called()).requested(mailbox, request, node.right),
            mailbox.index as int,
            request,
            node,
            held,
        ),
{
    let base = net.with_stats(net.stats.called()).posted(mailbox, request);
    let right = Port::Wire(node.right);
    let whole = |cell: int| held(cell) + Port::Node(node).ends(cell) + Port::Erase.ends(cell);
    let queue = net.requests[mailbox.index as int];
    assert(queue.push(request).drop_last() =~= queue);
    assert forall|cell: int| #[trigger] base.spares(cell, held, right, Port::Erase) by {
        assert(net.fits(cell, whole(cell)));
        Net::lemma_queues_ends_update(
            net.requests,
            mailbox.index as int,
            queue.push(request),
            cell,
        );
    }
    net.lemma_link_gains(base, right, Port::Erase, held);
    base.lemma_linked_books(right, Port::Erase);
    base.lemma_linked_links(right, Port::Erase, held);
    net.lemma_gains_same(
        base.linked(right, Port::Erase),
        held,
        |reading: Reading| reading.port(right) == reading.port(Port::Erase),
        |reading: Reading| reading.at(node.right) == reading.eraser,
    );
}

// ---- the order of reductions ----

/// A reduction lets the newest fast active pair interact, or the newest slow one if there is no
/// fast one; all others wait.
pub proof fn the_newest_fast_pair_is_next(net: Net, n: nat)
    ensures
        net.steps(0) == net,
        net.steps(n + 1) == net.steps(n).steps(1),
        net.fast.len() == 0 && net.slow.len() == 0 ==> net.steps(1) == net,
        net.fast.len() > 0 ==> net.steps(1) == (Net {
            fast: net.fast.drop_last(),
            ..net
        }).interacted(net.fast.last().0, net.fast.last().1),
        net.fast.len() == 0 && net.slow.len() > 0 ==> net.steps(1) == (Net {
            slow: net.slow.drop_last(),
            ..net
        }).interacted(net.slow.last().0, net.slow.last().1),
{
    assert(net.steps(1) == net.steps(0).step());
    assert(net.steps(n).steps(1) == net.steps(n).steps(0).step());
}

/// Active pairs interact in the order in which they are listed.
pub proof fn pairs_interact_in_order(
    net: Net,
    first: Seq<(Port, Port)>,
    second: Seq<(Port, Port)>,
    a: Port,
    b: Port,
)
    ensures
        net.swept(Seq::empty()) == net,
        net.swept(seq![(a, b)]) == net.interacted(a, b),
        net.swept(first + second) == net.swept(first).swept(second),
    decreases second.len(),
{
    assert(seq![(a, b)].drop_last() =~= Seq::<(Port, Port)>::empty());
    assert(net.swept(seq![(a, b)]) == net.swept(seq![(a, b)].drop_last()).interacted(a, b));
    if second.len() == 0 {
        assert(first + second =~= first);
    } else {
        pairs_interact_in_order(net, first, second.drop_last(), a, b);
        assert((first + second).drop_last() =~= first + second.drop_last());
    }
}

/// A round lets all active pairs that wait at its start interact, the fast ones before the
/// slow ones and the oldest first, and adds one to the depth.
pub proof fn a_round_goes_to_all_that_wait(net: Net)
    requires
        net.fast.len() > 0 || net.slow.len() > 0,
    ensures
        ({
            let swept = (Net { fast: Seq::empty(), slow: Seq::empty(), ..net }).swept(
                net.fast + net.slow,
            );
            net.rounds(1) == swept.with_stats(
                Stats { depth: swept.stats.depth.wrapping_add(1), ..swept.stats },
            )
        }),
        net.rounds(0) == net,
{
    assert(net.rounds(1) == net.rounds(0).round());
}

/// A normalization is over when no active pair is left and no call waits.
pub proof fn nothing_is_left_at_the_end(net: Net)
    ensures
        net.rests() <==> net.fast.len() == 0 && net.slow.len() == 0 && net.calls.len() == 0,
        net.stops() <==> net.fast.len() == 0 && net.slow.len() == 0 || net.calls.len() > 0,
        net.quiescent() <==> net.fast.len() == 0 && net.slow.len() == 0,
        net.waits() <==> net.calls.len() > 0,
{
}

} // verus!
